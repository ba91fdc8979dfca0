//! Huffman tree nodes, the block-value ordering, and the node-list
//! operations that the tree builder works with.

use vstd::prelude::*;

verus! {

/// The mathematical shape of a Huffman tree: a leaf holds one block value,
/// an internal node holds exactly two subtrees.  Frequencies only steer the
/// construction; they are not part of the shape the container stores.
pub enum HTree {
    Leaf { val: Seq<u8> },
    Fork { esq: Box<HTree>, dir: Box<HTree> },
}

/// Every leaf of the tree holds a block of exactly `b` bytes.
pub open spec fn wf_tree(t: HTree, b: nat) -> bool
    decreases t,
{
    match t {
        HTree::Leaf { val } => val.len() == b,
        HTree::Fork { esq, dir } => wf_tree(*esq, b) && wf_tree(*dir, b),
    }
}

/// The number of leaves of the tree.
pub open spec fn nleaves(t: HTree) -> nat
    decreases t,
{
    match t {
        HTree::Leaf { .. } => 1,
        HTree::Fork { esq, dir } => nleaves(*esq) + nleaves(*dir),
    }
}

/// Whether some leaf of the tree holds the block value `v`.
pub open spec fn contains_val(t: HTree, v: Seq<u8>) -> bool
    decreases t,
{
    match t {
        HTree::Leaf { val } => val == v,
        HTree::Fork { esq, dir } => contains_val(*esq, v) || contains_val(*dir, v),
    }
}

/// A node of the Huffman tree under construction: either a leaf carrying a
/// block value, or an internal node owning two children; `freq` counts the
/// occurrences the subtree stands for.
pub struct Node {
    pub valor: Option<Vec<u8>>,
    pub freq: usize,
    pub esq: Option<Box<Node>>,
    pub dir: Option<Box<Node>>,
}

impl Node {
    /// A node without children carries a value; one with children carries
    /// both and no value, and every leaf value is `b` bytes long.
    pub open spec fn wf(self, b: nat) -> bool
        decreases self,
    {
        match self.valor {
            Some(v) => v@.len() == b && self.esq is None && self.dir is None,
            None => match (self.esq, self.dir) {
                (Some(e), Some(d)) => e.wf(b) && d.wf(b),
                _ => false,
            },
        }
    }

    /// The tree shape this node stands for (meaningful when `wf` holds).
    pub open spec fn tree(self) -> HTree
        decreases self,
    {
        match self.valor {
            Some(v) => HTree::Leaf { val: v@ },
            None => HTree::Fork {
                esq: Box::new(
                    match self.esq {
                        Some(e) => e.tree(),
                        None => HTree::Leaf { val: Seq::empty() },
                    },
                ),
                dir: Box::new(
                    match self.dir {
                        Some(d) => d.tree(),
                        None => HTree::Leaf { val: Seq::empty() },
                    },
                ),
            },
        }
    }

    /// A fresh node: a leaf (frequency 1) when given a value, otherwise an
    /// internal node waiting for its children (frequency 0).
    pub fn new(valor: Option<Vec<u8>>) -> (r: Node)
        ensures
            r.valor == valor,
            r.esq is None,
            r.dir is None,
            r.freq == (if valor is Some { 1int } else { 0int }),
    {
        let freq: usize = if valor.is_some() { 1 } else { 0 };
        Node { valor, freq, esq: None, dir: None }
    }
}

// ---------------------------------------------------------------------------
// The block-value ordering.
// ---------------------------------------------------------------------------

/// The byte at index `i`, with missing positions reading as zero.
pub open spec fn byte_at(s: Seq<u8>, i: int) -> u8 {
    if 0 <= i < s.len() {
        s[i]
    } else {
        0
    }
}

/// Compares positions `i - 1` down to `0`, the highest index deciding first;
/// bytes past a sequence's end read as zero.
pub open spec fn cmp_from(a: Seq<u8>, b: Seq<u8>, i: nat) -> core::cmp::Ordering
    decreases i,
{
    if i == 0 {
        core::cmp::Ordering::Equal
    } else if byte_at(a, i - 1) < byte_at(b, i - 1) {
        core::cmp::Ordering::Less
    } else if byte_at(a, i - 1) > byte_at(b, i - 1) {
        core::cmp::Ordering::Greater
    } else {
        cmp_from(a, b, (i - 1) as nat)
    }
}

/// The total order on block values: numeric comparison with the
/// most-significant byte at the highest index.
pub open spec fn spec_cmp(a: Seq<u8>, b: Seq<u8>) -> core::cmp::Ordering {
    cmp_from(a, b, if a.len() >= b.len() { a.len() } else { b.len() })
}

/// `Equal` up to `i` means the bytes below `i` agree pairwise.
pub proof fn lemma_cmp_from_eq(a: Seq<u8>, b: Seq<u8>, i: nat)
    ensures
        (cmp_from(a, b, i) == core::cmp::Ordering::Equal) <==> (forall|j: int|
            0 <= j < i ==> byte_at(a, j) == byte_at(b, j)),
    decreases i,
{
    if i > 0 {
        lemma_cmp_from_eq(a, b, (i - 1) as nat);
    }
}

/// On equal-length sequences the ordering reports `Equal` exactly on equality.
pub proof fn lemma_cmp_eq(a: Seq<u8>, b: Seq<u8>)
    requires
        a.len() == b.len(),
    ensures
        (spec_cmp(a, b) == core::cmp::Ordering::Equal) <==> a == b,
{
    lemma_cmp_from_eq(a, b, a.len());
    if spec_cmp(a, b) == core::cmp::Ordering::Equal {
        assert(forall|j: int| 0 <= j < a.len() ==> a[j] == byte_at(a, j) && b[j] == byte_at(b, j));
        assert(a =~= b);
    }
}

/// Swapping the arguments reverses the verdict.
pub proof fn lemma_cmp_from_antisym(a: Seq<u8>, b: Seq<u8>, i: nat)
    ensures
        (cmp_from(a, b, i) == core::cmp::Ordering::Less) <==> (cmp_from(b, a, i)
            == core::cmp::Ordering::Greater),
        (cmp_from(a, b, i) == core::cmp::Ordering::Equal) <==> (cmp_from(b, a, i)
            == core::cmp::Ordering::Equal),
    decreases i,
{
    if i > 0 {
        lemma_cmp_from_antisym(a, b, (i - 1) as nat);
    }
}

/// The ordering is transitive.
pub proof fn lemma_cmp_from_trans(a: Seq<u8>, b: Seq<u8>, c: Seq<u8>, i: nat)
    requires
        cmp_from(a, b, i) == core::cmp::Ordering::Less,
        cmp_from(b, c, i) == core::cmp::Ordering::Less,
    ensures
        cmp_from(a, c, i) == core::cmp::Ordering::Less,
    decreases i,
{
    if i > 0 {
        if byte_at(a, i - 1) == byte_at(b, i - 1) && byte_at(b, i - 1) == byte_at(c, i - 1) {
            lemma_cmp_from_trans(a, b, c, (i - 1) as nat);
        }
    }
}

/// Compares two byte sequences as block values: numeric comparison from the
/// highest index down, bytes past a sequence's end reading as zero.
pub fn cmp_byte_arrays(a: &[u8], b: &[u8]) -> (r: core::cmp::Ordering)
    ensures
        r == spec_cmp(a@, b@),
{
    let mut byte_atual: usize = if a.len() >= b.len() {
        a.len()
    } else {
        b.len()
    };
    while byte_atual > 0
        invariant
            byte_atual <= a@.len() || byte_atual <= b@.len() || byte_atual == 0,
            spec_cmp(a@, b@) == cmp_from(a@, b@, byte_atual as nat),
        decreases byte_atual,
    {
        byte_atual = byte_atual - 1;
        let val_a: u8 = if a.len() > byte_atual {
            a[byte_atual]
        } else {
            0
        };
        let val_b: u8 = if b.len() > byte_atual {
            b[byte_atual]
        } else {
            0
        };
        if val_a < val_b {
            return core::cmp::Ordering::Less;
        }
        if val_a > val_b {
            return core::cmp::Ordering::Greater;
        }
    }
    core::cmp::Ordering::Equal
}

/// Whether two byte sequences are equal, byte for byte.
pub(crate) fn bytes_eq(a: &[u8], b: &[u8]) -> (r: bool)
    ensures
        r == (a@ == b@),
{
    if a.len() != b.len() {
        return false;
    }
    let mut i: usize = 0;
    while i < a.len()
        invariant
            i <= a@.len(),
            a@.len() == b@.len(),
            forall|j: int| 0 <= j < i ==> a@[j] == b@[j],
        decreases a@.len() - i,
    {
        if a[i] != b[i] {
            return false;
        }
        i = i + 1;
    }
    proof {
        assert(a@ =~= b@);
    }
    true
}

// ---------------------------------------------------------------------------
// Node-list operations used by the frequency counter and the tree builder.
// ---------------------------------------------------------------------------

/// Whether the node is a leaf holding exactly the block value `value`.
pub open spec fn node_has_val(n: Node, value: Seq<u8>) -> bool {
    match n.valor {
        Some(v) => v@ == value,
        None => false,
    }
}

/// The first index holding a leaf with the value, or `-1` when there is none.
pub open spec fn find_idx(l: Seq<Node>, value: Seq<u8>) -> int
    decreases l.len(),
{
    if l.len() == 0 {
        -1
    } else if node_has_val(l[0], value) {
        0
    } else {
        let r = find_idx(l.drop_first(), value);
        if r == -1 {
            -1
        } else {
            r + 1
        }
    }
}

pub proof fn lemma_find_idx(l: Seq<Node>, value: Seq<u8>)
    ensures
        find_idx(l, value) == -1 ==> forall|j: int|
            0 <= j < l.len() ==> !node_has_val(l[j], value),
        find_idx(l, value) != -1 ==> 0 <= find_idx(l, value) < l.len() && node_has_val(
            l[find_idx(l, value)],
            value,
        ) && forall|j: int| 0 <= j < find_idx(l, value) ==> !node_has_val(l[j], value),
    decreases l.len(),
{
    if l.len() > 0 && !node_has_val(l[0], value) {
        lemma_find_idx(l.drop_first(), value);
        assert(forall|j: int|
            1 <= j < l.len() ==> l[j] == l.drop_first()[j - 1]);
    }
}

/// Removes and returns the first leaf holding the value, swapping the last
/// node into its place, as the frequency counter does.
pub fn find_pop(lista: &mut Vec<Node>, value: &[u8]) -> (r: Option<Node>)
    ensures
        ({
            let k = find_idx(old(lista)@, value@);
            if k == -1 {
                r is None && final(lista)@ == old(lista)@
            } else {
                r == Some(old(lista)@[k]) && final(lista)@ == old(lista)@.update(
                    k,
                    old(lista)@.last(),
                ).drop_last()
            }
        }),
{
    proof {
        lemma_find_idx(lista@, value@);
    }
    let ghost l = lista@;
    let mut i: usize = 0;
    while i < lista.len()
        invariant
            l == lista@,
            l == old(lista)@,
            i <= l.len(),
            forall|j: int| 0 <= j < i ==> !node_has_val(l[j], value@),
            find_idx(l, value@) == -1 ==> forall|j: int|
                0 <= j < l.len() ==> !node_has_val(l[j], value@),
            find_idx(l, value@) != -1 ==> 0 <= find_idx(l, value@) < l.len() && node_has_val(
                l[find_idx(l, value@)],
                value@,
            ) && forall|j: int| 0 <= j < find_idx(l, value@) ==> !node_has_val(l[j], value@),
        decreases l.len() - i,
    {
        let matches_here: bool = match &lista[i].valor {
            Some(v) => bytes_eq(v.as_slice(), value),
            None => false,
        };
        if matches_here {
            proof {
                assert(node_has_val(l[i as int], value@));
                assert(find_idx(l, value@) == i);
            }
            return Some(lista.swap_remove(i));
        }
        i = i + 1;
    }
    None
}

/// The first index of a node with the smallest frequency: ties keep the
/// earliest index, as a forward scan with a strict comparison finds it.
pub open spec fn min_idx(fr: Seq<nat>) -> int
    decreases fr.len(),
{
    if fr.len() <= 1 {
        0
    } else {
        let m = min_idx(fr.drop_last());
        if fr.last() < fr[m] {
            fr.len() - 1
        } else {
            m
        }
    }
}

/// The frequencies of a node list.
pub open spec fn freqs_of(l: Seq<Node>) -> Seq<nat> {
    l.map(|i: int, n: Node| n.freq as nat)
}

pub proof fn lemma_min_idx_range(fr: Seq<nat>)
    requires
        fr.len() > 0,
    ensures
        0 <= min_idx(fr) < fr.len(),
    decreases fr.len(),
{
    if fr.len() > 1 {
        lemma_min_idx_range(fr.drop_last());
    }
}

/// Removes and returns the node with the smallest frequency (the earliest on
/// a tie), swapping the last node into its place.
pub fn pop_smallest(lista: &mut Vec<Node>) -> (r: Option<Node>)
    ensures
        old(lista)@.len() == 0 ==> r is None && final(lista)@ == old(lista)@,
        old(lista)@.len() > 0 ==> ({
            let k = min_idx(freqs_of(old(lista)@));
            &&& 0 <= k < old(lista)@.len()
            &&& r == Some(old(lista)@[k])
            &&& final(lista)@ == old(lista)@.update(k, old(lista)@.last()).drop_last()
        }),
{
    if lista.is_empty() {
        return None;
    }
    let ghost l = lista@;
    let ghost fr = freqs_of(lista@);
    proof {
        lemma_min_idx_range(fr);
        assert(fr.take(1).drop_last() =~= Seq::<nat>::empty());
        assert(min_idx(fr.take(1)) == 0);
    }
    let mut menor_freq: usize = lista[0].freq;
    let mut menor_index: usize = 0;
    let mut i: usize = 1;
    while i < lista.len()
        invariant
            l == lista@,
            fr == freqs_of(l),
            fr.len() == l.len(),
            1 <= i <= l.len(),
            menor_index == min_idx(fr.take(i as int)),
            0 <= menor_index < i,
            menor_freq == l[menor_index as int].freq,
        decreases l.len() - i,
    {
        proof {
            assert(fr.take(i + 1).drop_last() =~= fr.take(i as int));
            assert(fr.take(i + 1).last() == fr[i as int]);
            assert(fr[i as int] == l[i as int].freq as nat);
        }
        if lista[i].freq < menor_freq {
            menor_freq = lista[i].freq;
            menor_index = i;
        }
        i = i + 1;
    }
    proof {
        assert(fr.take(l.len() as int) =~= fr);
    }
    Some(lista.swap_remove(menor_index))
}

} // verus!
