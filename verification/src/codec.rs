//! The container codec: `encode` assembles [serialized tree][32-bit block
//! count][prefix-coded body] into a packed byte buffer, and `decode` is its
//! exact inverse.  The mathematical model of both directions lives here too.

use vstd::prelude::*;

use crate::bits::{
    bv_bits, bv_len, bv_new, bv_push, byte_bits, bytes_bits, bytes_from_bits, from_bits, pack,
    to_bits, BitBuf, BIT_CAPACITY,
};
use vstd::arithmetic::power2::pow2;
use crate::bits::bitvec_to_bytevec;
use crate::codes::{code_table, dict_view, entry_for, has_val, height, node_body_bits, shaped};
use crate::tree::{find_pop, pop_smallest};
use crate::tree::{contains_val, nleaves, wf_tree, HTree, Node};

verus! {

/// Decoding fails only on a malformed container: the bit stream ran out, or
/// the declared structure does not fit the bytes given.
#[derive(Clone, Copy, Debug, PartialEq, Eq, Structural)]
pub enum DecodeError {
    MalformedContainer,
}

// ---------------------------------------------------------------------------
// Padding and blocks.
// ---------------------------------------------------------------------------

/// How many zero bytes padding appends to reach a multiple of `b`.
pub open spec fn pad_len(n: nat, b: nat) -> nat {
    if n % b == 0 {
        0
    } else {
        (b - n % b) as nat
    }
}

/// A sequence of `n` zero bytes.
pub open spec fn zero_bytes(n: nat) -> Seq<u8> {
    Seq::new(n, |i: int| 0u8)
}

/// The input padded with zero bytes to the next multiple of `b`.
pub open spec fn padded(s: Seq<u8>, b: nat) -> Seq<u8> {
    s + zero_bytes(pad_len(s.len(), b))
}

/// The padded input cut into `b`-byte blocks.
pub open spec fn blocks_of(s: Seq<u8>, b: nat) -> Seq<Seq<u8>> {
    Seq::new(s.len() / b, |i: int| s.subrange(i * b, (i + 1) * b))
}

/// The blocks joined back into one byte sequence.
pub open spec fn concat_blocks(blks: Seq<Seq<u8>>) -> Seq<u8>
    decreases blks.len(),
{
    if blks.len() == 0 {
        Seq::empty()
    } else {
        blks[0] + concat_blocks(blks.drop_first())
    }
}

// ---------------------------------------------------------------------------
// Frequency counting, mirrored from the node-list operations.
// ---------------------------------------------------------------------------

/// The first index pairing the value, or `-1` when there is none.
pub open spec fn first_val_idx(l: Seq<(Seq<u8>, nat)>, x: Seq<u8>) -> int
    decreases l.len(),
{
    if l.len() == 0 {
        -1
    } else if l[0].0 == x {
        0
    } else {
        let r = first_val_idx(l.drop_first(), x);
        if r == -1 {
            -1
        } else {
            r + 1
        }
    }
}

/// One counting step: bump the first entry holding the block (moving it to
/// the end, the last entry taking its place), or append a fresh count of one.
pub open spec fn count_step(l: Seq<(Seq<u8>, nat)>, x: Seq<u8>) -> Seq<(Seq<u8>, nat)> {
    let k = first_val_idx(l, x);
    if k == -1 {
        l.push((x, 1))
    } else {
        l.update(k, l.last()).drop_last().push((x, l[k].1 + 1))
    }
}

/// The distinct blocks with their occurrence counts, in the order the
/// counting scan leaves them.
pub open spec fn count_blocks(blks: Seq<Seq<u8>>) -> Seq<(Seq<u8>, nat)>
    decreases blks.len(),
{
    if blks.len() == 0 {
        Seq::empty()
    } else {
        count_step(count_blocks(blks.drop_last()), blks.last())
    }
}

// ---------------------------------------------------------------------------
// Tree construction, mirrored from the builder loop.
// ---------------------------------------------------------------------------

/// The frequencies of a weighted tree list.
pub open spec fn wfreqs(l: Seq<(HTree, nat)>) -> Seq<nat> {
    l.map_values(|p: (HTree, nat)| p.1)
}

/// Removing index `k` the way `swap_remove` does: the last element takes its
/// place and the list shrinks by one.
pub open spec fn swap_rm(l: Seq<(HTree, nat)>, k: int) -> Seq<(HTree, nat)> {
    l.update(k, l.last()).drop_last()
}

/// One merge: take out the two lowest-frequency trees (first-found on ties),
/// push an internal node joining them, its frequency their sum.
pub open spec fn merge_step(l: Seq<(HTree, nat)>) -> Seq<(HTree, nat)> {
    let i = crate::tree::min_idx(wfreqs(l));
    let first = l[i];
    let l1 = swap_rm(l, i);
    let j = crate::tree::min_idx(wfreqs(l1));
    let second = l1[j];
    let l2 = swap_rm(l1, j);
    l2.push((HTree::Fork { esq: Box::new(first.0), dir: Box::new(second.0) }, first.1 + second.1))
}

pub proof fn lemma_merge_step_len(l: Seq<(HTree, nat)>)
    requires
        l.len() >= 2,
    ensures
        merge_step(l).len() == l.len() - 1,
{
    assert(wfreqs(l).len() == l.len());
    crate::tree::lemma_min_idx_range(wfreqs(l));
    let i = crate::tree::min_idx(wfreqs(l));
    let l1 = swap_rm(l, i);
    assert(l1.len() == l.len() - 1);
    assert(wfreqs(l1).len() == l1.len());
    crate::tree::lemma_min_idx_range(wfreqs(l1));
    let j = crate::tree::min_idx(wfreqs(l1));
    let l2 = swap_rm(l1, j);
    assert(l2.len() == l.len() - 2);
}

/// Merges until one tree remains.
pub open spec fn build_tree(l: Seq<(HTree, nat)>) -> HTree
    decreases l.len(),
    via build_tree_decreases
{
    if l.len() == 0 {
        HTree::Leaf { val: Seq::empty() }
    } else if l.len() == 1 {
        l[0].0
    } else {
        build_tree(merge_step(l))
    }
}

#[via_fn]
proof fn build_tree_decreases(l: Seq<(HTree, nat)>) {
    if l.len() >= 2 {
        lemma_merge_step_len(l);
    }
}

/// The counted blocks as weighted leaves.
pub open spec fn leaves_of(freqs: Seq<(Seq<u8>, nat)>) -> Seq<(HTree, nat)> {
    freqs.map_values(|p: (Seq<u8>, nat)| (HTree::Leaf { val: p.0 }, p.1))
}

/// The tree a given input produces.  An empty input has no blocks to count;
/// its container still carries a placeholder leaf holding the zero block, so
/// the grammar below stays uniform.
pub open spec fn tree_of(s: Seq<u8>, b: nat) -> HTree {
    let blks = blocks_of(padded(s, b), b);
    if blks.len() == 0 {
        HTree::Leaf { val: zero_bytes(b) }
    } else {
        build_tree(leaves_of(count_blocks(blks)))
    }
}

// ---------------------------------------------------------------------------
// The container grammar.
// ---------------------------------------------------------------------------

/// A leaf is the bit `1` then the block's bytes; an internal node is the bit
/// `0` then its left subtree, then its right subtree.
pub open spec fn ser_tree(t: HTree) -> Seq<bool>
    decreases t,
{
    match t {
        HTree::Leaf { val } => seq![true] + bytes_bits(val),
        HTree::Fork { esq, dir } => seq![false] + ser_tree(*esq) + ser_tree(*dir),
    }
}

/// Reads the tree grammar starting at bit `i`: the reconstructed tree and the
/// cursor after it, or `None` when the bits run out.
pub open spec fn deser_tree(bits: Seq<bool>, i: nat, b: nat) -> Option<(HTree, nat)>
    decreases bits.len() - i,
{
    if i >= bits.len() {
        None
    } else if bits[i as int] {
        if i + 1 + 8 * b <= bits.len() {
            Some((HTree::Leaf { val: bytes_from_bits(bits, i + 1, b) }, i + 1 + 8 * b))
        } else {
            None
        }
    } else {
        match deser_tree(bits, i + 1, b) {
            None => None,
            Some((esq, j)) => if i + 1 < j <= bits.len() {
                match deser_tree(bits, j, b) {
                    None => None,
                    Some((dir, k)) => Some(
                        (HTree::Fork { esq: Box::new(esq), dir: Box::new(dir) }, k),
                    ),
                }
            } else {
                None
            },
        }
    }
}

/// Walks the tree from the root, one bit per step (`true` = right), until a
/// leaf is reached: the leaf's value and the cursor after the code.
pub open spec fn walk_tree(t: HTree, bits: Seq<bool>, i: nat) -> Option<(Seq<u8>, nat)>
    decreases t,
{
    match t {
        HTree::Leaf { val } => Some((val, i)),
        HTree::Fork { esq, dir } => if i < bits.len() {
            if bits[i as int] {
                walk_tree(*dir, bits, i + 1)
            } else {
                walk_tree(*esq, bits, i + 1)
            }
        } else {
            None
        },
    }
}

/// Decodes `n` blocks, walking the tree once per block.
pub open spec fn decode_body(t: HTree, bits: Seq<bool>, i: nat, n: nat) -> Option<(Seq<u8>, nat)>
    decreases n,
{
    if n == 0 {
        Some((Seq::empty(), i))
    } else {
        match walk_tree(t, bits, i) {
            None => None,
            Some((v, j)) => match decode_body(t, bits, j, (n - 1) as nat) {
                None => None,
                Some((rest, k)) => Some((v + rest, k)),
            },
        }
    }
}

/// The body: every block's code from the table, in block order.
pub open spec fn body_bits_of(tab: Seq<(Seq<u8>, Seq<bool>)>, blks: Seq<Seq<u8>>) -> Seq<bool>
    decreases blks.len(),
{
    if blks.len() == 0 {
        Seq::empty()
    } else {
        entry_for(tab, blks[0]) + body_bits_of(tab, blks.drop_first())
    }
}

/// The whole container, as bits: tree, then the block count in 32 bits
/// (most-significant first), then the body.
pub open spec fn container_bits(s: Seq<u8>, b: nat) -> Seq<bool> {
    let blks = blocks_of(padded(s, b), b);
    let t = tree_of(s, b);
    ser_tree(t) + to_bits(blks.len(), 32) + body_bits_of(code_table(t), blks)
}

/// What `encode` returns: the container bits packed into bytes.
pub open spec fn spec_encode(s: Seq<u8>, b: nat) -> Seq<u8> {
    pack(container_bits(s, b))
}

/// What `decode` returns: rebuild the tree, read the count, walk the body;
/// `None` exactly when some read would pass the end of the bits.
pub open spec fn spec_decode(bytes: Seq<u8>, b: nat) -> Option<Seq<u8>> {
    let bits = bytes_bits(bytes);
    match deser_tree(bits, 0, b) {
        None => None,
        Some((t, i)) => if i + 32 <= bits.len() {
            let n = from_bits(bits.subrange(i as int, i as int + 32));
            match decode_body(t, bits, i + 32, n) {
                None => None,
                Some((out, _)) => Some(out),
            }
        } else {
            None
        },
    }
}

// ---------------------------------------------------------------------------
// The executable tree codec.
// ---------------------------------------------------------------------------

/// Appends the serialization of the subtree under `tree`.
pub(crate) fn push_tree_into_bitvec(tree: &Node, bitvec: &mut BitBuf)
    requires
        shaped(*tree),
        bv_bits(*old(bitvec)).len() + ser_tree(tree.tree()).len() <= BIT_CAPACITY,
    ensures
        bv_bits(*final(bitvec)) == bv_bits(*old(bitvec)) + ser_tree(tree.tree()),
    decreases *tree,
{
    let ghost orig = bv_bits(*bitvec);
    match &tree.valor {
        Some(valor) => {
            proof {
                assert(tree.tree() == HTree::Leaf { val: valor@ });
                crate::bits::lemma_bytes_bits_len(valor@);
                assert(ser_tree(tree.tree()).len() == 1 + 8 * valor@.len()) by {
                    assert(ser_tree(tree.tree()) == seq![true] + bytes_bits(valor@));
                }
            }
            bv_push(bitvec, true);
            proof {
                assert(bv_bits(*bitvec) =~= orig + seq![true]);
            }
            push_byte_array_into_bitvec(valor.as_slice(), bitvec);
            proof {
                assert(bv_bits(*bitvec) =~= orig + ser_tree(tree.tree()));
            }
        },
        None => {
            match (&tree.esq, &tree.dir) {
                (Some(esq), Some(dir)) => {
                    let ghost te = esq.tree();
                    let ghost td = dir.tree();
                    proof {
                        assert(tree.tree() == HTree::Fork {
                            esq: Box::new(te),
                            dir: Box::new(td),
                        });
                        assert(ser_tree(tree.tree()) == seq![false] + ser_tree(te) + ser_tree(td));
                        assert(ser_tree(tree.tree()).len() == 1 + ser_tree(te).len() + ser_tree(
                            td,
                        ).len());
                    }
                    bv_push(bitvec, false);
                    proof {
                        assert(bv_bits(*bitvec) =~= orig + seq![false]);
                    }
                    push_tree_into_bitvec(esq, bitvec);
                    push_tree_into_bitvec(dir, bitvec);
                    proof {
                        assert(bv_bits(*bitvec) =~= orig + ser_tree(tree.tree()));
                    }
                },
                _ => {
                    proof {
                        assert(false);
                    }
                },
            }
        },
    }
}

use crate::bits::push_byte_array_into_bitvec;

/// Rebuilds a tree from the bit stream at the cursor, leaf values read as `b`
/// bytes each; a malformed stream is reported, never read out of range.
pub(crate) fn get_tree_from_bitvec(bitvec: &BitBuf, inicio: &mut usize, b: usize) -> (r: Result<
    Node,
    DecodeError,
>)
    ensures
        match r {
            Ok(node) => {
                &&& node.wf(b as nat)
                &&& deser_tree(bv_bits(*bitvec), *old(inicio) as nat, b as nat) == Some(
                    (node.tree(), *final(inicio) as nat),
                )
                &&& *old(inicio) < *final(inicio) <= bv_bits(*bitvec).len()
            },
            Err(e) => deser_tree(bv_bits(*bitvec), *old(inicio) as nat, b as nat) is None && e
                == DecodeError::MalformedContainer,
        },
    decreases bv_bits(*bitvec).len() - *inicio,
{
    let ghost bits = bv_bits(*bitvec);
    let len = bv_len(bitvec);
    if *inicio >= len {
        return Err(DecodeError::MalformedContainer);
    }
    let marker = crate::bits::bv_get(bitvec, *inicio);
    if marker {
        // leaf: the cursor must have 8 * b bits of value left after the marker
        let after = *inicio + 1;
        let avail = len - after;
        if avail / 8 < b {
            proof {
                assert(avail < 8 * b) by {
                    if avail >= 8 * b {
                        assert(avail / 8 >= (8 * b) / 8 >= b) by {
                            vstd::arithmetic::div_mod::lemma_div_is_ordered(
                                8 * b as int,
                                avail as int,
                                8,
                            );
                            vstd::arithmetic::div_mod::lemma_div_multiples_vanish(b as int, 8);
                        }
                    }
                }
            }
            return Err(DecodeError::MalformedContainer);
        }
        proof {
            assert(avail >= 8 * b) by {
                assert(avail / 8 >= b);
                vstd::arithmetic::div_mod::lemma_fundamental_div_mod(avail as int, 8);
                vstd::arithmetic::mul::lemma_mul_inequality(b as int, avail as int / 8, 8);
            }
        }
        *inicio = after;
        let valor = crate::bits::get_bytes_from_bitvec(bitvec, inicio, b);
        let node = Node::new(Some(valor));
        proof {
            assert(node.tree() == HTree::Leaf { val: bytes_from_bits(bits, after as nat, b as nat) });
        }
        Ok(node)
    } else {
        *inicio = *inicio + 1;
        let ghost i0 = (*old(inicio)) as nat;
        let esq = match get_tree_from_bitvec(bitvec, inicio, b) {
            Ok(node) => node,
            Err(e) => {
                return Err(e);
            },
        };
        let dir = match get_tree_from_bitvec(bitvec, inicio, b) {
            Ok(node) => node,
            Err(e) => {
                return Err(e);
            },
        };
        let mut node = Node::new(None);
        node.esq = Some(Box::new(esq));
        node.dir = Some(Box::new(dir));
        Ok(node)
    }
}

/// Walks the tree for one block: consume one bit per internal node until a
/// leaf is reached, and hand back its block value.
pub(crate) fn walk_block<'a>(tree: &'a Node, bitvec: &BitBuf, inicio: &mut usize) -> (r: Result<
    &'a Vec<u8>,
    DecodeError,
>)
    requires
        shaped(*tree),
        *old(inicio) <= bv_bits(*bitvec).len(),
    ensures
        match r {
            Ok(v) => {
                &&& walk_tree(tree.tree(), bv_bits(*bitvec), *old(inicio) as nat) == Some(
                    (v@, *final(inicio) as nat),
                )
                &&& *old(inicio) <= *final(inicio) <= bv_bits(*bitvec).len()
            },
            Err(e) => walk_tree(tree.tree(), bv_bits(*bitvec), *old(inicio) as nat) is None && e
                == DecodeError::MalformedContainer,
        },
    decreases *tree,
{
    match &tree.valor {
        Some(valor) => {
            proof {
                assert(tree.tree() == HTree::Leaf { val: valor@ });
            }
            Ok(valor)
        },
        None => {
            let len = bv_len(bitvec);
            if *inicio >= len {
                proof {
                    assert(tree.tree() is Fork);
                }
                return Err(DecodeError::MalformedContainer);
            }
            let bit = crate::bits::bv_get(bitvec, *inicio);
            *inicio = *inicio + 1;
            match (&tree.esq, &tree.dir) {
                (Some(esq), Some(dir)) => {
                    proof {
                        assert(tree.tree() == HTree::Fork {
                            esq: Box::new(esq.tree()),
                            dir: Box::new(dir.tree()),
                        });
                    }
                    if bit {
                        walk_block(dir, bitvec, inicio)
                    } else {
                        walk_block(esq, bitvec, inicio)
                    }
                },
                _ => {
                    proof {
                        assert(false);
                    }
                    Err(DecodeError::MalformedContainer)
                },
            }
        },
    }
}

/// Decodes a container produced by `encode` with the same block size `b`:
/// rebuild the tree, read the 32-bit block count, then walk the tree once per
/// block.  A truncated or corrupt container is reported as malformed; no read
/// ever goes past the available bits.
pub fn decode(input: &[u8], b: usize) -> (r: Result<Vec<u8>, DecodeError>)
    requires
        1 <= b,
        8 * input@.len() <= BIT_CAPACITY,
    ensures
        match r {
            Ok(v) => spec_decode(input@, b as nat) == Some(v@),
            Err(e) => spec_decode(input@, b as nat) is None && e
                == DecodeError::MalformedContainer,
        },
{
    let ghost bits = bytes_bits(input@);
    let mut bitvec = bv_new();
    push_byte_array_into_bitvec(input, &mut bitvec);
    proof {
        assert(bv_bits(bitvec) =~= bits) by {
            assert(Seq::<bool>::empty() + bytes_bits(input@) =~= bytes_bits(input@));
        }
    }
    let mut indice: usize = 0;
    let tree = match get_tree_from_bitvec(&bitvec, &mut indice, b) {
        Ok(node) => node,
        Err(e) => {
            return Err(e);
        },
    };
    let ghost t = tree.tree();
    let ghost after_tree = indice as nat;
    let len = bv_len(&bitvec);
    if len < 32 || indice > len - 32 {
        proof {
            assert(after_tree + 32 > bits.len());
        }
        return Err(DecodeError::MalformedContainer);
    }
    let blocos32 = crate::bits::get_u32_from_bitvec(&bitvec, &mut indice, 32);
    let blocos = blocos32 as usize;
    let ghost n = from_bits(bits.subrange(after_tree as int, after_tree as int + 32));
    proof {
        assert(blocos == n);
        crate::codes::lemma_wf_shaped(tree, b as nat);
    }
    let mut decoded: Vec<u8> = Vec::new();
    let mut j: usize = 0;
    while j < blocos
        invariant
            j <= blocos,
            shaped(tree),
            t == tree.tree(),
            bits == bv_bits(bitvec),
            indice <= bits.len(),
            spec_decode(input@, b as nat) == (match decode_body(
                t,
                bits,
                indice as nat,
                (blocos - j) as nat,
            ) {
                None => None::<Seq<u8>>,
                Some((rest, k)) => Some(decoded@ + rest),
            }),
        decreases blocos - j,
    {
        let valor = match walk_block(&tree, &bitvec, &mut indice) {
            Ok(v) => v,
            Err(e) => {
                return Err(e);
            },
        };
        let ghost prev = decoded@;
        let mut c: usize = 0;
        while c < valor.len()
            invariant
                c <= valor@.len(),
                decoded@ == prev + valor@.take(c as int),
            decreases valor@.len() - c,
        {
            let byte = valor[c];
            decoded.push(byte);
            c = c + 1;
            proof {
                assert(decoded@ =~= prev + valor@.take(c as int));
            }
        }
        j = j + 1;
        proof {
            assert(valor@.take(valor@.len() as int) =~= valor@);
            assert(decoded@ == prev + valor@);
            assert forall|rest: Seq<u8>| true implies prev + (valor@ + rest) == decoded@
                + rest by {
                assert(prev + (valor@ + rest) =~= (prev + valor@) + rest);
            }
        }
    }
    proof {
        assert(decode_body(t, bits, indice as nat, 0) == Some((Seq::<u8>::empty(), indice as nat)));
        assert(decoded@ + Seq::<u8>::empty() =~= decoded@);
    }
    Ok(decoded)
}

// ---------------------------------------------------------------------------
// Facts about counting and building, used by `encode` and by the laws below.
// ---------------------------------------------------------------------------

/// The view of a node list during counting: each leaf's value and frequency.
pub open spec fn count_pairs(l: Seq<Node>) -> Seq<(Seq<u8>, nat)> {
    l.map_values(
        |n: Node|
            (
                match n.valor {
                    Some(v) => v@,
                    None => Seq::<u8>::empty(),
                },
                n.freq as nat,
            ),
    )
}

/// The view of a node list during building: each node's tree and frequency.
pub open spec fn tree_pairs(l: Seq<Node>) -> Seq<(HTree, nat)> {
    l.map_values(|n: Node| (n.tree(), n.freq as nat))
}

/// The total frequency of a weighted tree list.
pub open spec fn freq_sum(l: Seq<(HTree, nat)>) -> nat
    decreases l.len(),
{
    if l.len() == 0 {
        0
    } else {
        freq_sum(l.drop_last()) + l.last().1
    }
}

/// The total leaf count of a weighted tree list.
pub open spec fn nleaves_sum(l: Seq<(HTree, nat)>) -> nat
    decreases l.len(),
{
    if l.len() == 0 {
        0
    } else {
        nleaves_sum(l.drop_last()) + nleaves(l.last().0)
    }
}

/// Whether some tree in the list holds the value in a leaf.
pub open spec fn list_contains(l: Seq<(HTree, nat)>, v: Seq<u8>) -> bool {
    exists|i: int| 0 <= i < l.len() && contains_val(l[i].0, v)
}

/// No two subtrees of the tree share a leaf value.
pub open spec fn tree_distinct(t: HTree) -> bool
    decreases t,
{
    match t {
        HTree::Leaf { .. } => true,
        HTree::Fork { esq, dir } => tree_distinct(*esq) && tree_distinct(*dir) && forall|
            v: Seq<u8>,
        | !(#[trigger] contains_val(*esq, v) && #[trigger] contains_val(*dir, v)),
    }
}

/// No two trees of the list share a leaf value.
pub open spec fn list_disjoint(l: Seq<(HTree, nat)>) -> bool {
    forall|i: int, j: int, v: Seq<u8>|
        0 <= i < l.len() && 0 <= j < l.len() && i != j ==> !(#[trigger] contains_val(l[i].0, v)
            && #[trigger] contains_val(l[j].0, v))
}

/// Every tree of the list is well formed for block size `b`.
pub open spec fn all_wf(l: Seq<(HTree, nat)>, b: nat) -> bool {
    forall|i: int| 0 <= i < l.len() ==> wf_tree(#[trigger] l[i].0, b)
}

/// Every tree of the list has pairwise distinct leaf values.
pub open spec fn all_distinct(l: Seq<(HTree, nat)>) -> bool {
    forall|i: int| 0 <= i < l.len() ==> tree_distinct(#[trigger] l[i].0)
}

proof fn lemma_freq_sum_update(l: Seq<(HTree, nat)>, k: int, x: (HTree, nat))
    requires
        0 <= k < l.len(),
    ensures
        freq_sum(l.update(k, x)) + l[k].1 == freq_sum(l) + x.1,
        nleaves_sum(l.update(k, x)) + nleaves(l[k].0) == nleaves_sum(l) + nleaves(x.0),
    decreases l.len(),
{
    if k == l.len() - 1 {
        assert(l.update(k, x).drop_last() =~= l.drop_last());
    } else {
        assert(l.update(k, x).drop_last() =~= l.drop_last().update(k, x));
        lemma_freq_sum_update(l.drop_last(), k, x);
        assert(l.drop_last()[k] == l[k]);
    }
}

proof fn lemma_freq_sum_swap_rm(l: Seq<(HTree, nat)>, k: int)
    requires
        0 <= k < l.len(),
    ensures
        freq_sum(swap_rm(l, k)) + l[k].1 == freq_sum(l),
        nleaves_sum(swap_rm(l, k)) + nleaves(l[k].0) == nleaves_sum(l),
{
    lemma_freq_sum_update(l, k, l.last());
    let u = l.update(k, l.last());
    assert(u.last() == l.last());
    assert(freq_sum(u) == freq_sum(u.drop_last()) + l.last().1);
    assert(nleaves_sum(u) == nleaves_sum(u.drop_last()) + nleaves(l.last().0));
}

/// Every frequency in the list is bounded by the total.
proof fn lemma_freq_le_sum(l: Seq<(HTree, nat)>, k: int)
    requires
        0 <= k < l.len(),
    ensures
        l[k].1 <= freq_sum(l),
    decreases l.len(),
{
    if k == l.len() - 1 {
    } else {
        lemma_freq_le_sum(l.drop_last(), k);
    }
}

/// What one merge does to the list: the two picked trees come from distinct
/// positions of the old list, every other tree is kept, and the totals and
/// the leaf values of the whole list stay what they were.
pub proof fn lemma_merge_preserves(l: Seq<(HTree, nat)>, b: nat)
    requires
        l.len() >= 2,
        all_wf(l, b),
        all_distinct(l),
        list_disjoint(l),
    ensures
        all_wf(merge_step(l), b),
        all_distinct(merge_step(l)),
        list_disjoint(merge_step(l)),
        forall|v: Seq<u8>| #[trigger]
            list_contains(merge_step(l), v) <==> list_contains(l, v),
        freq_sum(merge_step(l)) == freq_sum(l),
        nleaves_sum(merge_step(l)) == nleaves_sum(l),
{
    let n = l.len() as int;
    assert(wfreqs(l).len() == n);
    crate::tree::lemma_min_idx_range(wfreqs(l));
    let i = crate::tree::min_idx(wfreqs(l));
    let first = l[i];
    let l1 = swap_rm(l, i);
    assert(wfreqs(l1).len() == n - 1);
    crate::tree::lemma_min_idx_range(wfreqs(l1));
    let j = crate::tree::min_idx(wfreqs(l1));
    let second = l1[j];
    let l2 = swap_rm(l1, j);
    let fork = (
        HTree::Fork { esq: Box::new(first.0), dir: Box::new(second.0) },
        first.1 + second.1,
    );
    let m = l2.push(fork);
    assert(m == merge_step(l));

    // where every element of l1 and l2 comes from in l
    assert(forall|x: int|
        0 <= x < n - 1 ==> #[trigger] l1[x] == (if x == i {
            l.last()
        } else {
            l[x]
        }));
    let i2 = if j == i {
        n - 1
    } else {
        j
    };
    assert(second == l[i2]);
    assert(i2 != i);
    let orig = |x: int|
        {
            let y = if x == j {
                n - 2
            } else {
                x
            };
            let z = if y == i {
                n - 1
            } else {
                y
            };
            z
        };
    assert forall|x: int| 0 <= x < n - 2 implies #[trigger] l2[x] == l[orig(x)] && 0 <= orig(x) < n
        && orig(x) != i && orig(x) != i2 by {
        assert(l2[x] == (if x == j {
            l1.last()
        } else {
            l1[x]
        }));
        assert(l1.last() == l1[n - 2]);
    }

    // totals
    lemma_freq_sum_swap_rm(l, i);
    lemma_freq_sum_swap_rm(l1, j);
    assert(m.drop_last() =~= l2);
    assert(m.last() == fork);
    assert(freq_sum(m) == freq_sum(l2) + fork.1);
    assert(nleaves_sum(m) == nleaves_sum(l2) + nleaves(fork.0));

    // well-formedness and distinctness of each surviving tree
    assert forall|x: int| 0 <= x < m.len() implies wf_tree(#[trigger] m[x].0, b) && tree_distinct(
        m[x].0,
    ) by {
        if x < n - 2 {
            assert(m[x] == l[orig(x)]);
        } else {
            assert(m[x] == fork);
            assert(wf_tree(first.0, b) && wf_tree(second.0, b));
            assert(tree_distinct(first.0) && tree_distinct(second.0));
            assert forall|v: Seq<u8>|
                !(#[trigger] contains_val(first.0, v) && #[trigger] contains_val(
                    second.0,
                    v,
                )) by {
                assert(first == l[i] && second == l[i2] && i != i2);
            }
        }
    }

    // pairwise disjointness
    assert forall|x: int, y: int, v: Seq<u8>|
        0 <= x < m.len() && 0 <= y < m.len() && x != y implies !(#[trigger] contains_val(
        m[x].0,
        v,
    ) && #[trigger] contains_val(m[y].0, v)) by {
        if contains_val(m[x].0, v) && contains_val(m[y].0, v) {
            if x < n - 2 && y < n - 2 {
                assert(m[x] == l[orig(x)] && m[y] == l[orig(y)]);
                assert(orig(x) != orig(y));
                assert(contains_val(l[orig(x)].0, v) && contains_val(l[orig(y)].0, v));
                assert(false);
            } else if x < n - 2 {
                assert(m[x] == l[orig(x)] && m[y] == fork);
                assert(contains_val(l[orig(x)].0, v));
                assert(contains_val(first.0, v) || contains_val(second.0, v));
                if contains_val(first.0, v) {
                    assert(contains_val(l[i].0, v) && contains_val(l[orig(x)].0, v));
                } else {
                    assert(contains_val(l[i2].0, v) && contains_val(l[orig(x)].0, v));
                }
                assert(false);
            } else if y < n - 2 {
                assert(m[y] == l[orig(y)] && m[x] == fork);
                assert(contains_val(l[orig(y)].0, v));
                assert(contains_val(first.0, v) || contains_val(second.0, v));
                if contains_val(first.0, v) {
                    assert(contains_val(l[i].0, v) && contains_val(l[orig(y)].0, v));
                } else {
                    assert(contains_val(l[i2].0, v) && contains_val(l[orig(y)].0, v));
                }
                assert(false);
            }
        }
    }

    // the set of leaf values is unchanged
    assert forall|v: Seq<u8>| #[trigger]
        list_contains(m, v) <==> list_contains(l, v) by {
        if list_contains(m, v) {
            let x = choose|x: int| 0 <= x < m.len() && contains_val(m[x].0, v);
            if x < n - 2 {
                assert(contains_val(l[orig(x)].0, v));
            } else {
                assert(contains_val(l[i].0, v) || contains_val(l[i2].0, v));
            }
            assert(list_contains(l, v));
        }
        if list_contains(l, v) {
            let y = choose|y: int| 0 <= y < n && contains_val(l[y].0, v);
            if y == i || y == i2 {
                assert(contains_val(m[n - 2].0, v));
                assert(list_contains(m, v));
            } else {
                let x: int = if y < n - 2 {
                    y
                } else if y == n - 2 {
                    j
                } else if i == n - 2 {
                    j
                } else {
                    i
                };
                assert(0 <= x < n - 2);
                assert(orig(x) == y);
                assert(contains_val(m[x].0, v));
                assert(list_contains(m, v));
            }
        }
    }
}

/// Building keeps well-formedness, distinctness, the leaf count and the leaf
/// values of the list it consumes.
pub proof fn lemma_build_props(l: Seq<(HTree, nat)>, b: nat)
    requires
        l.len() >= 1,
        all_wf(l, b),
        all_distinct(l),
        list_disjoint(l),
    ensures
        wf_tree(build_tree(l), b),
        tree_distinct(build_tree(l)),
        nleaves(build_tree(l)) == nleaves_sum(l),
        forall|v: Seq<u8>| #[trigger] contains_val(build_tree(l), v) <==> list_contains(l, v),
    decreases l.len(),
{
    if l.len() == 1 {
        assert(build_tree(l) == l[0].0);
        assert(l.drop_last() =~= Seq::<(HTree, nat)>::empty());
        assert(l.last() == l[0]);
        assert(nleaves_sum(Seq::<(HTree, nat)>::empty()) == 0);
        assert(nleaves_sum(l) == nleaves(l[0].0));
        assert forall|v: Seq<u8>| #[trigger]
            contains_val(build_tree(l), v) <==> list_contains(l, v) by {
            if contains_val(l[0].0, v) {
                assert(list_contains(l, v));
            }
        }
    } else {
        lemma_merge_preserves(l, b);
        lemma_merge_step_len(l);
        lemma_build_props(merge_step(l), b);
        assert(build_tree(l) == build_tree(merge_step(l)));
    }
}

pub proof fn lemma_first_val_props(l: Seq<(Seq<u8>, nat)>, x: Seq<u8>)
    ensures
        first_val_idx(l, x) == -1 ==> forall|i: int| 0 <= i < l.len() ==> (#[trigger] l[i]).0 != x,
        first_val_idx(l, x) != -1 ==> 0 <= first_val_idx(l, x) < l.len() && l[first_val_idx(
            l,
            x,
        )].0 == x,
    decreases l.len(),
{
    if l.len() > 0 && l[0].0 != x {
        lemma_first_val_props(l.drop_first(), x);
        assert(forall|i: int| 1 <= i < l.len() ==> #[trigger] l[i] == l.drop_first()[i - 1]);
    }
}

/// Every leaf counts one.
pub proof fn lemma_leaves_sum(freqs: Seq<(Seq<u8>, nat)>)
    ensures
        nleaves_sum(leaves_of(freqs)) == freqs.len(),
    decreases freqs.len(),
{
    if freqs.len() > 0 {
        assert(leaves_of(freqs).drop_last() =~= leaves_of(freqs.drop_last()));
        lemma_leaves_sum(freqs.drop_last());
    }
}

/// Whether some entry of the count list holds the value.
pub open spec fn counted_has(cl: Seq<(Seq<u8>, nat)>, v: Seq<u8>) -> bool {
    exists|i: int| 0 <= i < cl.len() && (#[trigger] cl[i]).0 == v
}

/// Whether the value occurs among the blocks.
pub open spec fn blocks_have(blks: Seq<Seq<u8>>, v: Seq<u8>) -> bool {
    exists|j: int| 0 <= j < blks.len() && #[trigger] blks[j] == v
}

/// What counting guarantees: distinct values of the right length, exactly the
/// values that occur among the blocks, total frequency the number of blocks.
pub proof fn lemma_count_blocks_props(blks: Seq<Seq<u8>>, b: nat)
    requires
        forall|i: int| 0 <= i < blks.len() ==> (#[trigger] blks[i]).len() == b,
    ensures
        ({
            let cl = count_blocks(blks);
            &&& forall|i: int, j: int|
                0 <= i < cl.len() && 0 <= j < cl.len() && i != j ==> (#[trigger] cl[i]).0 != (
                #[trigger] cl[j]).0
            &&& forall|i: int| 0 <= i < cl.len() ==> (#[trigger] cl[i]).0.len() == b
            &&& forall|v: Seq<u8>| #[trigger] counted_has(cl, v) <==> blocks_have(blks, v)
            &&& freq_sum(leaves_of(cl)) == blks.len()
            &&& cl.len() <= blks.len()
        }),
    decreases blks.len(),
{
    if blks.len() > 0 {
        let rest = blks.drop_last();
        assert(forall|i: int| 0 <= i < rest.len() ==> #[trigger] rest[i] == blks[i]);
        lemma_count_blocks_props(rest, b);
        let prev = count_blocks(rest);
        let x = blks.last();
        let cl = count_blocks(blks);
        assert(cl == count_step(prev, x));
        lemma_first_val_props(prev, x);
        let k = first_val_idx(prev, x);
        if k == -1 {
            assert(cl == prev.push((x, 1)));
            assert(cl.drop_last() =~= prev);
            assert(leaves_of(cl).drop_last() =~= leaves_of(prev));
            assert(freq_sum(leaves_of(cl)) == freq_sum(leaves_of(prev)) + 1);
            assert forall|v: Seq<u8>| #[trigger]
                counted_has(cl, v) <==> blocks_have(blks, v) by {
                if counted_has(cl, v) {
                    let i = choose|i: int| 0 <= i < cl.len() && (#[trigger] cl[i]).0 == v;
                    if i < prev.len() {
                        assert(counted_has(prev, v));
                        assert(blocks_have(rest, v));
                        let j = choose|j: int| 0 <= j < rest.len() && #[trigger] rest[j] == v;
                        assert(blks[j] == v);
                    } else {
                        assert(blks[blks.len() - 1] == v);
                    }
                    assert(blocks_have(blks, v));
                }
                if blocks_have(blks, v) {
                    let j = choose|j: int| 0 <= j < blks.len() && #[trigger] blks[j] == v;
                    if j < blks.len() - 1 {
                        assert(rest[j] == v);
                        assert(blocks_have(rest, v));
                        assert(counted_has(prev, v));
                        let i = choose|i: int| 0 <= i < prev.len() && (#[trigger] prev[i]).0 == v;
                        assert(cl[i].0 == v);
                    } else {
                        assert(cl[cl.len() - 1].0 == v);
                    }
                    assert(counted_has(cl, v));
                }
            }
        } else {
            let f = prev[k].1;
            let mid = prev.update(k, prev.last()).drop_last();
            assert(cl == mid.push((x, f + 1)));
            let pn = prev.len() as int;
            assert(forall|y: int|
                0 <= y < pn - 1 ==> #[trigger] mid[y] == (if y == k {
                    prev.last()
                } else {
                    prev[y]
                }));
            let sorig = |y: int|
                if y == k {
                    pn - 1
                } else {
                    y
                };
            assert(forall|y: int| 0 <= y < pn - 1 ==> #[trigger] mid[y] == prev[sorig(y)]);
            // distinctness
            assert forall|i: int, j: int|
                0 <= i < cl.len() && 0 <= j < cl.len() && i != j implies (#[trigger] cl[i]).0 != (
            #[trigger] cl[j]).0 by {
                if i < pn - 1 && j < pn - 1 {
                    assert(cl[i] == prev[sorig(i)] && cl[j] == prev[sorig(j)]);
                    assert(sorig(i) != sorig(j));
                } else if i < pn - 1 {
                    assert(cl[i] == prev[sorig(i)] && cl[j].0 == x);
                    assert(sorig(i) != k && prev[k].0 == x);
                } else if j < pn - 1 {
                    assert(cl[j] == prev[sorig(j)] && cl[i].0 == x);
                    assert(sorig(j) != k && prev[k].0 == x);
                }
            }
            // value lengths
            assert forall|i: int| 0 <= i < cl.len() implies (#[trigger] cl[i]).0.len() == b by {
                if i < pn - 1 {
                    assert(cl[i] == prev[sorig(i)]);
                } else {
                    assert(cl[i].0 == x && x.len() == b);
                }
            }
            // total frequency
            assert(cl.drop_last() =~= mid);
            assert(leaves_of(cl).drop_last() =~= leaves_of(mid));
            assert(leaves_of(mid) =~= swap_rm(leaves_of(prev), k));
            lemma_freq_sum_swap_rm(leaves_of(prev), k);
            assert(leaves_of(prev)[k].1 == f);
            assert(freq_sum(leaves_of(cl)) == freq_sum(leaves_of(prev)) + 1);
            // membership
            assert forall|v: Seq<u8>| #[trigger]
                counted_has(cl, v) <==> blocks_have(blks, v) by {
                if counted_has(cl, v) {
                    let i = choose|i: int| 0 <= i < cl.len() && (#[trigger] cl[i]).0 == v;
                    if i < pn - 1 {
                        assert(prev[sorig(i)].0 == v);
                        assert(counted_has(prev, v));
                        assert(blocks_have(rest, v));
                        let j = choose|j: int| 0 <= j < rest.len() && #[trigger] rest[j] == v;
                        assert(blks[j] == v);
                    } else {
                        assert(v == x);
                        assert(blks[blks.len() - 1] == v);
                    }
                    assert(blocks_have(blks, v));
                }
                if blocks_have(blks, v) {
                    let j = choose|j: int| 0 <= j < blks.len() && #[trigger] blks[j] == v;
                    if v == x {
                        assert(cl[cl.len() - 1].0 == v);
                    } else {
                        assert(j < blks.len() - 1);
                        assert(rest[j] == v);
                        assert(blocks_have(rest, v));
                        assert(counted_has(prev, v));
                        let i = choose|i: int| 0 <= i < prev.len() && (#[trigger] prev[i]).0 == v;
                        assert(i != k);
                        let y: int = if i == pn - 1 {
                            k
                        } else {
                            i
                        };
                        assert(cl[y].0 == v);
                    }
                    assert(counted_has(cl, v));
                }
            }
        }
    }
}

/// A tree's height is below its leaf count.
pub proof fn lemma_height_nleaves(t: HTree)
    ensures
        height(t) + 1 <= nleaves(t),
    decreases t,
{
    match t {
        HTree::Leaf { .. } => {
        },
        HTree::Fork { esq, dir } => {
            lemma_height_nleaves(*esq);
            lemma_height_nleaves(*dir);
        },
    }
}

/// The exact bit length of a serialized tree.
pub proof fn lemma_ser_tree_len(t: HTree, b: nat)
    requires
        wf_tree(t, b),
    ensures
        ser_tree(t).len() == nleaves(t) * (2 + 8 * b) - 1,
    decreases t,
{
    match t {
        HTree::Leaf { val } => {
            crate::bits::lemma_bytes_bits_len(val);
            assert(nleaves(t) == 1);
            assert(ser_tree(t).len() == 1 + 8 * b);
            vstd::arithmetic::mul::lemma_mul_basics((2 + 8 * b) as int);
        },
        HTree::Fork { esq, dir } => {
            lemma_ser_tree_len(*esq, b);
            lemma_ser_tree_len(*dir, b);
            vstd::arithmetic::mul::lemma_mul_is_distributive_add_other_way(
                (2 + 8 * b) as int,
                nleaves(*esq) as int,
                nleaves(*dir) as int,
            );
        },
    }
}

/// Every code is at most as long as the tree is high, and the table holds one
/// entry per leaf, each value a block of the tree.
pub proof fn lemma_table_shape(t: HTree, b: nat)
    requires
        wf_tree(t, b),
    ensures
        code_table(t).len() == nleaves(t),
        forall|e: int|
            0 <= e < code_table(t).len() ==> (#[trigger] code_table(t)[e]).1.len() <= height(t)
                && code_table(t)[e].0.len() == b,
    decreases t,
{
    match t {
        HTree::Leaf { .. } => {
        },
        HTree::Fork { esq, dir } => {
            lemma_table_shape(*esq, b);
            lemma_table_shape(*dir, b);
            let le = code_table(*esq);
            let ld = code_table(*dir);
            assert forall|e: int|
                0 <= e < code_table(t).len() implies (#[trigger] code_table(t)[e]).1.len()
                <= height(t) && code_table(t)[e].0.len() == b by {
                if e < le.len() {
                    assert(code_table(t)[e] == (le[e].0, seq![false] + le[e].1));
                } else {
                    assert(code_table(t)[e] == (ld[e - le.len()].0, seq![true] + ld[e
                        - le.len()].1));
                }
            }
        },
    }
}

/// A value is in the table exactly when a leaf holds it.
pub proof fn lemma_contains_has_val(t: HTree, v: Seq<u8>)
    ensures
        contains_val(t, v) <==> has_val(code_table(t), v),
    decreases t,
{
    match t {
        HTree::Leaf { val } => {
            if val == v {
                assert(code_table(t)[0].0 == v);
            }
        },
        HTree::Fork { esq, dir } => {
            lemma_contains_has_val(*esq, v);
            lemma_contains_has_val(*dir, v);
            let le = code_table(*esq);
            let ld = code_table(*dir);
            if contains_val(t, v) {
                if contains_val(*esq, v) {
                    let i = choose|i: int| 0 <= i < le.len() && le[i].0 == v;
                    assert(code_table(t)[i].0 == v);
                } else {
                    let i = choose|i: int| 0 <= i < ld.len() && ld[i].0 == v;
                    assert(code_table(t)[i + le.len()].0 == v);
                }
                assert(has_val(code_table(t), v));
            }
            if has_val(code_table(t), v) {
                let i = choose|i: int| 0 <= i < code_table(t).len() && code_table(t)[i].0 == v;
                if i < le.len() {
                    assert(le[i].0 == v);
                } else {
                    assert(ld[i - le.len()].0 == v);
                }
            }
        },
    }
}

/// Distinct leaf values give a table with distinct values.
pub proof fn lemma_tree_distinct_table(t: HTree)
    requires
        tree_distinct(t),
    ensures
        crate::codes::distinct_vals(code_table(t)),
    decreases t,
{
    match t {
        HTree::Leaf { .. } => {
        },
        HTree::Fork { esq, dir } => {
            lemma_tree_distinct_table(*esq);
            lemma_tree_distinct_table(*dir);
            let le = code_table(*esq);
            let ld = code_table(*dir);
            let tab = code_table(t);
            assert forall|i: int, j: int|
                0 <= i < tab.len() && 0 <= j < tab.len() && i != j implies #[trigger] tab[i].0
                != #[trigger] tab[j].0 by {
                if i < le.len() && j < le.len() {
                    assert(tab[i].0 == le[i].0 && tab[j].0 == le[j].0);
                } else if i >= le.len() && j >= le.len() {
                    assert(tab[i].0 == ld[i - le.len()].0 && tab[j].0 == ld[j - le.len()].0);
                } else if tab[i].0 == tab[j].0 {
                    let v = tab[i].0;
                    lemma_contains_has_val(*esq, v);
                    lemma_contains_has_val(*dir, v);
                    if i < le.len() {
                        assert(le[i].0 == v && ld[j - le.len()].0 == v);
                        assert(has_val(le, v) && has_val(ld, v));
                    } else {
                        assert(ld[i - le.len()].0 == v && le[j].0 == v);
                        assert(has_val(le, v) && has_val(ld, v));
                    }
                    assert(contains_val(*esq, v) && contains_val(*dir, v));
                    assert(false);
                }
            }
        },
    }
}

// ---------------------------------------------------------------------------
// Weight bounds for the size computation.
// ---------------------------------------------------------------------------

/// The total frequency carried by the leaves under the node.
pub open spec fn node_weight(n: Node) -> nat
    decreases n,
{
    match n.valor {
        Some(_) => n.freq as nat,
        None => (match n.esq {
            Some(e) => node_weight(*e),
            None => 0,
        }) + (match n.dir {
            Some(d) => node_weight(*d),
            None => 0,
        }),
    }
}

/// Every node's `freq` field is the weight of its subtree.
pub open spec fn freq_coherent(n: Node) -> bool
    decreases n,
{
    n.freq as nat == node_weight(n) && (match (n.esq, n.dir) {
        (Some(e), Some(d)) => freq_coherent(*e) && freq_coherent(*d),
        _ => true,
    })
}

/// The body bits a subtree asks for are bounded by its weight times the
/// deepest leaf's depth.
pub proof fn lemma_node_body_bound(n: Node, d: nat)
    requires
        shaped(n),
    ensures
        node_body_bits(n, d) <= node_weight(n) * (d + height(n.tree())),
    decreases n,
{
    match n.valor {
        Some(_) => {
            assert(n.tree() is Leaf);
            assert(height(n.tree()) == 0);
            assert(node_body_bits(n, d) == n.freq as nat * d);
            assert(node_weight(n) * (d + 0) == n.freq as nat * d);
        },
        None => {
            match (n.esq, n.dir) {
                (Some(e), Some(dd)) => {
                    lemma_node_body_bound(*e, d + 1);
                    lemma_node_body_bound(*dd, d + 1);
                    let te = e.tree();
                    let td = dd.tree();
                    let h = height(n.tree());
                    assert(n.tree() == HTree::Fork { esq: Box::new(te), dir: Box::new(td) });
                    assert(h == 1 + if height(te) >= height(td) {
                        height(te)
                    } else {
                        height(td)
                    });
                    assert(d + 1 + height(te) <= d + h);
                    assert(d + 1 + height(td) <= d + h);
                    assert(node_weight(*e) * ((d + 1 + height(te)) as int) <= node_weight(*e) * (
                    (d + h) as int)) by (nonlinear_arith)
                        requires
                            d + 1 + height(te) <= d + h,
                    ;
                    assert(node_weight(*dd) * ((d + 1 + height(td)) as int) <= node_weight(*dd) * (
                    (d + h) as int)) by (nonlinear_arith)
                        requires
                            d + 1 + height(td) <= d + h,
                    ;
                    vstd::arithmetic::mul::lemma_mul_is_distributive_add_other_way(
                        (d + h) as int,
                        node_weight(*e) as int,
                        node_weight(*dd) as int,
                    );
                },
                _ => {
                },
            }
        },
    }
}

/// One merge keeps the total frequency of the list.
pub proof fn lemma_merge_sums(l: Seq<(HTree, nat)>)
    requires
        l.len() >= 2,
    ensures
        freq_sum(merge_step(l)) == freq_sum(l),
{
    assert(wfreqs(l).len() == l.len());
    crate::tree::lemma_min_idx_range(wfreqs(l));
    let i = crate::tree::min_idx(wfreqs(l));
    let l1 = swap_rm(l, i);
    assert(wfreqs(l1).len() == l1.len());
    crate::tree::lemma_min_idx_range(wfreqs(l1));
    let j = crate::tree::min_idx(wfreqs(l1));
    let l2 = swap_rm(l1, j);
    let m = merge_step(l);
    lemma_freq_sum_swap_rm(l, i);
    lemma_freq_sum_swap_rm(l1, j);
    assert(m.drop_last() =~= l2);
}

/// During counting the node list is all leaves, so the first matching node is
/// the first matching count entry.
pub proof fn lemma_find_idx_pairs(l: Seq<Node>, x: Seq<u8>)
    requires
        forall|i: int| 0 <= i < l.len() ==> (#[trigger] l[i]).valor is Some,
    ensures
        crate::tree::find_idx(l, x) == first_val_idx(count_pairs(l), x),
    decreases l.len(),
{
    if l.len() > 0 {
        assert(crate::tree::node_has_val(l[0], x) <==> count_pairs(l)[0].0 == x);
        if !crate::tree::node_has_val(l[0], x) {
            assert(forall|i: int| 0 <= i < l.drop_first().len() ==> (#[trigger] l.drop_first()[i])
                == l[i + 1]);
            lemma_find_idx_pairs(l.drop_first(), x);
            assert(count_pairs(l.drop_first()) =~= count_pairs(l).drop_first());
        }
    }
}

/// Emitting one more block appends exactly its code.
pub proof fn lemma_body_append(tab: Seq<(Seq<u8>, Seq<bool>)>, a: Seq<Seq<u8>>, x: Seq<u8>)
    ensures
        body_bits_of(tab, a.push(x)) == body_bits_of(tab, a) + entry_for(tab, x),
    decreases a.len(),
{
    if a.len() == 0 {
        assert(a.push(x)[0] == x);
        assert(a.push(x).drop_first() =~= Seq::<Seq<u8>>::empty());
        assert(body_bits_of(tab, Seq::<Seq<u8>>::empty()) == Seq::<bool>::empty());
        assert(body_bits_of(tab, a.push(x)) =~= body_bits_of(tab, a) + entry_for(tab, x));
    } else {
        assert(a.push(x)[0] == a[0]);
        assert(a.push(x).drop_first() =~= a.drop_first().push(x));
        lemma_body_append(tab, a.drop_first(), x);
        assert((entry_for(tab, a[0]) + body_bits_of(tab, a.drop_first())) + entry_for(tab, x)
            =~= entry_for(tab, a[0]) + (body_bits_of(tab, a.drop_first()) + entry_for(tab, x)));
        assert(body_bits_of(tab, a.push(x)) =~= body_bits_of(tab, a) + entry_for(tab, x));
    }
}

/// A byte-for-byte copy of part of the buffer.
pub(crate) fn copy_range(v: &Vec<u8>, start: usize, count: usize) -> (r: Vec<u8>)
    requires
        start + count <= v@.len(),
    ensures
        r@ == v@.subrange(start as int, start as int + count as int),
{
    let mut out: Vec<u8> = Vec::new();
    let mut c: usize = 0;
    let total = v.len();
    proof {
        assert(v@.subrange(start as int, start as int) =~= Seq::<u8>::empty());
    }
    while c < count
        invariant
            c <= count,
            total == v@.len(),
            start + count <= v@.len(),
            out@ == v@.subrange(start as int, start as int + c as int),
        decreases count - c,
    {
        out.push(v[start + c]);
        c = c + 1;
        proof {
            assert(out@ =~= v@.subrange(start as int, start as int + c as int));
        }
    }
    out
}

/// A block of `b` zero bytes.
pub(crate) fn zero_block(b: usize) -> (r: Vec<u8>)
    ensures
        r@ == zero_bytes(b as nat),
{
    let mut out: Vec<u8> = Vec::new();
    let mut c: usize = 0;
    while c < b
        invariant
            c <= b,
            out@ == zero_bytes(c as nat),
        decreases b - c,
    {
        out.push(0);
        c = c + 1;
        proof {
            assert(out@ =~= zero_bytes(c as nat));
        }
    }
    proof {
        assert(out@ =~= zero_bytes(b as nat));
    }
    out
}

/// Compresses the input: pad with zero bytes to a multiple of `b`, count
/// block frequencies, build the Huffman tree, and emit the container
/// [serialized tree][32-bit block count][prefix-coded body], packed into
/// bytes.  The size bounds keep every bit count inside the bit buffer's
/// capacity on a 64-bit machine.
#[verifier::rlimit(100)]
pub fn encode(mensagem: &[u8], b: usize) -> (out: Vec<u8>)
    requires
        1 <= b < 0x4000_0000,
        mensagem@.len() < 0x4000_0000,
        usize::MAX >= 0xffff_ffff_ffff_ffff,
    ensures
        out@ == spec_encode(mensagem@, b as nat),
{
    let ghost bn = b as nat;
    proof {
        assert(usize::MAX == 0xffff_ffff_ffff_ffff);
        assert(BIT_CAPACITY == 0x1fff_ffff_ffff_ffff);
    }
    // ---- pad the input to a multiple of the block size ----
    let mut msg: Vec<u8> = Vec::new();
    let mut c: usize = 0;
    while c < mensagem.len()
        invariant
            c <= mensagem@.len(),
            msg@ == mensagem@.take(c as int),
        decreases mensagem@.len() - c,
    {
        msg.push(mensagem[c]);
        c = c + 1;
        proof {
            assert(msg@ =~= mensagem@.take(c as int));
        }
    }
    proof {
        assert(msg@ =~= mensagem@);
    }
    let resto = mensagem.len() % b;
    if resto != 0 {
        let falta = b - resto;
        let mut p: usize = 0;
        while p < falta
            invariant
                p <= falta,
                falta < b <= 0x4000_0000,
                mensagem@.len() < 0x4000_0000,
                msg@ == mensagem@ + zero_bytes(p as nat),
            decreases falta - p,
        {
            msg.push(0);
            p = p + 1;
            proof {
                assert(msg@ =~= mensagem@ + zero_bytes(p as nat));
            }
        }
    } else {
        proof {
            assert(mensagem@ + zero_bytes(0) =~= mensagem@);
        }
    }
    proof {
        assert(msg@ == padded(mensagem@, bn));
    }
    let ghost plen = msg@.len() as int;
    proof {
        vstd::arithmetic::div_mod::lemma_fundamental_div_mod(mensagem@.len() as int, b as int);
        if resto != 0 {
            assert(plen == (b as int) * ((mensagem@.len() as int) / (b as int)) + b);
            assert(plen == (b as int) * ((mensagem@.len() as int) / (b as int) + 1)) by {
                vstd::arithmetic::mul::lemma_mul_is_distributive_add(
                    b as int,
                    (mensagem@.len() as int) / (b as int),
                    1,
                );
            }
            vstd::arithmetic::div_mod::lemma_mod_multiples_basic(
                (mensagem@.len() as int) / (b as int) + 1,
                b as int,
            );
            assert(((b as int) * ((mensagem@.len() as int) / (b as int) + 1)) % (b as int) == 0)
                by {
                vstd::arithmetic::mul::lemma_mul_is_commutative(
                    b as int,
                    (mensagem@.len() as int) / (b as int) + 1,
                );
            }
            assert(plen % (b as int) == 0);
        } else {
            assert(plen % (b as int) == 0);
        }
        assert(plen < 0x8000_0000);
    }
    let nblocks = msg.len() / b;
    let ghost blks = blocks_of(msg@, bn);
    proof {
        vstd::arithmetic::div_mod::lemma_fundamental_div_mod(plen, b as int);
        assert((nblocks as int) * (b as int) == plen) by {
            vstd::arithmetic::mul::lemma_mul_is_commutative(b as int, plen / (b as int));
        }
        assert(blks.len() == nblocks);
        if b == 1 {
            assert(nblocks as int == plen) by (nonlinear_arith)
                requires
                    (nblocks as int) * 1 == plen,
            ;
            assert(nblocks < 0x4000_0000) by {
                assert(resto == 0);
                assert(plen == mensagem@.len());
            }
        } else {
            vstd::arithmetic::div_mod::lemma_div_is_ordered_by_denominator(plen, 2, b as int);
            assert(plen / 2 < 0x4000_0000) by (nonlinear_arith)
                requires
                    plen < 0x8000_0000,
                    0 <= plen,
            ;
            assert(nblocks < 0x4000_0000);
        }
        assert forall|x: int| 0 <= x < blks.len() implies (#[trigger] blks[x]).len() == bn by {
            assert((x + 1) * (b as int) <= (nblocks as int) * (b as int)) by {
                vstd::arithmetic::mul::lemma_mul_inequality(x + 1, nblocks as int, b as int);
            }
            assert((x + 1) * (b as int) == x * (b as int) + b) by {
                vstd::arithmetic::mul::lemma_mul_is_distributive_add_other_way(b as int, x, 1);
            }
        }
    }
    // ---- count block frequencies ----
    let mut lista: Vec<Node> = Vec::new();
    let mut j: usize = 0;
    proof {
        assert(blks.take(0) =~= Seq::<Seq<u8>>::empty());
        assert(count_pairs(lista@) =~= count_blocks(blks.take(0)));
    }
    while j < nblocks
        invariant
            1 <= b < 0x4000_0000,
            bn == b as nat,
            j <= nblocks,
            nblocks < 0x4000_0000,
            plen == msg@.len(),
            (nblocks as int) * (b as int) == plen,
            plen < 0x8000_0000,
            blks == blocks_of(msg@, bn),
            blks.len() == nblocks,
            forall|x: int| 0 <= x < blks.len() ==> (#[trigger] blks[x]).len() == bn,
            count_pairs(lista@) == count_blocks(blks.take(j as int)),
            forall|x: int|
                0 <= x < lista@.len() ==> (#[trigger] lista@[x]).valor is Some && lista@[x].wf(bn)
                    && lista@[x].esq is None && lista@[x].dir is None,
        decreases nblocks - j,
    {
        proof {
            assert((j as int) * (b as int) <= (nblocks as int) * (b as int)
                && (j + 1) * (b as int) <= (nblocks as int) * (b as int)) by {
                vstd::arithmetic::mul::lemma_mul_inequality(j as int, nblocks as int, b as int);
                vstd::arithmetic::mul::lemma_mul_inequality(j + 1, nblocks as int, b as int);
            }
            assert((j + 1) * (b as int) == (j as int) * (b as int) + b) by {
                vstd::arithmetic::mul::lemma_mul_is_distributive_add_other_way(
                    b as int,
                    j as int,
                    1,
                );
            }
        }
        let i = j * b;
        let bloco = copy_range(&msg, i, b);
        proof {
            assert(bloco@ == blks[j as int]);
        }
        let ghost old_l = lista@;
        let ghost cp = count_pairs(old_l);
        proof {
            crate::tree::lemma_find_idx(old_l, bloco@);
            lemma_find_idx_pairs(old_l, bloco@);
            lemma_first_val_props(cp, bloco@);
            lemma_count_blocks_props(blks.take(j as int), bn);
            lemma_leaves_sum(cp);
        }
        match find_pop(&mut lista, bloco.as_slice()) {
            Some(item) => {
                let ghost k = crate::tree::find_idx(old_l, bloco@);
                proof {
                    assert(leaves_of(cp)[k].1 == cp[k].1);
                    lemma_freq_le_sum(leaves_of(cp), k);
                    assert(freq_sum(leaves_of(cp)) == blks.take(j as int).len());
                    assert(item.freq < 0x4000_0000);
                }
                let mut item = item;
                item.freq = item.freq + 1;
                lista.push(item);
                proof {
                    assert(count_pairs(lista@) =~= count_step(cp, blks[j as int])) by {
                        assert(count_pairs(lista@).len() == cp.len());
                        assert forall|x: int| 0 <= x < cp.len() implies count_pairs(lista@)[x]
                            == count_step(cp, blks[j as int])[x] by {
                            if x < cp.len() - 1 {
                                assert(lista@[x] == old_l.update(
                                    k,
                                    old_l.last(),
                                ).drop_last()[x]);
                            }
                        }
                    }
                }
            },
            None => {
                lista.push(Node::new(Some(bloco)));
                proof {
                    assert(count_pairs(lista@) =~= count_step(cp, blks[j as int])) by {
                        assert(count_pairs(lista@).len() == cp.len() + 1);
                        assert forall|x: int| 0 <= x < cp.len() + 1 implies count_pairs(lista@)[x]
                            == count_step(cp, blks[j as int])[x] by {
                            if x < cp.len() {
                                assert(lista@[x] == old_l[x]);
                            }
                        }
                    }
                }
            },
        }
        j = j + 1;
        proof {
            assert(blks.take(j as int).drop_last() =~= blks.take(j - 1));
            assert(blks.take(j as int).last() == blks[j - 1]);
            assert(count_blocks(blks.take(j as int)) == count_step(
                count_blocks(blks.take(j - 1)),
                blks[j - 1],
            ));
        }
    }
    proof {
        assert(blks.take(nblocks as int) =~= blks);
    }
    // ---- an empty input still gets a tree: one placeholder leaf ----
    if lista.is_empty() {
        let zb = zero_block(b);
        lista.push(Node::new(Some(zb)));
    }
    let ghost t = tree_of(mensagem@, bn);
    let ghost init = tree_pairs(lista@);
    let ghost kcount = init.len() as int;
    proof {
        assert(lista@.len() >= 1);
        lemma_count_blocks_props(blks, bn);
        let cl = count_blocks(blks);
        if nblocks == 0 {
            assert(cl =~= Seq::<(Seq<u8>, nat)>::empty());
            assert(lista@.len() == 1);
            assert(lista@[0].tree() == HTree::Leaf { val: zero_bytes(bn) });
            assert(init =~= seq![(HTree::Leaf { val: zero_bytes(bn) }, 1nat)]);
            assert(build_tree(init) == t);
            assert(init.drop_last() =~= Seq::<(HTree, nat)>::empty());
            assert(freq_sum(Seq::<(HTree, nat)>::empty()) == 0);
            assert(nleaves_sum(Seq::<(HTree, nat)>::empty()) == 0);
            assert(init.last() == init[0]);
            assert(freq_sum(init) == 1);
            assert(nleaves_sum(init) == 1);
        } else {
            assert(init =~= leaves_of(cl)) by {
                assert(init.len() == cl.len());
                assert forall|x: int| 0 <= x < cl.len() implies init[x] == leaves_of(cl)[x] by {
                    assert(lista@[x].valor is Some);
                    assert(count_pairs(lista@)[x] == cl[x]);
                }
            }
            assert(build_tree(init) == t);
            lemma_leaves_sum(cl);
            assert(freq_sum(init) == nblocks);
            assert(nleaves_sum(init) == cl.len());
            assert(cl.len() >= 1) by {
                assert(blocks_have(blks, blks[0]));
                assert(counted_has(cl, blks[0]));
            }
        }
        // the list the builder starts from: well-formed, disjoint leaves
        assert(all_wf(init, bn)) by {
            assert forall|x: int| 0 <= x < init.len() implies wf_tree(#[trigger] init[x].0, bn) by {
                assert(init[x].0 == lista@[x].tree());
            }
        }
        assert(all_distinct(init)) by {
            assert forall|x: int| 0 <= x < init.len() implies tree_distinct(
                #[trigger] init[x].0,
            ) by {
                assert(init[x].0 == lista@[x].tree());
                assert(lista@[x].tree() is Leaf);
            }
        }
        assert(list_disjoint(init)) by {
            assert forall|x: int, y: int, v: Seq<u8>|
                0 <= x < init.len() && 0 <= y < init.len() && x != y implies !(
            #[trigger] contains_val(init[x].0, v) && #[trigger] contains_val(init[y].0, v)) by {
                if contains_val(init[x].0, v) && contains_val(init[y].0, v) {
                    if nblocks == 0 {
                        assert(false);
                    } else {
                        assert(init[x].0 == HTree::Leaf { val: cl[x].0 });
                        assert(init[y].0 == HTree::Leaf { val: cl[y].0 });
                        assert(cl[x].0 == v && cl[y].0 == v);
                        assert(false);
                    }
                }
            }
        }
        lemma_build_props(init, bn);
        assert(wf_tree(t, bn) && tree_distinct(t));
        assert(nleaves(t) == nleaves_sum(init));
        assert(nleaves_sum(init) <= 0x4000_0000);
        assert(freq_sum(init) <= 0x4000_0000);
    }
    // ---- merge the two smallest nodes until one root remains ----
    while lista.len() > 1
        invariant
            bn == b as nat,
            lista@.len() >= 1,
            build_tree(tree_pairs(lista@)) == build_tree(init),
            forall|x: int|
                0 <= x < lista@.len() ==> (#[trigger] lista@[x]).wf(bn) && freq_coherent(
                    lista@[x],
                ),
            freq_sum(tree_pairs(lista@)) == freq_sum(init),
            freq_sum(init) <= 0x4000_0000,
        decreases lista@.len(),
    {
        let ghost pairs0 = tree_pairs(lista@);
        let ghost l0 = lista@;
        proof {
            assert(crate::tree::freqs_of(l0) =~= wfreqs(pairs0));
            crate::tree::lemma_min_idx_range(wfreqs(pairs0));
        }
        let first = match pop_smallest(&mut lista) {
            Some(n) => n,
            None => {
                proof {
                    assert(false);
                }
                Node::new(None)
            },
        };
        let ghost k1 = crate::tree::min_idx(wfreqs(pairs0));
        let ghost pairs1 = tree_pairs(lista@);
        let ghost l1 = lista@;
        proof {
            assert(first == l0[k1]);
            assert(pairs1 =~= swap_rm(pairs0, k1));
            assert(crate::tree::freqs_of(l1) =~= wfreqs(pairs1));
            crate::tree::lemma_min_idx_range(wfreqs(pairs1));
            lemma_freq_sum_swap_rm(pairs0, k1);
            lemma_freq_le_sum(pairs0, k1);
        }
        let second = match pop_smallest(&mut lista) {
            Some(n) => n,
            None => {
                proof {
                    assert(false);
                }
                Node::new(None)
            },
        };
        let ghost k2 = crate::tree::min_idx(wfreqs(pairs1));
        proof {
            assert(second == l1[k2]);
            assert(tree_pairs(lista@) =~= swap_rm(pairs1, k2));
            lemma_freq_sum_swap_rm(pairs1, k2);
            lemma_freq_le_sum(pairs1, k2);
            assert(first.freq as int + second.freq as int <= 0x8000_0000);
        }
        let mut novo_node = Node::new(None);
        novo_node.freq = first.freq + second.freq;
        novo_node.esq = Some(Box::new(first));
        novo_node.dir = Some(Box::new(second));
        lista.push(novo_node);
        proof {
            assert(novo_node.tree() == HTree::Fork {
                esq: Box::new(first.tree()),
                dir: Box::new(second.tree()),
            });
            assert(tree_pairs(lista@) =~= merge_step(pairs0));
            lemma_merge_step_len(pairs0);
            assert(build_tree(merge_step(pairs0)) == build_tree(pairs0));
            lemma_merge_sums(pairs0);
            assert(node_weight(novo_node) == first.freq + second.freq);
        }
    }
    // ---- generate the code table and sort it ----
    let ghost tab = code_table(t);
    proof {
        assert(tree_pairs(lista@).len() == 1);
        assert(build_tree(tree_pairs(lista@)) == tree_pairs(lista@)[0].0);
        assert(lista@[0].tree() == t);
        assert(lista@[0].wf(bn));
        crate::codes::lemma_wf_shaped(lista@[0], bn);
        assert(tree_pairs(lista@).drop_last() =~= Seq::<(HTree, nat)>::empty());
        assert(freq_sum(Seq::<(HTree, nat)>::empty()) == 0);
        assert(tree_pairs(lista@).last() == tree_pairs(lista@)[0]);
        assert(tree_pairs(lista@)[0].1 == lista@[0].freq as nat);
        assert(freq_sum(tree_pairs(lista@)) == lista@[0].freq as nat);
        assert(node_weight(lista@[0]) == lista@[0].freq as nat);
        assert(node_weight(lista@[0]) <= 0x4000_0000);
        lemma_height_nleaves(t);
        lemma_table_shape(t, bn);
        lemma_tree_distinct_table(t);
        assert(height(t) < 0x4000_0000);
        lemma_node_body_bound(lista@[0], 0);
        assert(node_weight(lista@[0]) * ((0 + height(t)) as int) <= 0x4000_0000 * 0x4000_0000)
            by (nonlinear_arith)
            requires
                node_weight(lista@[0]) <= 0x4000_0000,
                height(t) <= 0x4000_0000,
        ;
        assert(node_body_bits(lista@[0], 0) <= usize::MAX);
    }
    let root = &lista[0];
    let mut dicionario: Vec<(Vec<u8>, BitBuf)> = Vec::new();
    let mut caminho = bv_new();
    // the table generator also accounts for the body size; the emission loop
    // below is proved to append exactly the bits the codes call for
    let _bits_msg = crate::codes::generate_codes(root, &mut dicionario, &mut caminho);
    proof {
        assert(dict_view(dicionario@) =~= tab) by {
            assert(dict_view(dicionario@) == Seq::<(Seq<u8>, Seq<bool>)>::empty()
                + crate::codes::with_prefix(Seq::<bool>::empty(), tab));
            assert forall|x: int| 0 <= x < tab.len() implies crate::codes::with_prefix(
                Seq::<bool>::empty(),
                tab,
            )[x] == tab[x] by {
                assert(Seq::<bool>::empty() + tab[x].1 =~= tab[x].1);
            }
            assert(crate::codes::with_prefix(Seq::<bool>::empty(), tab) =~= tab);
            assert(Seq::<(Seq<u8>, Seq<bool>)>::empty() + tab =~= tab);
        }
        assert(crate::codes::uniform_vals(tab, bn));
    }
    crate::codes::sort_dicionario(&mut dicionario, Ghost(bn));
    // ---- emit the container ----
    let ghost serlen = ser_tree(t).len() as int;
    proof {
        lemma_ser_tree_len(t, bn);
        let k = nleaves(t) as int;
        assert(1 <= k <= 0x4000_0000);
        assert(k * (b as int) <= 0x8000_0000) by {
            if nblocks == 0 {
                assert(k == 1);
                vstd::arithmetic::mul::lemma_mul_basics(b as int);
            } else {
                assert(k <= nblocks as int);
                vstd::arithmetic::mul::lemma_mul_inequality(k, nblocks as int, b as int);
            }
        }
        assert(serlen == k * (2 + 8 * (b as int)) - 1);
        assert(serlen <= 2 * k + 8 * (k * (b as int))) by (nonlinear_arith)
            requires
                serlen == k * (2 + 8 * (b as int)) - 1,
                k >= 0,
                b >= 1,
        ;
        assert(serlen <= 0x9_0000_0000);
    }
    let mut coded = bv_new();
    push_tree_into_bitvec(root, &mut coded);
    proof {
        assert(bv_bits(coded) =~= ser_tree(t)) by {
            assert(Seq::<bool>::empty() + ser_tree(t) =~= ser_tree(t));
        }
    }
    let blocos32: u32 = nblocks as u32;
    crate::bits::push_num_into_bitvec(blocos32, 32, &mut coded);
    let ghost header = ser_tree(t) + to_bits(nblocks as nat, 32);
    proof {
        assert(blocos32 as nat == nblocks as nat);
        assert(bv_bits(coded) == header);
        assert(header.len() == serlen + 32) by {
            crate::bits::lemma_to_bits_len(nblocks as nat, 32);
        }
    }
    let mut j: usize = 0;
    proof {
        assert(blks.take(0) =~= Seq::<Seq<u8>>::empty());
        assert(header + body_bits_of(tab, blks.take(0)) =~= header);
    }
    while j < nblocks
        invariant
            1 <= b < 0x4000_0000,
            bn == b as nat,
            j <= nblocks,
            nblocks < 0x4000_0000,
            plen == msg@.len(),
            (nblocks as int) * (b as int) == plen,
            plen < 0x8000_0000,
            blks == blocks_of(msg@, bn),
            blks.len() == nblocks,
            forall|x: int| 0 <= x < blks.len() ==> (#[trigger] blks[x]).len() == bn,
            tab == code_table(t),
            crate::codes::distinct_vals(tab),
            forall|e: int|
                0 <= e < tab.len() ==> (#[trigger] tab[e]).1.len() <= height(t) && tab[e].0.len()
                    == bn,
            forall|v: Seq<u8>| #[trigger] contains_val(t, v) <==> list_contains(init, v),
            forall|v: Seq<u8>| #[trigger] counted_has(count_blocks(blks), v) <==> blocks_have(
                blks,
                v,
            ),
            nblocks == 0 || init == leaves_of(count_blocks(blks)),
            height(t) < 0x4000_0000,
            header.len() <= 0x9_0000_0000 + 32,
            usize::MAX == 0xffff_ffff_ffff_ffff,
            BIT_CAPACITY == 0x1fff_ffff_ffff_ffff,
            crate::codes::sorted_vals(dict_view(dicionario@)),
            crate::codes::uniform_vals(dict_view(dicionario@), bn),
            dict_view(dicionario@).to_multiset() == tab.to_multiset(),
            bv_bits(coded) == header + body_bits_of(tab, blks.take(j as int)),
            body_bits_of(tab, blks.take(j as int)).len() <= (j as int) * (height(t) as int),
        decreases nblocks - j,
    {
        proof {
            assert((j as int) * (b as int) <= (nblocks as int) * (b as int)
                && (j + 1) * (b as int) <= (nblocks as int) * (b as int)) by {
                vstd::arithmetic::mul::lemma_mul_inequality(j as int, nblocks as int, b as int);
                vstd::arithmetic::mul::lemma_mul_inequality(j + 1, nblocks as int, b as int);
            }
            assert((j + 1) * (b as int) == (j as int) * (b as int) + b) by {
                vstd::arithmetic::mul::lemma_mul_is_distributive_add_other_way(
                    b as int,
                    j as int,
                    1,
                );
            }
        }
        let i = j * b;
        let bloco = copy_range(&msg, i, b);
        let ghost blk = blks[j as int];
        proof {
            assert(bloco@ == blk);
            // the block's value is in the tree, hence in the table
            assert(contains_val(t, blk)) by {
                assert(blocks_have(blks, blk));
                assert(counted_has(count_blocks(blks), blk));
                let x = choose|x: int|
                    0 <= x < count_blocks(blks).len() && (#[trigger] count_blocks(blks)[x]).0
                        == blk;
                assert(contains_val(init[x].0, blk));
                assert(list_contains(init, blk));
            }
            lemma_contains_has_val(t, blk);
            crate::codes::lemma_entry_for_present(tab, blk);
            let e = choose|e: int| 0 <= e < tab.len() && tab[e] == (blk, entry_for(tab, blk));
            tab.to_multiset_ensures();
            dict_view(dicionario@).to_multiset_ensures();
            assert(tab.contains((blk, entry_for(tab, blk))));
            assert(tab.to_multiset().count((blk, entry_for(tab, blk))) > 0);
            assert(dict_view(dicionario@).contains((blk, entry_for(tab, blk))));
            let sx = choose|sx: int|
                0 <= sx < dict_view(dicionario@).len() && dict_view(dicionario@)[sx] == (
                blk,
                entry_for(tab, blk),
                );
            assert(has_val(dict_view(dicionario@), blk));
        }
        let codigo = match crate::codes::busca_binaria_dicionario(
            &dicionario,
            bloco.as_slice(),
            Ghost(bn),
        ) {
            Some(codigo) => codigo,
            None => {
                proof {
                    assert(false);
                }
                return Vec::new();
            },
        };
        proof {
            // the found code is the block's unique code in the table
            let found = (blk, bv_bits(*codigo));
            tab.to_multiset_ensures();
            dict_view(dicionario@).to_multiset_ensures();
            assert(dict_view(dicionario@).contains(found));
            assert(tab.to_multiset().count(found) > 0);
            assert(tab.contains(found));
            let e = choose|e: int| 0 <= e < tab.len() && tab[e] == found;
            crate::codes::lemma_entry_for_unique(tab, blk, e);
            assert(bv_bits(*codigo) == entry_for(tab, blk));
            assert(bv_bits(*codigo).len() <= height(t));
            // capacity
            assert(((j + 1) as int) * (height(t) as int) == (j as int) * (height(t) as int)
                + height(t)) by {
                vstd::arithmetic::mul::lemma_mul_is_distributive_add_other_way(
                    height(t) as int,
                    j as int,
                    1,
                );
            }
            assert(((j + 1) as int) * (height(t) as int) <= 0x4000_0000 * 0x4000_0000)
                by (nonlinear_arith)
                requires
                    0 <= (j + 1) as int <= 0x4000_0000,
                    0 <= height(t) < 0x4000_0000,
            ;
            assert(bv_bits(coded).len() + bv_bits(*codigo).len() <= BIT_CAPACITY);
        }
        crate::bits::bv_extend(&mut coded, codigo);
        j = j + 1;
        proof {
            assert(blks.take(j as int).drop_last() =~= blks.take(j - 1));
            assert(blks.take(j as int) =~= blks.take(j - 1).push(blk));
            lemma_body_append(tab, blks.take(j - 1), blk);
            assert(bv_bits(coded) =~= header + body_bits_of(tab, blks.take(j as int)));
        }
    }
    proof {
        assert(blks.take(nblocks as int) =~= blks);
        assert(bv_bits(coded) =~= container_bits(mensagem@, bn)) by {
            assert(container_bits(mensagem@, bn) == ser_tree(t) + to_bits(blks.len(), 32)
                + body_bits_of(tab, blks));
        }
    }
    bitvec_to_bytevec(&coded)
}

// ---------------------------------------------------------------------------
// The round trip: decoding a container gives back the padded input.
// ---------------------------------------------------------------------------

proof fn lemma_bytes_bits_slice(s: Seq<u8>, j: int)
    requires
        0 <= j < s.len(),
    ensures
        bytes_bits(s).subrange(8 * j, 8 * j + 8) == byte_bits(s[j]),
    decreases s.len(),
{
    crate::bits::lemma_bytes_bits_len(s);
    crate::bits::lemma_bytes_bits_len(s.drop_last());
    crate::bits::lemma_to_bits_len(s.last() as nat, 8);
    if j == s.len() - 1 {
        assert(bytes_bits(s).subrange(8 * j, 8 * j + 8) =~= byte_bits(s.last()));
    } else {
        lemma_bytes_bits_slice(s.drop_last(), j);
        assert(bytes_bits(s).subrange(8 * j, 8 * j + 8) =~= bytes_bits(s.drop_last()).subrange(
            8 * j,
            8 * j + 8,
        ));
    }
}

/// Every serialization is at least one bit long.
proof fn lemma_ser_tree_pos(t: HTree)
    ensures
        ser_tree(t).len() >= 1,
{
    match t {
        HTree::Leaf { .. } => {
        },
        HTree::Fork { .. } => {
        },
    }
}

/// Reading back a serialized tree gives the tree, the cursor landing exactly
/// after it.
pub proof fn lemma_deser_ser(t: HTree, b: nat, bits: Seq<bool>, i: nat)
    requires
        1 <= b,
        wf_tree(t, b),
        i + ser_tree(t).len() <= bits.len(),
        bits.subrange(i as int, i as int + ser_tree(t).len() as int) == ser_tree(t),
    ensures
        deser_tree(bits, i, b) == Some((t, (i + ser_tree(t).len()) as nat)),
    decreases t,
{
    match t {
        HTree::Leaf { val } => {
            crate::bits::lemma_bytes_bits_len(val);
            assert(ser_tree(t).len() == 1 + 8 * b);
            assert(bits[i as int] == ser_tree(t)[0]);
            assert(ser_tree(t)[0]);
            let rd = bytes_from_bits(bits, i + 1, b);
            assert(rd =~= val) by {
                assert forall|k: int| 0 <= k < b as int implies rd[k] == val[k] by {
                    assert(bits.subrange(i + 1 + 8 * k, i + 1 + 8 * k + 8) =~= bytes_bits(
                        val,
                    ).subrange(8 * k, 8 * k + 8)) by {
                        assert(forall|x: int|
                            0 <= x < ser_tree(t).len() ==> bits[i + x] == #[trigger] ser_tree(
                                t,
                            )[x]);
                        assert(forall|x: int|
                            0 <= x < 8 * (b as int) ==> #[trigger] bytes_bits(val)[x] == ser_tree(
                                t,
                            )[x + 1]);
                    }
                    lemma_bytes_bits_slice(val, k);
                    assert(pow2(8) == 256) by {
                        vstd::arithmetic::power2::lemma2_to64();
                    }
                    crate::bits::lemma_from_to_bits(val[k] as nat, 8);
                    assert(from_bits(byte_bits(val[k])) == val[k] as nat);
                }
            }
            assert(deser_tree(bits, i, b) == Some((t, (i + 1 + 8 * b) as nat)));
        },
        HTree::Fork { esq, dir } => {
            let se = ser_tree(*esq);
            let sd = ser_tree(*dir);
            lemma_ser_tree_pos(*esq);
            lemma_ser_tree_pos(*dir);
            assert(ser_tree(t) == seq![false] + se + sd);
            assert(ser_tree(t).len() == 1 + se.len() + sd.len());
            assert(forall|x: int|
                0 <= x < ser_tree(t).len() ==> bits[i + x] == #[trigger] ser_tree(t)[x]);
            assert(!bits[i as int]) by {
                assert(ser_tree(t)[0] == false);
            }
            assert(bits.subrange(i as int + 1, i as int + 1 + se.len() as int) =~= se) by {
                assert(forall|x: int| 0 <= x < se.len() ==> #[trigger] se[x] == ser_tree(t)[x + 1]);
            }
            lemma_deser_ser(*esq, b, bits, (i + 1) as nat);
            let j = i + 1 + se.len();
            assert(bits.subrange(j as int, j as int + sd.len() as int) =~= sd) by {
                assert(forall|x: int|
                    0 <= x < sd.len() ==> #[trigger] sd[x] == ser_tree(t)[x + 1 + se.len()]);
            }
            lemma_deser_ser(*dir, b, bits, j as nat);
            assert(deser_tree(bits, i, b) == Some((t, (i + ser_tree(t).len()) as nat)));
        },
    }
}

/// Walking the bits of a table entry's code reaches that entry's leaf.
pub proof fn lemma_walk_entry(t: HTree, e: int, bits: Seq<bool>, i: nat)
    requires
        0 <= e < code_table(t).len(),
        i + code_table(t)[e].1.len() <= bits.len(),
        bits.subrange(i as int, i as int + code_table(t)[e].1.len() as int) == code_table(t)[e].1,
    ensures
        walk_tree(t, bits, i) == Some(
            (code_table(t)[e].0, (i + code_table(t)[e].1.len()) as nat),
        ),
    decreases t,
{
    match t {
        HTree::Leaf { val } => {
            assert(code_table(t)[e] == (val, Seq::<bool>::empty()));
        },
        HTree::Fork { esq, dir } => {
            let le = code_table(*esq);
            let ld = code_table(*dir);
            let p = code_table(t)[e].1;
            assert(forall|x: int| 0 <= x < p.len() ==> bits[i + x] == #[trigger] p[x]);
            if e < le.len() {
                assert(code_table(t)[e] == (le[e].0, seq![false] + le[e].1));
                assert(p[0] == false);
                assert(!bits[i as int]);
                assert(bits.subrange(i as int + 1, i as int + 1 + le[e].1.len() as int) =~= le[e].1) by {
                    assert(forall|x: int|
                        0 <= x < le[e].1.len() ==> #[trigger] le[e].1[x] == p[x + 1]);
                }
                lemma_walk_entry(*esq, e, bits, (i + 1) as nat);
            } else {
                let f = e - le.len();
                assert(code_table(t)[e] == (ld[f].0, seq![true] + ld[f].1));
                assert(p[0] == true);
                assert(bits[i as int]);
                assert(bits.subrange(i as int + 1, i as int + 1 + ld[f].1.len() as int) =~= ld[f].1) by {
                    assert(forall|x: int|
                        0 <= x < ld[f].1.len() ==> #[trigger] ld[f].1[x] == p[x + 1]);
                }
                lemma_walk_entry(*dir, f, bits, (i + 1) as nat);
            }
        },
    }
}

/// Decoding the emitted body gives back the blocks, in order.
pub proof fn lemma_decode_body_of(t: HTree, bits: Seq<bool>, i: nat, blks: Seq<Seq<u8>>)
    requires
        crate::codes::distinct_vals(code_table(t)),
        forall|x: int| 0 <= x < blks.len() ==> has_val(code_table(t), #[trigger] blks[x]),
        i + body_bits_of(code_table(t), blks).len() <= bits.len(),
        bits.subrange(
            i as int,
            i as int + body_bits_of(code_table(t), blks).len() as int,
        ) == body_bits_of(code_table(t), blks),
    ensures
        decode_body(t, bits, i, blks.len()) == Some(
            (concat_blocks(blks), (i + body_bits_of(code_table(t), blks).len()) as nat),
        ),
    decreases blks.len(),
{
    let tab = code_table(t);
    if blks.len() == 0 {
        assert(concat_blocks(blks) == Seq::<u8>::empty());
    } else {
        let blk = blks[0];
        let p = entry_for(tab, blk);
        let body = body_bits_of(tab, blks);
        let rest_body = body_bits_of(tab, blks.drop_first());
        assert(body == p + rest_body);
        assert(forall|x: int| 0 <= x < body.len() ==> bits[i + x] == #[trigger] body[x]);
        crate::codes::lemma_entry_for_present(tab, blk);
        let e = choose|e: int| 0 <= e < tab.len() && tab[e] == (blk, entry_for(tab, blk));
        assert(bits.subrange(i as int, i + p.len() as int) =~= p) by {
            assert(forall|x: int| 0 <= x < p.len() ==> #[trigger] p[x] == body[x]);
        }
        lemma_walk_entry(t, e, bits, i);
        assert(walk_tree(t, bits, i) == Some((blk, (i + p.len()) as nat)));
        let j = i + p.len();
        assert(bits.subrange(j as int, j as int + rest_body.len() as int) =~= rest_body) by {
            assert(forall|x: int|
                0 <= x < rest_body.len() ==> #[trigger] rest_body[x] == body[x + p.len()]);
        }
        assert(forall|x: int|
            0 <= x < blks.drop_first().len() ==> #[trigger] blks.drop_first()[x] == blks[x + 1]);
        lemma_decode_body_of(t, bits, j as nat, blks.drop_first());
        assert(concat_blocks(blks) == blk + concat_blocks(blks.drop_first()));
    }
}

/// A successful read sees only the bits before its final cursor, so appending
/// bits afterwards changes nothing.
pub proof fn lemma_deser_ext(bits: Seq<bool>, ext: Seq<bool>, i: nat, b: nat)
    requires
        deser_tree(bits, i, b) is Some,
    ensures
        deser_tree(bits + ext, i, b) == deser_tree(bits, i, b),
    decreases bits.len() - i,
{
    let w = bits + ext;
    assert(forall|x: int| 0 <= x < bits.len() ==> w[x] == #[trigger] bits[x]);
    if bits[i as int] {
        assert(bytes_from_bits(w, i + 1, b) =~= bytes_from_bits(bits, i + 1, b)) by {
            assert forall|k: int| 0 <= k < b as int implies #[trigger] bytes_from_bits(
                w,
                i + 1,
                b,
            )[k] == bytes_from_bits(bits, i + 1, b)[k] by {
                assert(w.subrange(i + 1 + 8 * k, i + 1 + 8 * k + 8) =~= bits.subrange(
                    i + 1 + 8 * k,
                    i + 1 + 8 * k + 8,
                ));
            }
        }
    } else {
        lemma_deser_ext(bits, ext, i + 1, b);
        let (esq, j) = deser_tree(bits, i + 1, b).unwrap();
        lemma_deser_ext(bits, ext, j, b);
    }
}

pub proof fn lemma_walk_ext(t: HTree, bits: Seq<bool>, ext: Seq<bool>, i: nat)
    requires
        walk_tree(t, bits, i) is Some,
    ensures
        walk_tree(t, bits + ext, i) == walk_tree(t, bits, i),
    decreases t,
{
    match t {
        HTree::Leaf { .. } => {
        },
        HTree::Fork { esq, dir } => {
            assert((bits + ext)[i as int] == bits[i as int]);
            if bits[i as int] {
                lemma_walk_ext(*dir, bits, ext, i + 1);
            } else {
                lemma_walk_ext(*esq, bits, ext, i + 1);
            }
        },
    }
}

pub proof fn lemma_body_ext(t: HTree, bits: Seq<bool>, ext: Seq<bool>, i: nat, n: nat)
    requires
        decode_body(t, bits, i, n) is Some,
    ensures
        decode_body(t, bits + ext, i, n) == decode_body(t, bits, i, n),
    decreases n,
{
    if n > 0 {
        lemma_walk_ext(t, bits, ext, i);
        let (v, j) = walk_tree(t, bits, i).unwrap();
        lemma_body_ext(t, bits, ext, j, (n - 1) as nat);
    }
}

/// Joining the blocks of a block-aligned buffer gives the buffer back.
pub proof fn lemma_concat_blocks_of(s: Seq<u8>, b: nat)
    requires
        1 <= b,
        s.len() % b == 0,
    ensures
        concat_blocks(blocks_of(s, b)) == s,
    decreases s.len(),
{
    let blks = blocks_of(s, b);
    if s.len() == 0 {
        assert(blks.len() == 0) by {
            assert(s.len() / b == 0) by {
                vstd::arithmetic::div_mod::lemma_basic_div(s.len() as int, b as int);
            }
        }
        assert(concat_blocks(blks) =~= s);
    } else {
        assert(s.len() >= b) by {
            if s.len() < b {
                vstd::arithmetic::div_mod::lemma_small_mod(s.len(), b);
            }
        }
        let tail = s.skip(b as int);
        assert(tail.len() % b == 0) by {
            vstd::arithmetic::div_mod::lemma_mod_multiples_vanish(1, tail.len() as int, b as int);
            assert(b + tail.len() == s.len());
            assert((1 * (b as int) + tail.len() as int) % (b as int) == tail.len() as int % (
            b as int));
        }
        lemma_concat_blocks_of(tail, b);
        assert(tail.len() / b + 1 == s.len() / b) by {
            vstd::arithmetic::div_mod::lemma_hoist_over_denominator(
                tail.len() as int,
                1,
                b as nat,
            );
            assert(tail.len() as int + 1 * (b as int) == s.len() as int);
        }
        assert(blks.drop_first() =~= blocks_of(tail, b)) by {
            assert forall|x: int| 0 <= x < blks.len() - 1 implies blks.drop_first()[x]
                == blocks_of(tail, b)[x] by {
                assert(blks[x + 1] == s.subrange((x + 1) * (b as int), (x + 2) * (b as int)));
                assert(blocks_of(tail, b)[x] == tail.subrange(x * (b as int), (x + 1) * (
                b as int)));
                assert((x + 1) * (b as int) == x * (b as int) + b
                    && (x + 2) * (b as int) == (x + 1) * (b as int) + b) by {
                    vstd::arithmetic::mul::lemma_mul_is_distributive_add_other_way(
                        b as int,
                        x,
                        1,
                    );
                    vstd::arithmetic::mul::lemma_mul_is_distributive_add_other_way(
                        b as int,
                        x + 1,
                        1,
                    );
                }
                assert(x * (b as int) + b <= tail.len()) by {
                    vstd::arithmetic::mul::lemma_mul_inequality(
                        x + 1,
                        tail.len() as int / (b as int),
                        b as int,
                    );
                    vstd::arithmetic::div_mod::lemma_fundamental_div_mod(
                        tail.len() as int,
                        b as int,
                    );
                }
                assert(blks[x + 1] =~= blocks_of(tail, b)[x]);
            }
        }
        assert(blks[0] == s.subrange(0, b as int)) by {
            assert(0 * (b as int) == 0 && 1 * (b as int) == b) by {
                vstd::arithmetic::mul::lemma_mul_basics(b as int);
            }
        }
        assert(concat_blocks(blks) == blks[0] + concat_blocks(blocks_of(tail, b)));
        assert(s.subrange(0, b as int) + tail =~= s);
    }
}

/// Padding reaches the next multiple of the block size and adds less than
/// one block.
pub proof fn lemma_padded_props(s: Seq<u8>, b: nat)
    requires
        1 <= b,
    ensures
        padded(s, b).len() % b == 0,
        s.len() <= padded(s, b).len() < s.len() + b,
{
    vstd::arithmetic::div_mod::lemma_fundamental_div_mod(s.len() as int, b as int);
    if s.len() % b != 0 {
        let q = s.len() as int / b as int;
        assert(padded(s, b).len() == (b as int) * q + b);
        assert((b as int) * q + b == (b as int) * (q + 1)) by {
            vstd::arithmetic::mul::lemma_mul_is_distributive_add(b as int, q, 1);
        }
        vstd::arithmetic::div_mod::lemma_mod_multiples_basic(q + 1, b as int);
        assert(((b as int) * (q + 1)) % (b as int) == 0) by {
            vstd::arithmetic::mul::lemma_mul_is_commutative(b as int, q + 1);
        }
    }
}

/// The tree an input produces is well formed, has pairwise distinct leaf
/// values, and holds every block of the padded input in a leaf.
pub proof fn lemma_tree_of_props(s: Seq<u8>, b: nat)
    requires
        1 <= b,
    ensures
        wf_tree(tree_of(s, b), b),
        tree_distinct(tree_of(s, b)),
        forall|x: int|
            0 <= x < blocks_of(padded(s, b), b).len() ==> contains_val(
                tree_of(s, b),
                #[trigger] blocks_of(padded(s, b), b)[x],
            ),
{
    let p = padded(s, b);
    let blks = blocks_of(p, b);
    let t = tree_of(s, b);
    assert forall|x: int| 0 <= x < blks.len() implies (#[trigger] blks[x]).len() == b by {
        vstd::arithmetic::div_mod::lemma_fundamental_div_mod(p.len() as int, b as int);
        assert((x + 1) * (b as int) <= (p.len() as int / b as int) * (b as int)) by {
            vstd::arithmetic::mul::lemma_mul_inequality(
                x + 1,
                p.len() as int / b as int,
                b as int,
            );
        }
        assert((p.len() as int / b as int) * (b as int) <= p.len() as int) by {
            vstd::arithmetic::mul::lemma_mul_is_commutative(
                p.len() as int / b as int,
                b as int,
            );
        }
        assert((x + 1) * (b as int) == x * (b as int) + b) by {
            vstd::arithmetic::mul::lemma_mul_is_distributive_add_other_way(b as int, x, 1);
        }
    }
    lemma_count_blocks_props(blks, b);
    let cl = count_blocks(blks);
    if blks.len() == 0 {
        assert(t == HTree::Leaf { val: zero_bytes(b) });
        assert(zero_bytes(b).len() == b);
    } else {
        let init = leaves_of(cl);
        assert(cl.len() >= 1) by {
            assert(blocks_have(blks, blks[0]));
            assert(counted_has(cl, blks[0]));
        }
        assert(init.len() == cl.len());
        assert(forall|x: int|
            0 <= x < init.len() ==> #[trigger] init[x] == (HTree::Leaf { val: cl[x].0 }, cl[x].1));
        assert(all_wf(init, b)) by {
            assert forall|x: int| 0 <= x < init.len() implies wf_tree(
                #[trigger] init[x].0,
                b,
            ) by {
                assert(init[x].0 == HTree::Leaf { val: cl[x].0 });
            }
        }
        assert(all_distinct(init)) by {
            assert forall|x: int| 0 <= x < init.len() implies tree_distinct(
                #[trigger] init[x].0,
            ) by {
                assert(init[x].0 is Leaf);
            }
        }
        assert(list_disjoint(init)) by {
            assert forall|x: int, y: int, v: Seq<u8>|
                0 <= x < init.len() && 0 <= y < init.len() && x != y implies !(
            #[trigger] contains_val(init[x].0, v) && #[trigger] contains_val(init[y].0, v)) by {
                if contains_val(init[x].0, v) && contains_val(init[y].0, v) {
                    assert(cl[x].0 == v && cl[y].0 == v);
                    assert(false);
                }
            }
        }
        lemma_build_props(init, b);
        assert(t == build_tree(init));
        assert forall|x: int| 0 <= x < blks.len() implies contains_val(
            t,
            #[trigger] blks[x],
        ) by {
            assert(blocks_have(blks, blks[x]));
            assert(counted_has(cl, blks[x]));
            let e = choose|e: int| 0 <= e < cl.len() && (#[trigger] cl[e]).0 == blks[x];
            assert(contains_val(init[e].0, blks[x]));
            assert(list_contains(init, blks[x]));
        }
    }
}

/// THE ROUND TRIP, padded form: decoding an encoded input gives the input
/// back, zero-padded to the next multiple of the block size.  The block count
/// must fit the container's 32-bit count field.
pub proof fn lemma_round_trip_padded(s: Seq<u8>, b: nat)
    requires
        1 <= b,
        blocks_of(padded(s, b), b).len() < 0x1_0000_0000,
    ensures
        spec_decode(spec_encode(s, b), b) == Some(padded(s, b)),
{
    let p = padded(s, b);
    let blks = blocks_of(p, b);
    let t = tree_of(s, b);
    let tab = code_table(t);
    lemma_padded_props(s, b);
    lemma_tree_of_props(s, b);
    lemma_tree_distinct_table(t);
    assert forall|x: int| 0 <= x < blks.len() implies has_val(tab, #[trigger] blks[x]) by {
        lemma_contains_has_val(t, blks[x]);
    }
    let ser = ser_tree(t);
    let cnt = to_bits(blks.len(), 32);
    let body = body_bits_of(tab, blks);
    let cb = container_bits(s, b);
    assert(cb == ser + cnt + body);
    crate::bits::lemma_to_bits_len(blks.len(), 32);
    assert(cb.len() == ser.len() + 32 + body.len());
    crate::bits::lemma_unpack_pack(cb);
    let padz = crate::bits::zeros(crate::bits::pad_bits(cb.len()));
    let bits = bytes_bits(pack(cb));
    assert(bits == cb + padz);
    assert(forall|x: int| 0 <= x < cb.len() ==> bits[x] == #[trigger] cb[x]);
    // the tree reads back
    assert(cb.subrange(0, ser.len() as int) =~= ser) by {
        assert(forall|x: int| 0 <= x < ser.len() ==> cb[x] == #[trigger] ser[x]);
    }
    lemma_deser_ser(t, b, cb, 0);
    lemma_deser_ext(cb, padz, 0, b);
    let i = ser.len() as int;
    assert(deser_tree(bits, 0, b) == Some((t, ser.len())));
    // the count reads back
    assert(bits.subrange(i, i + 32) =~= cnt) by {
        assert(forall|x: int| 0 <= x < 32 ==> #[trigger] cnt[x] == cb[i + x]);
    }
    assert(pow2(32) == 0x1_0000_0000) by {
        vstd::arithmetic::power2::lemma2_to64();
    }
    crate::bits::lemma_from_to_bits(blks.len(), 32);
    assert(from_bits(bits.subrange(i, i + 32)) == blks.len());
    // the body reads back
    assert(cb.subrange(i + 32, i + 32 + body.len() as int) =~= body) by {
        assert(forall|x: int| 0 <= x < body.len() ==> #[trigger] body[x] == cb[i + 32 + x]);
    }
    lemma_decode_body_of(t, cb, (i + 32) as nat, blks);
    lemma_body_ext(t, cb, padz, (i + 32) as nat, blks.len());
    assert(decode_body(t, bits, (i + 32) as nat, blks.len()) == Some(
        (concat_blocks(blks), cb.len()),
    ));
    lemma_concat_blocks_of(p, b);
    assert(spec_decode(pack(cb), b) == Some(p));
}

/// Round trip on block-aligned input: for any byte sequence whose length is a
/// multiple of the block size (and whose block count fits the 32-bit count
/// field), decoding the encoded container returns exactly the input.
pub proof fn lemma_round_trip(s: Seq<u8>, b: nat)
    requires
        1 <= b,
        s.len() % b == 0,
        s.len() / b < 0x1_0000_0000,
    ensures
        spec_decode(spec_encode(s, b), b) == Some(s),
{
    assert(padded(s, b) =~= s);
    lemma_round_trip_padded(s, b);
}

/// Round trip on the empty input: encoding no bytes and decoding the result
/// returns no bytes.
pub proof fn lemma_round_trip_empty(b: nat)
    requires
        1 <= b,
    ensures
        spec_decode(spec_encode(Seq::<u8>::empty(), b), b) == Some(Seq::<u8>::empty()),
{
    vstd::arithmetic::div_mod::lemma_small_mod(0, b);
    vstd::arithmetic::div_mod::lemma_basic_div(0, b as int);
    lemma_round_trip(Seq::<u8>::empty(), b);
}

proof fn lemma_count_same(blks: Seq<Seq<u8>>, v: Seq<u8>)
    requires
        blks.len() >= 1,
        forall|x: int| 0 <= x < blks.len() ==> #[trigger] blks[x] == v,
    ensures
        count_blocks(blks) == seq![(v, blks.len() as nat)],
    decreases blks.len(),
{
    if blks.len() == 1 {
        assert(count_blocks(blks.drop_last()) =~= Seq::<(Seq<u8>, nat)>::empty());
        assert(count_blocks(blks) =~= seq![(v, 1nat)]);
    } else {
        let rest = blks.drop_last();
        assert(forall|x: int| 0 <= x < rest.len() ==> #[trigger] rest[x] == blks[x]);
        lemma_count_same(rest, v);
        let prev = seq![(v, rest.len() as nat)];
        assert(first_val_idx(prev, v) == 0);
        assert(count_blocks(blks) == prev.update(0, prev.last()).drop_last().push(
            (v, rest.len() as nat + 1),
        ));
        assert(prev.update(0, prev.last()).drop_last() =~= Seq::<(Seq<u8>, nat)>::empty());
        assert(count_blocks(blks) =~= seq![(v, blks.len() as nat)]);
    }
}

proof fn lemma_body_same(tab: Seq<(Seq<u8>, Seq<bool>)>, blks: Seq<Seq<u8>>, v: Seq<u8>)
    requires
        tab.len() >= 1,
        tab[0] == (v, Seq::<bool>::empty()),
        forall|x: int| 0 <= x < blks.len() ==> #[trigger] blks[x] == v,
    ensures
        body_bits_of(tab, blks) == Seq::<bool>::empty(),
    decreases blks.len(),
{
    if blks.len() > 0 {
        assert(entry_for(tab, blks[0]) == Seq::<bool>::empty());
        assert(forall|x: int|
            0 <= x < blks.drop_first().len() ==> #[trigger] blks.drop_first()[x] == blks[x + 1]);
        lemma_body_same(tab, blks.drop_first(), v);
        assert(body_bits_of(tab, blks) =~= Seq::<bool>::empty());
    }
}

/// An input made of one repeated block value: the tree is a bare leaf, the
/// body takes zero bits per block, and decoding still reproduces the input.
pub proof fn lemma_single_block(s: Seq<u8>, v: Seq<u8>, b: nat)
    requires
        1 <= b,
        v.len() == b,
        s.len() % b == 0,
        1 <= s.len() / b < 0x1_0000_0000,
        forall|x: int| 0 <= x < blocks_of(s, b).len() ==> #[trigger] blocks_of(s, b)[x] == v,
    ensures
        tree_of(s, b) == (HTree::Leaf { val: v }),
        body_bits_of(code_table(tree_of(s, b)), blocks_of(s, b)).len() == 0,
        spec_decode(spec_encode(s, b), b) == Some(s),
{
    assert(padded(s, b) =~= s);
    let blks = blocks_of(s, b);
    assert(blks.len() == s.len() / b);
    lemma_count_same(blks, v);
    let cl = count_blocks(blks);
    let init = leaves_of(cl);
    assert(init =~= seq![(HTree::Leaf { val: v }, blks.len() as nat)]);
    assert(tree_of(s, b) == build_tree(init));
    assert(build_tree(init) == init[0].0);
    assert(tree_of(s, b) == (HTree::Leaf { val: v }));
    let tab = code_table(tree_of(s, b));
    assert(tab == seq![(v, Seq::<bool>::empty())]);
    lemma_body_same(tab, blks, v);
    lemma_round_trip(s, b);
}

proof fn lemma_walk_cursor(t: HTree, bits: Seq<bool>, i: nat)
    requires
        i <= bits.len(),
    ensures
        match walk_tree(t, bits, i) {
            Some((v, j)) => i <= j <= bits.len(),
            None => true,
        },
    decreases t,
{
    match t {
        HTree::Leaf { .. } => {
        },
        HTree::Fork { esq, dir } => {
            if i < bits.len() {
                if bits[i as int] {
                    lemma_walk_cursor(*dir, bits, i + 1);
                } else {
                    lemma_walk_cursor(*esq, bits, i + 1);
                }
            }
        },
    }
}

proof fn lemma_body_cursor(t: HTree, bits: Seq<bool>, i: nat, n: nat)
    requires
        i <= bits.len(),
    ensures
        match decode_body(t, bits, i, n) {
            Some((o, k)) => i <= k <= bits.len(),
            None => true,
        },
    decreases n,
{
    if n > 0 {
        lemma_walk_cursor(t, bits, i);
        match walk_tree(t, bits, i) {
            Some((v, j)) => {
                lemma_body_cursor(t, bits, j, (n - 1) as nat);
            },
            None => {
            },
        }
    }
}

/// Cutting the last byte off a container makes decoding fail: the packing is
/// minimal, so the lost byte held at least one bit that a decode must read.
pub proof fn lemma_truncation(s: Seq<u8>, b: nat)
    requires
        1 <= b,
        blocks_of(padded(s, b), b).len() < 0x1_0000_0000,
    ensures
        spec_encode(s, b).len() >= 1,
        spec_decode(spec_encode(s, b).drop_last(), b) is None,
{
    let p = padded(s, b);
    let blks = blocks_of(p, b);
    let t = tree_of(s, b);
    let tab = code_table(t);
    lemma_padded_props(s, b);
    lemma_tree_of_props(s, b);
    lemma_tree_distinct_table(t);
    assert forall|x: int| 0 <= x < blks.len() implies has_val(tab, #[trigger] blks[x]) by {
        lemma_contains_has_val(t, blks[x]);
    }
    let ser = ser_tree(t);
    let cnt = to_bits(blks.len(), 32);
    let body = body_bits_of(tab, blks);
    let cb = container_bits(s, b);
    assert(cb == ser + cnt + body);
    crate::bits::lemma_to_bits_len(blks.len(), 32);
    lemma_ser_tree_pos(t);
    let tlen = cb.len();
    assert(tlen >= 1);
    let c = pack(cb);
    crate::bits::lemma_pack_len(cb);
    assert(8 * c.len() == tlen + crate::bits::pad_bits(tlen));
    assert(crate::bits::pad_bits(tlen) < 8);
    assert(c.len() >= 1);
    let m = 8 * (c.len() - 1);
    assert(m < tlen);
    // the truncated bits are a strict prefix of the container's bits
    let trunc = c.drop_last();
    assert(trunc.push(c.last()) =~= c);
    let bits_t = bytes_bits(trunc);
    crate::bits::lemma_unpack_pack(cb);
    let padz = crate::bits::zeros(crate::bits::pad_bits(tlen));
    let bits_full = bytes_bits(c);
    assert(bits_full == cb + padz);
    assert(bits_full == bits_t + byte_bits(c.last())) by {
        crate::bits::lemma_bytes_bits_append(trunc, seq![c.last()]);
        crate::bits::lemma_bytes_bits_one(c.last());
        assert(trunc + seq![c.last()] =~= c);
    }
    crate::bits::lemma_bytes_bits_len(trunc);
    crate::bits::lemma_to_bits_len(c.last() as nat, 8);
    assert(bits_t.len() == m);
    let ext = byte_bits(c.last());
    // what decoding the full container does (as in the round trip)
    assert(cb.subrange(0, ser.len() as int) =~= ser) by {
        assert(forall|x: int| 0 <= x < ser.len() ==> cb[x] == #[trigger] ser[x]);
    }
    lemma_deser_ser(t, b, cb, 0);
    lemma_deser_ext(cb, padz, 0, b);
    assert(deser_tree(bits_full, 0, b) == Some((t, ser.len())));
    let i = ser.len() as int;
    assert(cb.subrange(i + 32, i + 32 + body.len() as int) =~= body) by {
        assert(forall|x: int| 0 <= x < body.len() ==> #[trigger] body[x] == cb[i + 32 + x]);
    }
    lemma_decode_body_of(t, cb, (i + 32) as nat, blks);
    lemma_body_ext(t, cb, padz, (i + 32) as nat, blks.len());
    assert(decode_body(t, bits_full, (i + 32) as nat, blks.len()) == Some(
        (concat_blocks(blks), tlen as nat),
    ));
    // now suppose decoding the truncated container went through
    if spec_decode(trunc, b) is Some {
        match deser_tree(bits_t, 0, b) {
            None => {
                assert(spec_decode(trunc, b) is None);
            },
            Some((t2, j2)) => {
                lemma_deser_ext(bits_t, ext, 0, b);
                assert(bits_t + ext =~= bits_full);
                assert(deser_tree(bits_full, 0, b) == Some((t2, j2)));
                assert(t2 == t && j2 == ser.len());
                if j2 + 32 <= bits_t.len() {
                    let n2 = from_bits(bits_t.subrange(j2 as int, j2 as int + 32));
                    assert(bits_t.subrange(j2 as int, j2 as int + 32) =~= bits_full.subrange(
                        j2 as int,
                        j2 as int + 32,
                    )) by {
                        assert(forall|x: int|
                            0 <= x < bits_t.len() ==> bits_full[x] == #[trigger] bits_t[x]);
                    }
                    assert(bits_full.subrange(i, i + 32) =~= cnt) by {
                        assert(forall|x: int| 0 <= x < 32 ==> #[trigger] cnt[x] == cb[i + x]);
                    }
                    assert(pow2(32) == 0x1_0000_0000) by {
                        vstd::arithmetic::power2::lemma2_to64();
                    }
                    crate::bits::lemma_from_to_bits(blks.len(), 32);
                    assert(n2 == blks.len());
                    match decode_body(t, bits_t, (j2 + 32) as nat, n2) {
                        None => {
                            assert(spec_decode(trunc, b) is None);
                        },
                        Some((out, k)) => {
                            lemma_body_cursor(t, bits_t, (j2 + 32) as nat, n2);
                            assert(k <= bits_t.len());
                            lemma_body_ext(t, bits_t, ext, (j2 + 32) as nat, n2);
                            assert(decode_body(t, bits_full, (j2 + 32) as nat, n2) == Some(
                                (out, k),
                            ));
                            assert(k == tlen as nat);
                            assert(false);
                        },
                    }
                } else {
                    assert(spec_decode(trunc, b) is None);
                }
            },
        }
    }
}

// ---------------------------------------------------------------------------
// Size accounting: the bits the table generator charges for the body are the
// bits the emission loop appends.
// ---------------------------------------------------------------------------

/// How many blocks hold the value `v`.
pub open spec fn occ(blks: Seq<Seq<u8>>, v: Seq<u8>) -> nat
    decreases blks.len(),
{
    if blks.len() == 0 {
        0
    } else {
        occ(blks.drop_last(), v) + (if blks.last() == v {
            1nat
        } else {
            0nat
        })
    }
}

/// The body size computed before emission: for every table entry, the
/// occurrences of its block value times the length of its code.
pub open spec fn weighted_bits(tab: Seq<(Seq<u8>, Seq<bool>)>, blks: Seq<Seq<u8>>) -> nat
    decreases tab.len(),
{
    if tab.len() == 0 {
        0
    } else {
        occ(blks, tab[0].0) * tab[0].1.len() + weighted_bits(tab.drop_first(), blks)
    }
}

proof fn lemma_weighted_empty(tab: Seq<(Seq<u8>, Seq<bool>)>)
    ensures
        weighted_bits(tab, Seq::<Seq<u8>>::empty()) == 0,
    decreases tab.len(),
{
    if tab.len() > 0 {
        lemma_weighted_empty(tab.drop_first());
        assert(occ(Seq::<Seq<u8>>::empty(), tab[0].0) == 0);
        vstd::arithmetic::mul::lemma_mul_basics(tab[0].1.len() as int);
        assert(occ(Seq::<Seq<u8>>::empty(), tab[0].0) * tab[0].1.len() == 0);
    }
}

proof fn lemma_weighted_push_absent(tab: Seq<(Seq<u8>, Seq<bool>)>, a: Seq<Seq<u8>>, x: Seq<u8>)
    requires
        !has_val(tab, x),
    ensures
        weighted_bits(tab, a.push(x)) == weighted_bits(tab, a),
    decreases tab.len(),
{
    if tab.len() > 0 {
        assert(tab[0].0 != x);
        assert(occ(a.push(x), tab[0].0) == occ(a, tab[0].0)) by {
            assert(a.push(x).drop_last() =~= a);
        }
        assert(forall|e: int|
            0 <= e < tab.drop_first().len() ==> #[trigger] tab.drop_first()[e] == tab[e + 1]);
        assert(!has_val(tab.drop_first(), x));
        lemma_weighted_push_absent(tab.drop_first(), a, x);
    }
}

proof fn lemma_weighted_push(tab: Seq<(Seq<u8>, Seq<bool>)>, a: Seq<Seq<u8>>, x: Seq<u8>)
    requires
        crate::codes::distinct_vals(tab),
        has_val(tab, x),
    ensures
        weighted_bits(tab, a.push(x)) == weighted_bits(tab, a) + entry_for(tab, x).len(),
    decreases tab.len(),
{
    let tail = tab.drop_first();
    assert(forall|e: int| 0 <= e < tail.len() ==> #[trigger] tail[e] == tab[e + 1]);
    assert(a.push(x).drop_last() =~= a);
    if tab[0].0 == x {
        assert(occ(a.push(x), tab[0].0) == occ(a, tab[0].0) + 1);
        assert((occ(a, tab[0].0) + 1) * tab[0].1.len() == occ(a, tab[0].0) * tab[0].1.len()
            + tab[0].1.len()) by {
            vstd::arithmetic::mul::lemma_mul_is_distributive_add_other_way(
                tab[0].1.len() as int,
                occ(a, tab[0].0) as int,
                1,
            );
        }
        assert(!has_val(tail, x)) by {
            if has_val(tail, x) {
                let e = choose|e: int| 0 <= e < tail.len() && tail[e].0 == x;
                assert(tab[e + 1].0 == x && tab[0].0 == x);
                assert(false);
            }
        }
        lemma_weighted_push_absent(tail, a, x);
        assert(entry_for(tab, x) == tab[0].1);
    } else {
        assert(occ(a.push(x), tab[0].0) == occ(a, tab[0].0));
        assert(has_val(tail, x)) by {
            let e = choose|e: int| 0 <= e < tab.len() && tab[e].0 == x;
            assert(tail[e - 1].0 == x);
        }
        assert(crate::codes::distinct_vals(tail));
        lemma_weighted_push(tail, a, x);
        assert(entry_for(tab, x) == entry_for(tail, x));
    }
}

/// The size accounted for before emission equals the emitted body's length:
/// summing occurrences times code length over the table gives exactly the
/// number of bits the per-block emission appends.
pub proof fn lemma_size_accounting(t: HTree, blks: Seq<Seq<u8>>)
    requires
        tree_distinct(t),
        forall|x: int| 0 <= x < blks.len() ==> contains_val(t, #[trigger] blks[x]),
    ensures
        weighted_bits(code_table(t), blks) == body_bits_of(code_table(t), blks).len(),
    decreases blks.len(),
{
    let tab = code_table(t);
    lemma_tree_distinct_table(t);
    if blks.len() == 0 {
        assert(blks =~= Seq::<Seq<u8>>::empty());
        lemma_weighted_empty(tab);
    } else {
        let a = blks.drop_last();
        let x = blks.last();
        assert(forall|y: int| 0 <= y < a.len() ==> #[trigger] a[y] == blks[y]);
        lemma_size_accounting(t, a);
        assert(a.push(x) =~= blks);
        lemma_body_append(tab, a, x);
        lemma_contains_has_val(t, x);
        lemma_weighted_push(tab, a, x);
        assert(weighted_bits(tab, blks) == weighted_bits(tab, a) + entry_for(tab, x).len());
        assert(body_bits_of(tab, blks).len() == body_bits_of(tab, a).len() + entry_for(
            tab,
            x,
        ).len());
    }
}

} // verus!
