//! The code table: one prefix code per leaf, generated by a depth-first walk
//! of the finished tree, sorted by block value and searched by binary search
//! at encode time.

use vstd::prelude::*;

use crate::bits::{bv_bits, bv_clone, bv_len, bv_pop, bv_push, BitBuf, BIT_CAPACITY};
use crate::tree::{spec_cmp, HTree, Node};

verus! {

/// The height of a tree: the length of its longest root-to-leaf path.
pub open spec fn height(t: HTree) -> nat
    decreases t,
{
    match t {
        HTree::Leaf { .. } => 0,
        HTree::Fork { esq, dir } => 1 + if height(*esq) >= height(*dir) {
            height(*esq)
        } else {
            height(*dir)
        },
    }
}

/// A node's shape is settled: a leaf carries a value, an internal node both
/// children (leaf values may have any length here).
pub open spec fn shaped(n: Node) -> bool
    decreases n,
{
    match n.valor {
        Some(_) => n.esq is None && n.dir is None,
        None => match (n.esq, n.dir) {
            (Some(e), Some(d)) => shaped(*e) && shaped(*d),
            _ => false,
        },
    }
}

/// The body bits the subtree will need: for every leaf, its frequency times
/// its depth below the given starting depth.
pub open spec fn node_body_bits(n: Node, depth: nat) -> nat
    decreases n,
{
    match n.valor {
        Some(_) => n.freq as nat * depth,
        None => (match n.esq {
            Some(e) => node_body_bits(*e, depth + 1),
            None => 0,
        }) + (match n.dir {
            Some(d) => node_body_bits(*d, depth + 1),
            None => 0,
        }),
    }
}

/// A well-formed node is in particular settled in shape.
pub proof fn lemma_wf_shaped(n: Node, b: nat)
    requires
        n.wf(b),
    ensures
        shaped(n),
    decreases n,
{
    match n.valor {
        Some(_) => {
        },
        None => {
            match (n.esq, n.dir) {
                (Some(e), Some(d)) => {
                    lemma_wf_shaped(*e, b);
                    lemma_wf_shaped(*d, b);
                },
                _ => {
                },
            }
        },
    }
}

/// The code table of a tree, in depth-first order: every leaf's block value
/// paired with its bit path from the root (`false` = left, `true` = right).
pub open spec fn code_table(t: HTree) -> Seq<(Seq<u8>, Seq<bool>)>
    decreases t,
{
    match t {
        HTree::Leaf { val } => seq![(val, Seq::<bool>::empty())],
        HTree::Fork { esq, dir } => code_table(*esq).map_values(
            |e: (Seq<u8>, Seq<bool>)| (e.0, seq![false] + e.1),
        ) + code_table(*dir).map_values(|e: (Seq<u8>, Seq<bool>)| (e.0, seq![true] + e.1)),
    }
}

/// A table's entries with a path prefix put in front of every code.
pub open spec fn with_prefix(p: Seq<bool>, tab: Seq<(Seq<u8>, Seq<bool>)>) -> Seq<
    (Seq<u8>, Seq<bool>),
> {
    tab.map_values(|e: (Seq<u8>, Seq<bool>)| (e.0, p + e.1))
}

/// The view of an executable code-table entry.
pub open spec fn dict_view(d: Seq<(Vec<u8>, BitBuf)>) -> Seq<(Seq<u8>, Seq<bool>)> {
    d.map_values(|e: (Vec<u8>, BitBuf)| (e.0@, bv_bits(e.1)))
}

pub proof fn lemma_with_prefix_fork(p: Seq<bool>, esq: HTree, dir: HTree)
    ensures
        with_prefix(p, code_table(HTree::Fork { esq: Box::new(esq), dir: Box::new(dir) }))
            =~= with_prefix(p.push(false), code_table(esq)) + with_prefix(
            p.push(true),
            code_table(dir),
        ),
{
    let t = HTree::Fork { esq: Box::new(esq), dir: Box::new(dir) };
    let le = code_table(esq);
    let ld = code_table(dir);
    assert forall|i: int| 0 <= i < le.len() + ld.len() implies with_prefix(p, code_table(t))[i]
        == (with_prefix(p.push(false), le) + with_prefix(p.push(true), ld))[i] by {
        if i < le.len() {
            assert(code_table(t)[i] == (le[i].0, seq![false] + le[i].1));
            assert(p + (seq![false] + le[i].1) =~= (p.push(false)) + le[i].1);
        } else {
            let j = i - le.len();
            assert(code_table(t)[i] == (ld[j].0, seq![true] + ld[j].1));
            assert(p + (seq![true] + ld[j].1) =~= (p.push(true)) + ld[j].1);
        }
    }
}

/// Whether `p` is a prefix of `q`.
pub open spec fn is_prefix_of(p: Seq<bool>, q: Seq<bool>) -> bool {
    p.len() <= q.len() && q.take(p.len() as int) == p
}

proof fn lemma_prefix_push(bit: bool, p: Seq<bool>, q: Seq<bool>)
    ensures
        is_prefix_of(seq![bit] + p, seq![bit] + q) <==> is_prefix_of(p, q),
{
    let pp = seq![bit] + p;
    let qq = seq![bit] + q;
    if p.len() <= q.len() {
        assert((seq![bit] + q).take(pp.len() as int) =~= seq![bit] + q.take(p.len() as int));
        if is_prefix_of(p, q) {
            assert(qq.take(pp.len() as int) =~= pp);
        }
        if is_prefix_of(pp, qq) {
            assert(q.take(p.len() as int) =~= p) by {
                assert(forall|j: int|
                    0 <= j < p.len() ==> q.take(p.len() as int)[j] == qq.take(pp.len() as int)[j
                        + 1]);
            }
        }
    }
}

/// No code in a tree's table is a prefix of another code in the same table:
/// every code ends at a leaf, and a leaf has no descendants.
pub proof fn lemma_prefix_free(t: HTree)
    ensures
        forall|i: int, j: int|
            0 <= i < code_table(t).len() && 0 <= j < code_table(t).len() && i != j
                ==> !is_prefix_of(#[trigger] code_table(t)[i].1, #[trigger] code_table(t)[j].1),
    decreases t,
{
    match t {
        HTree::Leaf { .. } => {
        },
        HTree::Fork { esq, dir } => {
            lemma_prefix_free(*esq);
            lemma_prefix_free(*dir);
            let le = code_table(*esq);
            let ld = code_table(*dir);
            let tab = code_table(t);
            assert(tab.len() == le.len() + ld.len());
            assert forall|i: int, j: int|
                0 <= i < tab.len() && 0 <= j < tab.len() && i != j implies !is_prefix_of(
                tab[i].1,
                tab[j].1,
            ) by {
                if i < le.len() && j < le.len() {
                    assert(tab[i].1 == seq![false] + le[i].1);
                    assert(tab[j].1 == seq![false] + le[j].1);
                    lemma_prefix_push(false, le[i].1, le[j].1);
                } else if i >= le.len() && j >= le.len() {
                    assert(tab[i].1 == seq![true] + ld[i - le.len()].1);
                    assert(tab[j].1 == seq![true] + ld[j - le.len()].1);
                    lemma_prefix_push(true, ld[i - le.len()].1, ld[j - le.len()].1);
                } else {
                    assert(tab[i].1.len() > 0 && tab[j].1.len() > 0);
                    assert(tab[i].1[0] != tab[j].1[0]);
                    if is_prefix_of(tab[i].1, tab[j].1) {
                        assert(tab[j].1.take(tab[i].1.len() as int)[0] == tab[j].1[0]);
                    }
                }
            }
        },
    }
}

/// The first code paired with the value in the table (the empty path when the
/// value is absent).
pub open spec fn entry_for(tab: Seq<(Seq<u8>, Seq<bool>)>, v: Seq<u8>) -> Seq<bool>
    decreases tab.len(),
{
    if tab.len() == 0 {
        Seq::empty()
    } else if tab[0].0 == v {
        tab[0].1
    } else {
        entry_for(tab.drop_first(), v)
    }
}

/// Whether the table has an entry for the value.
pub open spec fn has_val(tab: Seq<(Seq<u8>, Seq<bool>)>, v: Seq<u8>) -> bool {
    exists|i: int| 0 <= i < tab.len() && tab[i].0 == v
}

/// The entry that `entry_for` names really is in the table.
pub proof fn lemma_entry_for_present(tab: Seq<(Seq<u8>, Seq<bool>)>, v: Seq<u8>)
    requires
        has_val(tab, v),
    ensures
        exists|i: int| 0 <= i < tab.len() && tab[i] == (v, entry_for(tab, v)),
    decreases tab.len(),
{
    if tab[0].0 == v {
        assert(tab[0] == (v, entry_for(tab, v)));
    } else {
        let k = choose|i: int| 0 <= i < tab.len() && tab[i].0 == v;
        assert(tab.drop_first()[k - 1].0 == v);
        lemma_entry_for_present(tab.drop_first(), v);
        let j = choose|i: int|
            0 <= i < tab.drop_first().len() && tab.drop_first()[i] == (
            v,
            entry_for(tab.drop_first(), v),
            );
        assert(tab[j + 1] == (v, entry_for(tab, v)));
    }
}

/// No two entries share a value.
pub open spec fn distinct_vals(tab: Seq<(Seq<u8>, Seq<bool>)>) -> bool {
    forall|i: int, j: int|
        0 <= i < tab.len() && 0 <= j < tab.len() && i != j ==> #[trigger] tab[i].0 != #[trigger] tab[j].0
}

/// With distinct values, any entry holding the value carries its unique code.
pub proof fn lemma_entry_for_unique(tab: Seq<(Seq<u8>, Seq<bool>)>, v: Seq<u8>, k: int)
    requires
        distinct_vals(tab),
        0 <= k < tab.len(),
        tab[k].0 == v,
    ensures
        entry_for(tab, v) == tab[k].1,
    decreases tab.len(),
{
    if k == 0 {
    } else {
        assert(tab[0].0 != v);
        assert(distinct_vals(tab.drop_first())) by {
            assert(forall|i: int|
                0 <= i < tab.drop_first().len() ==> tab.drop_first()[i] == tab[i + 1]);
        }
        assert(tab.drop_first()[k - 1].0 == v);
        lemma_entry_for_unique(tab.drop_first(), v, k - 1);
    }
}

/// Generates the code table of the subtree under `tree`, every code prefixed
/// by the current path, and returns the body bits its blocks will need:
/// the sum over its leaves of frequency times code length.
pub(crate) fn generate_codes(
    tree: &Node,
    lista: &mut Vec<(Vec<u8>, BitBuf)>,
    caminho: &mut BitBuf,
) -> (r: usize)
    requires
        shaped(*tree),
        node_body_bits(*tree, bv_bits(*old(caminho)).len()) <= usize::MAX,
        bv_bits(*old(caminho)).len() + height(tree.tree()) <= BIT_CAPACITY,
    ensures
        r == node_body_bits(*tree, bv_bits(*old(caminho)).len()),
        bv_bits(*final(caminho)) == bv_bits(*old(caminho)),
        dict_view(final(lista)@) == dict_view(old(lista)@) + with_prefix(
            bv_bits(*old(caminho)),
            code_table(tree.tree()),
        ),
    decreases *tree,
{
    let ghost p = bv_bits(*caminho);
    match (&tree.esq, &tree.dir) {
        (Some(esq), Some(dir)) => {
            proof {
                assert(tree.valor is None);
                assert(tree.tree() == HTree::Fork {
                    esq: Box::new(esq.tree()),
                    dir: Box::new(dir.tree()),
                });
            }
            bv_push(caminho, false);
            proof {
                assert(bv_bits(*caminho) =~= p.push(false));
                assert(bv_bits(*caminho).len() == p.len() + 1);
            }
            let bits_esq = generate_codes(esq, lista, caminho);
            let _dropped = bv_pop(caminho);
            proof {
                assert(p.push(false).drop_last() =~= p);
            }
            bv_push(caminho, true);
            proof {
                assert(bv_bits(*caminho) =~= p.push(true));
            }
            let bits_dir = generate_codes(dir, lista, caminho);
            let _dropped = bv_pop(caminho);
            proof {
                assert(p.push(true).drop_last() =~= p);
                lemma_with_prefix_fork(p, esq.tree(), dir.tree());
                assert(dict_view(lista@) =~= dict_view(old(lista)@) + with_prefix(
                    p,
                    code_table(tree.tree()),
                ));
            }
            bits_esq + bits_dir
        },
        _ => {
            let val: Vec<u8> = match &tree.valor {
                Some(v) => copy_bytes(v),
                None => {
                    proof {
                        assert(false);
                    }
                    Vec::new()
                },
            };
            let code = bv_clone(caminho);
            let depth = bv_len(caminho);
            lista.push((val, code));
            proof {
                assert(code_table(tree.tree()) =~= seq![(val@, Seq::<bool>::empty())]);
                assert(p + Seq::<bool>::empty() =~= p);
                assert(with_prefix(p, code_table(tree.tree())) =~= seq![(val@, p)]);
                assert(dict_view(lista@) =~= dict_view(old(lista)@) + with_prefix(
                    p,
                    code_table(tree.tree()),
                ));
            }
            tree.freq * depth
        },
    }
}

/// A byte-for-byte copy of a block value.
pub(crate) fn copy_bytes(v: &Vec<u8>) -> (r: Vec<u8>)
    ensures
        r@ == v@,
{
    let mut out: Vec<u8> = Vec::new();
    let mut i: usize = 0;
    while i < v.len()
        invariant
            i <= v@.len(),
            out@ == v@.take(i as int),
        decreases v@.len() - i,
    {
        out.push(v[i]);
        i = i + 1;
        proof {
            assert(out@ =~= v@.take(i as int));
        }
    }
    proof {
        assert(v@.take(v@.len() as int) =~= v@);
    }
    out
}

// ---------------------------------------------------------------------------
// Sorting the table and looking codes up.
// ---------------------------------------------------------------------------

/// Values appear in ascending block-value order.
pub open spec fn sorted_vals(tab: Seq<(Seq<u8>, Seq<bool>)>) -> bool {
    forall|i: int, j: int|
        0 <= i < j < tab.len() ==> spec_cmp(#[trigger] tab[i].0, #[trigger] tab[j].0)
            != core::cmp::Ordering::Greater
}

/// All values in the table are `b` bytes long.
pub open spec fn uniform_vals(tab: Seq<(Seq<u8>, Seq<bool>)>, b: nat) -> bool {
    forall|i: int| 0 <= i < tab.len() ==> (#[trigger] tab[i].0).len() == b
}

/// `Less` is transitive over values of one length, also through an `Equal`.
proof fn lemma_less_trans(a: Seq<u8>, x: Seq<u8>, c: Seq<u8>, b: nat)
    requires
        a.len() == b && x.len() == b && c.len() == b,
        spec_cmp(a, x) != core::cmp::Ordering::Greater,
        spec_cmp(x, c) == core::cmp::Ordering::Less,
    ensures
        spec_cmp(a, c) == core::cmp::Ordering::Less,
{
    if spec_cmp(a, x) == core::cmp::Ordering::Equal {
        crate::tree::lemma_cmp_eq(a, x);
    } else {
        crate::tree::lemma_cmp_from_trans(a, x, c, b);
    }
}

/// As above, with the `Less` on the left.
proof fn lemma_less_trans_left(a: Seq<u8>, x: Seq<u8>, c: Seq<u8>, b: nat)
    requires
        a.len() == b && x.len() == b && c.len() == b,
        spec_cmp(a, x) == core::cmp::Ordering::Less,
        spec_cmp(x, c) != core::cmp::Ordering::Greater,
    ensures
        spec_cmp(a, c) == core::cmp::Ordering::Less,
{
    if spec_cmp(x, c) == core::cmp::Ordering::Equal {
        crate::tree::lemma_cmp_eq(x, c);
    } else {
        crate::tree::lemma_cmp_from_trans(a, x, c, b);
    }
}

/// Sorts the table by block value with a selection sort: repeatedly move the
/// smallest remaining entry to the end of the sorted part.
pub(crate) fn sort_dicionario(dic: &mut Vec<(Vec<u8>, BitBuf)>, Ghost(b): Ghost<nat>)
    requires
        uniform_vals(dict_view(old(dic)@), b),
    ensures
        sorted_vals(dict_view(final(dic)@)),
        uniform_vals(dict_view(final(dic)@), b),
        dict_view(final(dic)@).to_multiset() == dict_view(old(dic)@).to_multiset(),
{
    broadcast use vstd::seq_lib::group_to_multiset_ensures;

    let ghost orig = dict_view(dic@);
    let mut out: Vec<(Vec<u8>, BitBuf)> = Vec::new();
    proof {
        assert(dict_view(out@) =~= Seq::<(Seq<u8>, Seq<bool>)>::empty());
        assert(dict_view(out@).to_multiset().add(dict_view(dic@).to_multiset())
            =~= orig.to_multiset());
    }
    while dic.len() > 0
        invariant
            uniform_vals(dict_view(dic@), b),
            uniform_vals(dict_view(out@), b),
            sorted_vals(dict_view(out@)),
            forall|i: int, j: int|
                0 <= i < out@.len() && 0 <= j < dic@.len() ==> spec_cmp(
                    #[trigger] dict_view(out@)[i].0,
                    #[trigger] dict_view(dic@)[j].0,
                ) != core::cmp::Ordering::Greater,
            dict_view(out@).to_multiset().add(dict_view(dic@).to_multiset()) == orig.to_multiset(),
        decreases dic@.len(),
    {
        let ghost dv = dict_view(dic@);
        let mut m: usize = 0;
        let mut i: usize = 1;
        proof {
            crate::tree::lemma_cmp_eq(dv[0].0, dv[0].0);
        }
        while i < dic.len()
            invariant
                dv == dict_view(dic@),
                dv.len() == dic@.len(),
                uniform_vals(dv, b),
                dic@.len() > 0,
                0 <= m < i,
                i <= dic@.len(),
                forall|j: int|
                    0 <= j < i ==> spec_cmp(dv[m as int].0, #[trigger] dv[j].0)
                        != core::cmp::Ordering::Greater,
            decreases dic@.len() - i,
        {
            let c = crate::tree::cmp_byte_arrays(dic[i].0.as_slice(), dic[m].0.as_slice());
            match c {
                core::cmp::Ordering::Less => {
                    proof {
                        assert(spec_cmp(dv[i as int].0, dv[m as int].0)
                            == core::cmp::Ordering::Less);
                        assert forall|j: int| 0 <= j <= i implies spec_cmp(
                            dv[i as int].0,
                            #[trigger] dv[j].0,
                        ) != core::cmp::Ordering::Greater by {
                            if j < i {
                                lemma_less_trans_left(dv[i as int].0, dv[m as int].0, dv[j].0, b);
                            } else {
                                crate::tree::lemma_cmp_eq(dv[i as int].0, dv[i as int].0);
                            }
                        }
                    }
                    m = i;
                },
                _ => {
                    proof {
                        assert forall|j: int| 0 <= j <= i implies spec_cmp(
                            dv[m as int].0,
                            #[trigger] dv[j].0,
                        ) != core::cmp::Ordering::Greater by {
                            if j == i {
                                crate::tree::lemma_cmp_from_antisym(
                                    dv[i as int].0,
                                    dv[m as int].0,
                                    b,
                                );
                            }
                        }
                    }
                },
            }
            i = i + 1;
        }
        let ghost prev_out = dict_view(out@);
        let ghost prev_dic = dict_view(dic@);
        let picked = dic.remove(m);
        out.push(picked);
        proof {
            let e = (picked.0@, bv_bits(picked.1));
            assert(e == prev_dic[m as int]);
            prev_out.to_multiset_ensures();
            prev_dic.to_multiset_ensures();
            assert(dict_view(out@) =~= prev_out.push(e));
            assert(dict_view(dic@) =~= prev_dic.remove(m as int));
            assert(prev_out.push(e).to_multiset() =~= prev_out.to_multiset().insert(e));
            assert(dict_view(out@).to_multiset() == prev_out.to_multiset().insert(e));
            assert(prev_dic.remove(m as int).to_multiset() =~= prev_dic.to_multiset().remove(
                prev_dic[m as int],
            ));
            assert(dict_view(dic@).to_multiset() == prev_dic.to_multiset().remove(e));
            assert(prev_dic.to_multiset().count(e) > 0) by {
                assert(prev_dic.contains(e));
            }
            assert(dict_view(out@).to_multiset().add(dict_view(dic@).to_multiset())
                =~= orig.to_multiset());
            // order facts for the grown sorted part
            assert forall|x: int, y: int|
                0 <= x < y < dict_view(out@).len() implies spec_cmp(
                dict_view(out@)[x].0,
                dict_view(out@)[y].0,
            ) != core::cmp::Ordering::Greater by {
                if y < prev_out.len() {
                    assert(dict_view(out@)[x] == prev_out[x]);
                    assert(dict_view(out@)[y] == prev_out[y]);
                    assert(sorted_vals(prev_out));
                } else {
                    assert(dict_view(out@)[x] == prev_out[x]);
                    assert(dict_view(out@)[y] == e);
                    assert(spec_cmp(prev_out[x].0, prev_dic[m as int].0)
                        != core::cmp::Ordering::Greater);
                }
            }
            assert forall|x: int, j: int|
                0 <= x < dict_view(out@).len() && 0 <= j < dict_view(dic@).len() implies spec_cmp(
                dict_view(out@)[x].0,
                dict_view(dic@)[j].0,
            ) != core::cmp::Ordering::Greater by {
                let jj = if j < m { j } else { j + 1 };
                assert(dict_view(dic@)[j] == prev_dic[jj]);
                if x < prev_out.len() {
                    assert(dict_view(out@)[x] == prev_out[x]);
                    assert(spec_cmp(prev_out[x].0, prev_dic[jj].0)
                        != core::cmp::Ordering::Greater);
                } else {
                    assert(dict_view(out@)[x] == e);
                    assert(spec_cmp(prev_dic[m as int].0, prev_dic[jj].0)
                        != core::cmp::Ordering::Greater);
                }
            }
        }
    }
    let ghost final_out = dict_view(out@);
    proof {
        assert(dict_view(dic@) =~= Seq::<(Seq<u8>, Seq<bool>)>::empty());
        assert(final_out.to_multiset().add(dict_view(dic@).to_multiset())
            =~= final_out.to_multiset());
    }
    let mut swapped = out;
    core::mem::swap(dic, &mut swapped);
}

/// Binary search over the sorted table: the code paired with the block value,
/// or `None` when the value has no entry.
pub(crate) fn busca_binaria_dicionario<'a>(
    dic: &'a Vec<(Vec<u8>, BitBuf)>,
    valor: &[u8],
    Ghost(b): Ghost<nat>,
) -> (r: Option<&'a BitBuf>)
    requires
        sorted_vals(dict_view(dic@)),
        uniform_vals(dict_view(dic@), b),
        valor@.len() == b,
    ensures
        match r {
            Some(code) => has_val(dict_view(dic@), valor@) && dict_view(dic@).contains(
                (valor@, bv_bits(*code)),
            ),
            None => !has_val(dict_view(dic@), valor@),
        },
{
    let ghost dv = dict_view(dic@);
    let mut esq: usize = 0;
    let mut dir: usize = dic.len();
    while esq < dir
        invariant
            dv == dict_view(dic@),
            dv.len() == dic@.len(),
            sorted_vals(dv),
            uniform_vals(dv, b),
            valor@.len() == b,
            0 <= esq <= dir <= dv.len(),
            forall|i: int| 0 <= i < esq ==> spec_cmp(#[trigger] dv[i].0, valor@)
                == core::cmp::Ordering::Less,
            forall|i: int| dir <= i < dv.len() ==> spec_cmp(#[trigger] dv[i].0, valor@)
                == core::cmp::Ordering::Greater,
        decreases dir - esq,
    {
        let meio = esq + (dir - esq) / 2;
        let c = crate::tree::cmp_byte_arrays(dic[meio].0.as_slice(), valor);
        match c {
            core::cmp::Ordering::Less => {
                proof {
                    assert forall|i: int| 0 <= i < meio + 1 implies spec_cmp(
                        #[trigger] dv[i].0,
                        valor@,
                    ) == core::cmp::Ordering::Less by {
                        if i < meio {
                            lemma_less_trans(dv[i].0, dv[meio as int].0, valor@, b);
                        }
                    }
                }
                esq = meio + 1;
            },
            core::cmp::Ordering::Greater => {
                proof {
                    crate::tree::lemma_cmp_from_antisym(valor@, dv[meio as int].0, b);
                    assert forall|i: int| meio <= i < dv.len() implies spec_cmp(
                        #[trigger] dv[i].0,
                        valor@,
                    ) == core::cmp::Ordering::Greater by {
                        if i > meio {
                            assert(spec_cmp(dv[meio as int].0, dv[i].0)
                                != core::cmp::Ordering::Greater);
                            lemma_less_trans_left(valor@, dv[meio as int].0, dv[i].0, b);
                            crate::tree::lemma_cmp_from_antisym(valor@, dv[i].0, b);
                        }
                    }
                }
                dir = meio;
            },
            core::cmp::Ordering::Equal => {
                proof {
                    crate::tree::lemma_cmp_eq(dv[meio as int].0, valor@);
                    assert(dv[meio as int] == (valor@, bv_bits(dic@[meio as int].1)));
                    assert(dv.contains((valor@, bv_bits(dic@[meio as int].1))));
                }
                return Some(&dic[meio].1);
            },
        }
    }
    proof {
        assert forall|i: int| 0 <= i < dv.len() implies dv[i].0 != valor@ by {
            crate::tree::lemma_cmp_eq(dv[i].0, valor@);
        }
    }
    None
}

} // verus!
