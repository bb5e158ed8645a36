//! Stable ordering of integer keys, best first.
use vstd::prelude::*;
use vstd::seq_lib::{to_multiset_build, to_multiset_insert, to_multiset_remove, to_multiset_len,
    to_multiset_contains};

verus! {

/// Whether key `a` ranks strictly ahead of key `b`: the larger key when `descending`,
/// the smaller one otherwise.
pub open spec fn better(a: int, b: int, descending: bool) -> bool {
    if descending {
        a > b
    } else {
        a < b
    }
}

/// Position `i` comes before position `j` in a stable ordering of `keys`: its key is
/// strictly better, or the keys are equal and `i` came first in the input.
pub open spec fn precedes(keys: Seq<int>, descending: bool, i: int, j: int) -> bool {
    better(keys[i], keys[j], descending) || (keys[i] == keys[j] && i < j)
}

/// The positions `0, 1, ..., n - 1`.
pub open spec fn index_seq(n: nat) -> Seq<usize> {
    Seq::new(n, |i: int| i as usize)
}

/// `p` lists each of the positions `0..n` exactly once.
pub open spec fn is_permutation(p: Seq<usize>, n: nat) -> bool {
    &&& p.len() == n
    &&& forall|k: int| 0 <= k < p.len() ==> (#[trigger] p[k]) < n
    &&& p.to_multiset() == index_seq(n).to_multiset()
}

/// `p` is the stable ordering of `keys`: a permutation of its positions in which
/// every earlier position precedes every later one.
pub open spec fn is_stable_order(keys: Seq<int>, descending: bool, p: Seq<usize>) -> bool {
    &&& is_permutation(p, keys.len())
    &&& forall|k: int, l: int|
        0 <= k < l < p.len() ==> precedes(keys, descending, #[trigger] p[k] as int, #[trigger] p[l] as int)
}

pub fn is_better(a: i64, b: i64, descending: bool) -> (r: bool)
    ensures
        r == better(a as int, b as int, descending),
{
    if descending {
        a > b
    } else {
        a < b
    }
}

/// Two sequences holding the same elements still do after `f` is applied to each.
pub proof fn lemma_map_keeps_multiset<A, B>(p: Seq<A>, q: Seq<A>, f: spec_fn(A) -> B)
    requires
        p.to_multiset() == q.to_multiset(),
    ensures
        p.map_values(f).to_multiset() == q.map_values(f).to_multiset(),
    decreases p.len(),
{
    broadcast use vstd::multiset::group_multiset_axioms;

    if p.len() == 0 {
        to_multiset_len(p);
        to_multiset_len(q);
        assert(q.len() == 0);
        assert(p.map_values(f) =~= q.map_values(f));
    } else {
        let x = p.last();
        let pd = p.drop_last();
        assert(p =~= pd.push(x));
        to_multiset_build(pd, x);
        to_multiset_contains(q, x);
        assert(q.contains(x));
        let i = q.index_of(x);
        to_multiset_remove(q, i);
        assert(q.remove(i).to_multiset() =~= pd.to_multiset());
        lemma_map_keeps_multiset(pd, q.remove(i), f);
        assert(p.map_values(f) =~= pd.map_values(f).push(f(x)));
        assert(q.map_values(f) =~= q.remove(i).map_values(f).insert(i, f(x)));
        to_multiset_build(pd.map_values(f), f(x));
        to_multiset_insert(q.remove(i).map_values(f), i, f(x));
    }
}

/// The stable ordering of `keys`: insertion of each position, in input order, just
/// before the first position whose key it beats.
pub fn stable_order(keys: &Vec<i64>, descending: bool) -> (p: Vec<usize>)
    ensures
        is_stable_order(keys@.map_values(|v: i64| v as int), descending, p@),
{
    let ghost ks = keys@.map_values(|v: i64| v as int);
    let n = keys.len();
    let mut w: Vec<usize> = Vec::new();
    let mut i: usize = 0;
    assert(w@ =~= index_seq(0));
    while i < n
        invariant
            n == keys.len(),
            ks == keys@.map_values(|v: i64| v as int),
            0 <= i <= n,
            w.len() == i,
            forall|k: int| 0 <= k < w.len() ==> (#[trigger] w@[k]) < i,
            w@.to_multiset() == index_seq(i as nat).to_multiset(),
            forall|k: int, l: int|
                0 <= k < l < w.len() ==> precedes(ks, descending, #[trigger] w@[k] as int, #[trigger] w@[l] as int),
        decreases n - i,
    {
        let mut pos: usize = 0;
        while pos < w.len() && !is_better(keys[i], keys[w[pos]], descending)
            invariant
                n == keys.len(),
                ks == keys@.map_values(|v: i64| v as int),
                i < n,
                0 <= pos <= w.len(),
                forall|k: int| 0 <= k < w.len() ==> (#[trigger] w@[k]) < i,
                forall|k: int| 0 <= k < pos ==> !better(ks[i as int], ks[#[trigger] w@[k] as int], descending),
            decreases w.len() - pos,
        {
            pos = pos + 1;
        }
        proof {
            assert forall|k: int| pos <= k < w.len() implies better(ks[i as int], ks[#[trigger] w@[k] as int], descending) by {
                if k > pos {
                    assert(precedes(ks, descending, w@[pos as int] as int, w@[k] as int));
                }
            }
            to_multiset_insert(w@, pos as int, i);
            to_multiset_build(index_seq(i as nat), i);
            assert(index_seq((i + 1) as nat) =~= index_seq(i as nat).push(i));
        }
        let ghost old_w = w@;
        w.insert(pos, i);
        assert(w@ =~= old_w.insert(pos as int, i));
        proof {
            assert forall|k: int, l: int| 0 <= k < l < w.len() implies precedes(ks, descending, #[trigger] w@[k] as int, #[trigger] w@[l] as int) by {
                if l < pos {
                    assert(w@[k] == old_w[k] && w@[l] == old_w[l]);
                } else if l == pos {
                    assert(w@[k] == old_w[k]);
                } else if k == pos {
                    assert(w@[l] == old_w[l - 1]);
                } else if k < pos {
                    assert(w@[k] == old_w[k] && w@[l] == old_w[l - 1]);
                    assert(precedes(ks, descending, old_w[k] as int, old_w[l - 1] as int));
                } else {
                    assert(w@[k] == old_w[k - 1] && w@[l] == old_w[l - 1]);
                    assert(precedes(ks, descending, old_w[k - 1] as int, old_w[l - 1] as int));
                }
            }
        }
        i = i + 1;
    }
    w
}

} // verus!
