//! Ranking issuers on one factor.
use vstd::prelude::*;
use vstd::seq_lib::to_multiset_contains;
use crate::order::{better, precedes, index_seq, is_stable_order, stable_order, lemma_map_keeps_multiset};
use crate::record::{IssuerDetail, Factor, factor_value};

verus! {

/// The score of the issuer at zero-based position `k` of a factor's ranking. It is
/// not clamped: from position 11 on it is negative.
pub open spec fn position_score(k: int) -> int {
    10 - k
}

/// A ranking or a composite ranking as plain values: identity and score.
pub open spec fn scores_view<S: View<V = S>>(v: Seq<(String, S)>) -> Seq<(Seq<char>, S)> {
    v.map_values(|e: (String, S)| (e.0@, e.1))
}

/// The identities of the entries of `s`, in order.
pub open spec fn identities<S>(s: Seq<(Seq<char>, S)>) -> Seq<Seq<char>> {
    s.map_values(|e: (Seq<char>, S)| e.0)
}

/// The identities of the records, in input order.
pub open spec fn names_of(records: Seq<IssuerDetail>) -> Seq<Seq<char>> {
    records.map_values(|r: IssuerDetail| r.name@)
}

/// The records' values of factor `f`, in input order.
pub open spec fn keys_of(records: Seq<IssuerDetail>, f: Factor) -> Seq<int> {
    records.map_values(|r: IssuerDetail| factor_value(f, r) as int)
}

/// `out` lists the records in the order `p`, each with the score of its position.
pub open spec fn scored_in_order(records: Seq<IssuerDetail>, p: Seq<usize>, out: Seq<(Seq<char>, i32)>) -> bool {
    &&& out.len() == p.len()
    &&& forall|k: int| 0 <= k < out.len() ==> (#[trigger] out[k]).0 == records[p[k] as int].name@
        && out[k].1 as int == position_score(k)
}

/// `out` is the ranking of `records` on factor `f`: the records in their stable order
/// by that factor's value, each scored by its position.
pub open spec fn is_ranking(records: Seq<IssuerDetail>, f: Factor, descending: bool, out: Seq<(Seq<char>, i32)>) -> bool {
    exists|p: Seq<usize>| is_stable_order(keys_of(records, f), descending, p) && scored_in_order(records, p, out)
}

/// Scores a list that is already in ranking order: the entry at position `k` gets
/// `10 - k`.
pub fn generate_score_for_factor(factor_values: &Vec<(String, i64)>) -> (r: Vec<(String, i32)>)
    requires
        factor_values.len() <= i32::MAX,
    ensures
        r.len() == factor_values.len(),
        forall|k: int| 0 <= k < r.len() ==> (#[trigger] r@[k]).0@ == factor_values@[k].0@
            && r@[k].1 as int == position_score(k),
{
    let mut r: Vec<(String, i32)> = Vec::new();
    let mut k: usize = 0;
    while k < factor_values.len()
        invariant
            factor_values.len() <= i32::MAX,
            0 <= k <= factor_values.len(),
            r.len() == k,
            forall|j: int| 0 <= j < k ==> (#[trigger] r@[j]).0@ == factor_values@[j].0@
                && r@[j].1 as int == position_score(j),
        decreases factor_values.len() - k,
    {
        let score: i32 = 10 - (k as i32);
        r.push((factor_values[k].0.clone(), score));
        k = k + 1;
    }
    r
}

/// Ranks the records on factor `factor`: best first (the highest value when
/// `descending`, the lowest otherwise), equal values in input order, and the record at
/// position `k` scored `10 - k`.
pub fn collect_and_sort(records: &Vec<IssuerDetail>, factor: Factor, descending: bool) -> (r: Vec<(String, i32)>)
    requires
        records.len() <= i32::MAX,
    ensures
        is_ranking(records@, factor, descending, scores_view(r@)),
        r.len() == records.len(),
        forall|k: int| 0 <= k < r.len() ==> (#[trigger] r@[k]).1 as int == position_score(k),
        r.len() >= 12 ==> r@[11].1 == -1,
        identities(scores_view(r@)).to_multiset() == names_of(records@).to_multiset(),
        r.len() > 0 ==> exists|i: int|
            0 <= i < records.len() && r@[0].0@ == (#[trigger] records@[i]).name@
            && forall|j: int| 0 <= j < records.len() ==> !better(
                factor_value(factor, #[trigger] records@[j]) as int,
                factor_value(factor, records@[i]) as int,
                descending,
            ),
{
    let ghost keys = keys_of(records@, factor);
    let mut values: Vec<i64> = Vec::new();
    let mut i: usize = 0;
    while i < records.len()
        invariant
            0 <= i <= records.len(),
            values.len() == i,
            forall|j: int| 0 <= j < i ==> values@[j] == factor_value(factor, #[trigger] records@[j]),
        decreases records.len() - i,
    {
        values.push(factor.value(&records[i]));
        i = i + 1;
    }
    assert(values@.map_values(|v: i64| v as int) =~= keys);
    let p = stable_order(&values, descending);
    let mut sorted: Vec<(String, i64)> = Vec::new();
    let mut k: usize = 0;
    while k < p.len()
        invariant
            is_stable_order(keys, descending, p@),
            keys.len() == records.len(),
            values.len() == records.len(),
            0 <= k <= p.len(),
            sorted.len() == k,
            forall|j: int| 0 <= j < k ==> (#[trigger] sorted@[j]).0@ == records@[p@[j] as int].name@,
        decreases p.len() - k,
    {
        let idx = p[k];
        sorted.push((records[idx].name.clone(), values[idx]));
        k = k + 1;
    }
    let r = generate_score_for_factor(&sorted);
    let ghost out = scores_view(r@);
    proof {
        assert(scored_in_order(records@, p@, out));
        let f = |j: usize| records@[j as int].name@;
        lemma_map_keeps_multiset(p@, index_seq(records.len() as nat), f);
        assert(identities(out) =~= p@.map_values(f));
        assert(index_seq(records.len() as nat).map_values(f) =~= names_of(records@));
        if r.len() > 0 {
            let i0 = p@[0] as int;
            assert forall|j: int| 0 <= j < records.len() implies !better(
                factor_value(factor, #[trigger] records@[j]) as int,
                factor_value(factor, records@[i0]) as int,
                descending,
            ) by {
                let n = records.len() as nat;
                assert(index_seq(n)[j] == j as usize);
                to_multiset_contains(index_seq(n), j as usize);
                to_multiset_contains(p@, j as usize);
                let l = p@.index_of(j as usize);
                if l > 0 {
                    assert(precedes(keys, descending, p@[0] as int, p@[l] as int));
                }
            }
            assert(r@[0].0@ == records@[i0].name@);
        }
    }
    r
}

} // verus!
