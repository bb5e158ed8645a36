//! The composite ranking of issuers over every factor.
use vstd::prelude::*;
use crate::aggregate::{Ranking, results_view, entry_count, is_composite, names_set, total_of,
    aggregate, lemma_entry_total_distinct};
use crate::order::{index_seq, lemma_map_keeps_multiset};
use crate::ranker::{scores_view, identities, names_of, is_ranking, collect_and_sort};
use crate::record::{IssuerDetail, Factor, all_factors, factor_descending};

verus! {

/// `rs` holds, for each factor in the fixed order, the ranking of `records` on it.
pub open spec fn is_factor_rankings(records: Seq<IssuerDetail>, rs: Seq<Ranking>) -> bool {
    &&& rs.len() == all_factors().len()
    &&& forall|f: int| 0 <= f < rs.len() ==> is_ranking(records, all_factors()[f], factor_descending(all_factors()[f]), #[trigger] rs[f])
}

/// Ranks the issuers on every factor in its own direction and merges the rankings into
/// the composite ranking: highest composite score first.
pub fn rank_issuers(records: &Vec<IssuerDetail>) -> (r: Vec<(String, i64)>)
    requires
        records.len() <= 0x1000_0000,
    ensures
        exists|rs: Seq<Ranking>| is_factor_rankings(records@, rs) && is_composite(rs, scores_view(r@))
            && identities(scores_view(r@)).to_set() == names_set(rs)
            && forall|k: int| 0 <= k < r.len() ==> (#[trigger] r@[k]).1 as int == total_of(rs, r@[k].0@),
        identities(scores_view(r@)).no_duplicates(),
        forall|k: int, l: int| 0 <= k < l < r.len() ==> (#[trigger] r@[k]).1 >= (#[trigger] r@[l]).1,
{
    let factors = Factor::all();
    let mut results: Vec<Vec<(String, i32)>> = Vec::new();
    let mut i: usize = 0;
    while i < factors.len()
        invariant
            factors@ == all_factors(),
            records.len() <= 0x1000_0000,
            0 <= i <= factors.len(),
            results.len() == i,
            entry_count(results_view(results@)) == i * records.len(),
            forall|f: int| 0 <= f < i ==> is_ranking(records@, all_factors()[f], factor_descending(all_factors()[f]),
                #[trigger] results_view(results@)[f]),
        decreases factors.len() - i,
    {
        let factor = factors[i];
        let ranking = collect_and_sort(records, factor, factor.descending());
        let ghost before = results_view(results@);
        results.push(ranking);
        proof {
            let after = results_view(results@);
            assert(after.drop_last() =~= before);
            assert(after.last() == scores_view(ranking@));
            assert((i + 1) * records.len() == i * records.len() + records.len()) by (nonlinear_arith);
            assert forall|f: int| 0 <= f < i + 1 implies is_ranking(records@, all_factors()[f], factor_descending(all_factors()[f]),
                #[trigger] after[f]) by {
                if f < i {
                    assert(after[f] == before[f]);
                }
            }
        }
        i = i + 1;
    }
    proof {
        assert(15 * records.len() <= u32::MAX);
    }
    aggregate(&results)
}

/// Ranking records on a single factor and then merging that one ranking gives each
/// identity its score from the ranking as its composite score, and no other identity.
pub proof fn lemma_single_factor_round_trip(
    records: Seq<IssuerDetail>,
    factor: Factor,
    descending: bool,
    ranking: Ranking,
)
    requires
        records.len() <= usize::MAX,
        names_of(records).no_duplicates(),
        is_ranking(records, factor, descending, ranking),
    ensures
        names_set(seq![ranking]) == identities(ranking).to_set(),
        forall|k: int| 0 <= k < ranking.len() ==> total_of(seq![ranking], (#[trigger] ranking[k]).0) == ranking[k].1,
{
    let p = choose|p: Seq<usize>|
        crate::order::is_stable_order(crate::ranker::keys_of(records, factor), descending, p)
            && crate::ranker::scored_in_order(records, p, ranking);
    let n = records.len();
    assert(crate::ranker::keys_of(records, factor).len() == n);
    let f = |j: usize| records[j as int].name@;
    lemma_map_keeps_multiset(p, index_seq(n), f);
    assert(identities(ranking) =~= p.map_values(f));
    assert(index_seq(n).map_values(f) =~= names_of(records));
    names_of(records).lemma_multiset_has_no_duplicates();
    identities(ranking).lemma_multiset_has_no_duplicates_conv();
    let single = seq![ranking];
    assert(single.drop_last() =~= Seq::<Ranking>::empty());
    assert(single.last() == ranking);
    assert(single.drop_last().fold_left(Set::empty(), crate::aggregate::names_step()) == Set::<Seq<char>>::empty());
    assert forall|x: Seq<char>| #[trigger] total_of(single, x) == crate::aggregate::entry_total(ranking, x) by {
        assert(single.drop_last().fold_left(0int, crate::aggregate::total_step(x)) == 0);
    }
    assert(names_set(single) =~= identities(ranking).to_set());
    assert forall|k: int| 0 <= k < ranking.len() implies total_of(single, (#[trigger] ranking[k]).0) == ranking[k].1 by {
        lemma_entry_total_distinct(ranking, k);
    }
}

} // verus!
