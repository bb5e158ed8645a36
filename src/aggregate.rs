//! Merging the per-factor rankings into one composite ranking.
use vstd::prelude::*;
use vstd::seq_lib::{commutative_foldl, lemma_fold_left_permutation, to_multiset_contains};
use crate::order::{index_seq, is_stable_order, stable_order, lemma_map_keeps_multiset};
use crate::ranker::{scores_view, identities};

verus! {

/// One factor's ranking as plain values.
pub type Ranking = Seq<(Seq<char>, i32)>;

/// The per-factor rankings as plain values.
pub open spec fn results_view(fs: Seq<Vec<(String, i32)>>) -> Seq<Ranking> {
    fs.map_values(|v: Vec<(String, i32)>| scores_view(v@))
}

/// The sum of the scores that `s` gives `name`.
pub open spec fn entry_total(s: Ranking, name: Seq<char>) -> int
    decreases s.len(),
{
    if s.len() == 0 {
        0
    } else {
        entry_total(s.drop_last(), name) + if s.last().0 == name {
            s.last().1 as int
        } else {
            0
        }
    }
}

/// One step of summing a name's scores over rankings.
pub open spec fn total_step(name: Seq<char>) -> spec_fn(int, Ranking) -> int {
    |acc: int, s: Ranking| acc + entry_total(s, name)
}

/// The composite score of `name`: the sum of its scores over every ranking.
pub open spec fn total_of(fs: Seq<Ranking>, name: Seq<char>) -> int {
    fs.fold_left(0int, total_step(name))
}

/// One step of collecting the identities of rankings.
pub open spec fn names_step() -> spec_fn(Set<Seq<char>>, Ranking) -> Set<Seq<char>> {
    |acc: Set<Seq<char>>, s: Ranking| acc.union(identities(s).to_set())
}

/// Every identity that occurs in some ranking.
pub open spec fn names_set(fs: Seq<Ranking>) -> Set<Seq<char>> {
    fs.fold_left(Set::empty(), names_step())
}

/// `seen` extended by the identities of `s` that it lacks, in order of first occurrence.
pub open spec fn add_names(seen: Seq<Seq<char>>, s: Ranking) -> Seq<Seq<char>>
    decreases s.len(),
{
    if s.len() == 0 {
        seen
    } else {
        let prev = add_names(seen, s.drop_last());
        if prev.contains(s.last().0) {
            prev
        } else {
            prev.push(s.last().0)
        }
    }
}

/// The identities of all rankings, each once, in order of first occurrence.
pub open spec fn first_seen(fs: Seq<Ranking>) -> Seq<Seq<char>>
    decreases fs.len(),
{
    if fs.len() == 0 {
        Seq::empty()
    } else {
        add_names(first_seen(fs.drop_last()), fs.last())
    }
}

/// The number of entries over all rankings.
pub open spec fn entry_count(fs: Seq<Ranking>) -> int
    decreases fs.len(),
{
    if fs.len() == 0 {
        0
    } else {
        entry_count(fs.drop_last()) + fs.last().len()
    }
}

/// The composite scores of the identities in `names`, in that order.
pub open spec fn totals_of(fs: Seq<Ranking>, names: Seq<Seq<char>>) -> Seq<int> {
    names.map_values(|n: Seq<char>| total_of(fs, n))
}

proof fn lemma_entry_count_nonneg(fs: Seq<Ranking>)
    ensures
        entry_count(fs) >= 0,
    decreases fs.len(),
{
    if fs.len() > 0 {
        lemma_entry_count_nonneg(fs.drop_last());
    }
}

proof fn lemma_entry_count_prefix(fs: Seq<Ranking>, i: int)
    requires
        0 <= i < fs.len(),
    ensures
        entry_count(fs.take(i)) + fs[i].len() <= entry_count(fs),
        entry_count(fs.take(i)) >= 0,
    decreases fs.len(),
{
    lemma_entry_count_nonneg(fs.take(i));
    assert(fs.take(i + 1).drop_last() =~= fs.take(i));
    if i == fs.len() - 1 {
        assert(fs.drop_last() =~= fs.take(i));
    } else {
        assert(fs.drop_last().take(i) =~= fs.take(i));
        lemma_entry_count_prefix(fs.drop_last(), i);
    }
}

/// Accumulates composite scores: after the rankings `done` and the first entries `part`
/// of the next one, `acc` lists each identity seen so far once, in order of first
/// occurrence, with its running total.
spec fn accumulated(acc: Seq<(Seq<char>, i64)>, done: Seq<Ranking>, part: Ranking) -> bool {
    let d = add_names(first_seen(done), part);
    &&& identities(acc) == d
    &&& d.no_duplicates()
    &&& d.to_set() == names_set(done).union(identities(part).to_set())
    &&& forall|k: int| 0 <= k < acc.len() ==> (#[trigger] acc[k]).1 as int == total_of(done, acc[k].0) + entry_total(part, acc[k].0)
    &&& forall|n: Seq<char>| !d.contains(n) ==> total_of(done, n) + entry_total(part, n) == 0
    &&& forall|k: int| 0 <= k < acc.len() ==> -(entry_count(done) + part.len()) * 0x8000_0000 <= (#[trigger] acc[k]).1
        <= (entry_count(done) + part.len()) * 0x8000_0000
}

fn accumulate(factor_results: &Vec<Vec<(String, i32)>>) -> (acc: Vec<(String, i64)>)
    requires
        entry_count(results_view(factor_results@)) <= u32::MAX,
    ensures
        accumulated(scores_view(acc@), results_view(factor_results@), Seq::empty()),
{
    let ghost fs = results_view(factor_results@);
    let mut acc: Vec<(String, i64)> = Vec::new();
    let mut i: usize = 0;
    proof {
        assert(fs.take(0) =~= Seq::<Ranking>::empty());
        assert(identities(scores_view(acc@)) =~= Seq::empty());
        assert(identities(Seq::<(Seq<char>, i32)>::empty()).to_set() =~= Set::empty());
        assert(Set::<Seq<char>>::empty().union(Set::empty()) =~= Set::empty());
        assert(Seq::<Seq<char>>::empty().to_set() =~= Set::empty());
    }
    while i < factor_results.len()
        invariant
            fs == results_view(factor_results@),
            entry_count(fs) <= u32::MAX,
            0 <= i <= factor_results.len(),
            accumulated(scores_view(acc@), fs.take(i as int), Seq::empty()),
        decreases factor_results.len() - i,
    {
        let scores = &factor_results[i];
        let ghost done = fs.take(i as int);
        proof {
            lemma_entry_count_prefix(fs, i as int);
            assert(fs[i as int].take(0) =~= Seq::<(Seq<char>, i32)>::empty());
        }
        let mut j: usize = 0;
        while j < scores.len()
            invariant
                fs == results_view(factor_results@),
                i < factor_results.len(),
                done == fs.take(i as int),
                scores == factor_results@[i as int],
                entry_count(done) + scores.len() <= u32::MAX,
                entry_count(done) >= 0,
                0 <= j <= scores.len(),
                accumulated(scores_view(acc@), done, fs[i as int].take(j as int)),
            decreases scores.len() - j,
        {
            let name = &scores[j].0;
            let score = scores[j].1;
            let mut k: usize = 0;
            while k < acc.len() && acc[k].0 != *name
                invariant
                    0 <= k <= acc.len(),
                    forall|m: int| 0 <= m < k ==> (#[trigger] acc@[m]).0@ != name@,
                decreases acc.len() - k,
            {
                k = k + 1;
            }
            let ghost old_acc = scores_view(acc@);
            let ghost part = fs[i as int].take(j as int);
            let ghost e = fs[i as int][j as int];
            proof {
                assert(e == (name@, score));
                assert(fs[i as int].len() == scores.len());
                assert(fs[i as int].take(j as int + 1) =~= part.push(e));
                assert(part.push(e).drop_last() =~= part);
                assert(identities(part.push(e)) =~= identities(part).push(name@));
                if k < acc.len() {
                    assert(identities(old_acc)[k as int] == name@);
                }
            }
            if k < acc.len() {
                let t = acc[k].1 + score as i64;
                let n = acc[k].0.clone();
                acc.set(k, (n, t));
            } else {
                acc.push((name.clone(), score as i64));
            }
            proof {
                let new_acc = scores_view(acc@);
                let d = identities(old_acc);
                let part2 = part.push(e);
                broadcast use vstd::seq_lib::lemma_seq_contains_after_push, Seq::lemma_push_to_set_commute;
                assert(entry_total(part2, name@) == entry_total(part, name@) + score);
                assert(forall|n: Seq<char>| n != name@ ==> entry_total(part2, n) == entry_total(part, n));
                assert(identities(part2).to_set() =~= identities(part).to_set().insert(name@));
                if k < old_acc.len() {
                    assert(d.contains(name@));
                    assert(identities(new_acc) =~= d);
                    assert(add_names(first_seen(done), part2) == d);
                    assert(d.to_set() =~= names_set(done).union(identities(part2).to_set()));
                } else {
                    assert(identities(new_acc) =~= d.push(name@));
                    assert(!d.contains(name@));
                    assert(add_names(first_seen(done), part2) == d.push(name@));
                    assert(d.push(name@).to_set() =~= names_set(done).union(identities(part2).to_set()));
                    assert(d.push(name@).no_duplicates());
                }
                let d2 = add_names(first_seen(done), part2);
                let c = entry_count(done) + part2.len();
                assert(identities(new_acc) == d2);
                assert forall|m: int| 0 <= m < new_acc.len() implies (#[trigger] new_acc[m]).1 as int == total_of(done, new_acc[m].0) + entry_total(part2, new_acc[m].0)
                    && -c * 0x8000_0000 <= new_acc[m].1 <= c * 0x8000_0000 by {
                    if m < old_acc.len() {
                        assert(old_acc[m].0 == d[m]);
                        assert(new_acc[m].0 == old_acc[m].0);
                        if m != k {
                            assert(old_acc[m].0 != name@);
                        }
                    } else {
                        assert(!d.contains(name@));
                    }
                }
                assert forall|n: Seq<char>| !d2.contains(n) implies total_of(done, n) + entry_total(part2, n) == 0 by {
                    assert(!d.contains(n));
                }
                assert(accumulated(new_acc, done, part2));
            }
            j = j + 1;
        }
        proof {
            let next = fs.take(i as int + 1);
            let si = fs[i as int];
            assert(si.take(scores.len() as int) =~= si);
            assert(next.drop_last() =~= done);
            assert(next.last() == si);
            assert(first_seen(next) == add_names(first_seen(done), si));
            assert(names_set(next) == names_set(done).union(identities(si).to_set()));
            assert(forall|n: Seq<char>| #[trigger] total_of(next, n) == total_of(done, n) + entry_total(si, n));
            assert(entry_count(next) == entry_count(done) + si.len());
            assert(identities(Seq::<(Seq<char>, i32)>::empty()).to_set() =~= Set::empty());
            assert(names_set(next).union(Set::empty()) =~= names_set(next));
            assert(forall|n: Seq<char>| entry_total(Seq::<(Seq<char>, i32)>::empty(), n) == 0);
        }
        i = i + 1;
    }
    proof {
        assert(fs.take(factor_results.len() as int) =~= fs);
    }
    acc
}

/// `out` is the composite ranking of `fs`: every identity once, with its composite
/// score, highest score first, equal scores in order of first occurrence.
pub open spec fn is_composite(fs: Seq<Ranking>, out: Seq<(Seq<char>, i64)>) -> bool {
    let d = first_seen(fs);
    exists|p: Seq<usize>|
        is_stable_order(totals_of(fs, d), true, p) && out.len() == p.len() && forall|k: int|
            0 <= k < out.len() ==> (#[trigger] out[k]).0 == d[p[k] as int] && out[k].1 == total_of(fs, d[p[k] as int])
}

/// Sums each identity's scores over all rankings and orders the identities by that
/// composite score, highest first; equal scores keep the order in which the identities
/// first occur.
pub fn aggregate(factor_results: &Vec<Vec<(String, i32)>>) -> (r: Vec<(String, i64)>)
    requires
        entry_count(results_view(factor_results@)) <= u32::MAX,
    ensures
        is_composite(results_view(factor_results@), scores_view(r@)),
        identities(scores_view(r@)).no_duplicates(),
        identities(scores_view(r@)).to_set() == names_set(results_view(factor_results@)),
        forall|k: int| 0 <= k < r.len() ==> (#[trigger] r@[k]).1 as int == total_of(results_view(factor_results@), r@[k].0@),
        forall|k: int, l: int| 0 <= k < l < r.len() ==> (#[trigger] r@[k]).1 >= (#[trigger] r@[l]).1,
{
    let ghost fs = results_view(factor_results@);
    let acc = accumulate(factor_results);
    let ghost d = first_seen(fs);
    proof {
        assert(add_names(d, Seq::empty()) == d);
        assert(identities(Seq::<(Seq<char>, i32)>::empty()).to_set() =~= Set::empty());
        assert(names_set(fs).union(Set::empty()) =~= names_set(fs));
        assert(forall|n: Seq<char>| entry_total(Seq::<(Seq<char>, i32)>::empty(), n) == 0);
    }
    let mut keys: Vec<i64> = Vec::new();
    let mut i: usize = 0;
    while i < acc.len()
        invariant
            0 <= i <= acc.len(),
            keys.len() == i,
            forall|j: int| 0 <= j < i ==> keys@[j] == (#[trigger] acc@[j]).1,
        decreases acc.len() - i,
    {
        keys.push(acc[i].1);
        i = i + 1;
    }
    proof {
        assert forall|j: int| 0 <= j < acc.len() implies (#[trigger] acc@[j]).0@ == d[j] && acc@[j].1 == total_of(fs, d[j]) by {
            assert(identities(scores_view(acc@))[j] == acc@[j].0@);
            assert(scores_view(acc@)[j].1 == acc@[j].1);
        }
        assert(keys@.map_values(|v: i64| v as int) =~= totals_of(fs, d));
    }
    let p = stable_order(&keys, true);
    let mut r: Vec<(String, i64)> = Vec::new();
    let mut k: usize = 0;
    while k < p.len()
        invariant
            is_stable_order(totals_of(fs, d), true, p@),
            keys.len() == acc.len(),
            acc.len() == d.len(),
            forall|j: int| 0 <= j < acc.len() ==> (#[trigger] acc@[j]).0@ == d[j] && acc@[j].1 == total_of(fs, d[j]),
            0 <= k <= p.len(),
            r.len() == k,
            forall|j: int| 0 <= j < k ==> (#[trigger] r@[j]).0@ == d[p@[j] as int] && r@[j].1 == total_of(fs, d[p@[j] as int]),
        decreases p.len() - k,
    {
        let idx = p[k];
        r.push((acc[idx].0.clone(), acc[idx].1));
        k = k + 1;
    }
    proof {
        let out = scores_view(r@);
        let n = d.len();
        assert(is_composite(fs, out));
        let f = |j: usize| d[j as int];
        lemma_map_keeps_multiset(p@, index_seq(n), f);
        assert(identities(out) =~= p@.map_values(f));
        assert(index_seq(n).map_values(f) =~= d);
        d.lemma_multiset_has_no_duplicates();
        identities(out).lemma_multiset_has_no_duplicates_conv();
        assert forall|x: Seq<char>| identities(out).contains(x) <==> d.contains(x) by {
            to_multiset_contains(identities(out), x);
            to_multiset_contains(d, x);
        }
        assert(identities(out).to_set() =~= d.to_set());
        assert forall|k: int, l: int| 0 <= k < l < r.len() implies (#[trigger] r@[k]).1 >= (#[trigger] r@[l]).1 by {
            assert(crate::order::precedes(totals_of(fs, d), true, p@[k] as int, p@[l] as int));
        }
    }
    r
}

/// The order in which the rankings are supplied does not matter: rankings that are a
/// rearrangement of one another give the same identities the same composite scores.
pub proof fn lemma_aggregate_order_free(fs1: Seq<Ranking>, fs2: Seq<Ranking>)
    requires
        fs1.to_multiset() == fs2.to_multiset(),
    ensures
        names_set(fs1) == names_set(fs2),
        forall|n: Seq<char>| #[trigger] total_of(fs1, n) == total_of(fs2, n),
{
    assert(commutative_foldl(names_step())) by {
        assert forall|x: Ranking, y: Ranking, v: Set<Seq<char>>|
            #[trigger] (names_step())((names_step())(v, x), y) == (names_step())((names_step())(v, y), x) by {
            assert((names_step())((names_step())(v, x), y) =~= (names_step())((names_step())(v, y), x));
        }
    }
    lemma_fold_left_permutation(fs1, fs2, names_step(), Set::empty());
    assert forall|n: Seq<char>| #[trigger] total_of(fs1, n) == total_of(fs2, n) by {
        lemma_fold_left_permutation(fs1, fs2, total_step(n), 0int);
    }
}

/// In a ranking whose identities are distinct, each identity's summed score is the
/// score of its one entry.
pub proof fn lemma_entry_total_distinct(s: Ranking, k: int)
    requires
        identities(s).no_duplicates(),
        0 <= k < s.len(),
    ensures
        entry_total(s, s[k].0) == s[k].1,
    decreases s.len(),
{
    let n = s[k].0;
    assert forall|m: int| 0 <= m < s.len() && m != k implies s[m].0 != n by {
        assert(identities(s)[m] != identities(s)[k]);
    }
    if k == s.len() - 1 {
        lemma_entry_total_absent(s.drop_last(), n);
    } else {
        assert(identities(s.drop_last()) =~= identities(s).drop_last());
        lemma_entry_total_distinct(s.drop_last(), k);
    }
}

/// A name on no entry of `s` sums to zero.
proof fn lemma_entry_total_absent(s: Ranking, n: Seq<char>)
    requires
        forall|m: int| 0 <= m < s.len() ==> (#[trigger] s[m]).0 != n,
    ensures
        entry_total(s, n) == 0,
    decreases s.len(),
{
    if s.len() > 0 {
        lemma_entry_total_absent(s.drop_last(), n);
    }
}

} // verus!
