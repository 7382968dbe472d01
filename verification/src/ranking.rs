//! The order in which observations are handed out: newest first, and of
//! each pair that the oracle follows the newest one.

use vstd::prelude::*;
use crate::exchange_rate::{ExchangeRateResult, Observation};
use crate::keys::spec_pair_id;

verus! {

// ---------------------------------------------------------------------------
// Newest first
// ---------------------------------------------------------------------------

/// No observation stands before a newer one.
pub open spec fn is_newest_first(s: Seq<Observation>) -> bool {
    forall|i: int, j: int| 0 <= i < j < s.len() ==> (#[trigger] s[i]).date >= (#[trigger] s[j]).date
}

/// The observations of `s`, which are newest first, with `o` put behind
/// the last of them that is not older than it.
pub open spec fn placed(s: Seq<Observation>, o: Observation) -> Seq<Observation>
    decreases s.len(),
{
    if s.len() == 0 {
        seq![o]
    } else if s.last().date >= o.date {
        s.push(o)
    } else {
        placed(s.drop_last(), o).push(s.last())
    }
}

/// The observations of `s` newest first; those of one instant keep the
/// order that they have in `s`.
pub open spec fn newest_first(s: Seq<Observation>) -> Seq<Observation>
    decreases s.len(),
{
    if s.len() == 0 {
        s
    } else {
        placed(newest_first(s.drop_last()), s.last())
    }
}

/// Placing an observation is inserting it at the place `p` behind which all
/// are older than it and before which the nearest is not.
proof fn lemma_placed_is_insert(s: Seq<Observation>, o: Observation, p: int)
    requires
        0 <= p <= s.len(),
        forall|j: int| p <= j < s.len() ==> (#[trigger] s[j]).date < o.date,
        p > 0 ==> s[p - 1].date >= o.date,
    ensures
        placed(s, o) == s.insert(p, o),
    decreases s.len(),
{
    if s.len() == 0 {
        assert(s.insert(p, o) =~= seq![o]);
    } else if p == s.len() {
        assert(s.insert(p, o) =~= s.push(o));
    } else {
        let t = s.drop_last();
        assert(s[s.len() - 1].date < o.date);
        assert forall|j: int| p <= j < t.len() implies (#[trigger] t[j]).date < o.date by {
            assert(t[j] == s[j]);
        }
        if p > 0 {
            assert(t[p - 1] == s[p - 1]);
        }
        lemma_placed_is_insert(t, o, p);
        assert(t.insert(p, o).push(s.last()) =~= s.insert(p, o));
    }
}

/// Placing keeps the order and adds one observation.
pub proof fn lemma_placed_keeps_order(s: Seq<Observation>, o: Observation)
    requires
        is_newest_first(s),
    ensures
        is_newest_first(placed(s, o)),
        placed(s, o).len() == s.len() + 1,
        placed(s, o).to_multiset() == s.to_multiset().insert(o),
    decreases s.len(),
{
    broadcast use vstd::seq_lib::group_to_multiset_ensures;

    if s.len() == 0 {
        assert(placed(s, o) =~= s.push(o));
    } else if s.last().date >= o.date {
        let r = s.push(o);
        assert forall|i: int, j: int| 0 <= i < j < r.len() implies (#[trigger] r[i]).date >= (
        #[trigger] r[j]).date by {
            if j == s.len() {
                if i < s.len() - 1 {
                    assert(s[i].date >= s[s.len() - 1].date);
                }
            }
        }
    } else {
        let t = s.drop_last();
        assert(is_newest_first(t)) by {
            assert forall|i: int, j: int| 0 <= i < j < t.len() implies (#[trigger] t[i]).date >= (
            #[trigger] t[j]).date by {
                assert(t[i] == s[i] && t[j] == s[j]);
            }
        }
        lemma_placed_keeps_order(t, o);
        let q = placed(t, o);
        let r = q.push(s.last());
        assert forall|i: int, j: int| 0 <= i < j < r.len() implies (#[trigger] r[i]).date >= (
        #[trigger] r[j]).date by {
            if j == q.len() {
                // every member of q is o or a member of t, and none is older than the last of s
                assert(q.to_multiset().count(q[i]) > 0);
                if q[i] != o {
                    assert(t.to_multiset().count(q[i]) > 0);
                    assert(t.contains(q[i]));
                    let k = choose|k: int| 0 <= k < t.len() && t[k] == q[i];
                    assert(s[k].date >= s[s.len() - 1].date);
                }
            }
        }
        assert(s =~= t.push(s.last()));
        assert(r.to_multiset() =~= s.to_multiset().insert(o));
    }
}

/// Sorting gives the same observations, as many of each, newest first.
pub proof fn lemma_newest_first_sorts(s: Seq<Observation>)
    ensures
        is_newest_first(newest_first(s)),
        newest_first(s).len() == s.len(),
        newest_first(s).to_multiset() == s.to_multiset(),
    decreases s.len(),
{
    broadcast use vstd::seq_lib::group_to_multiset_ensures;

    if s.len() > 0 {
        let t = s.drop_last();
        lemma_newest_first_sorts(t);
        lemma_placed_keeps_order(newest_first(t), s.last());
        assert(s =~= t.push(s.last()));
    }
}

/// Sorts observations newest first; those of one instant keep their order.
pub fn sort_newest_first(rates: &Vec<ExchangeRateResult>) -> (out: Vec<ExchangeRateResult>)
    ensures
        out.deep_view() == newest_first(rates.deep_view()),
{
    let ghost all = rates.deep_view();
    let mut out: Vec<ExchangeRateResult> = Vec::new();
    let mut i: usize = 0;
    assert(all.take(0) =~= Seq::<Observation>::empty());
    assert(out.deep_view() =~= Seq::<Observation>::empty());
    while i < rates.len()
        invariant
            i <= rates@.len(),
            all == rates.deep_view(),
            out@.len() == i,
            out.deep_view() == newest_first(all.take(i as int)),
        decreases rates@.len() - i,
    {
        let ghost before = out.deep_view();
        let rate = rates[i].clone();
        let mut p: usize = out.len();
        while p > 0 && out[p - 1].date < rate.date
            invariant
                p <= out@.len(),
                before == out.deep_view(),
                forall|j: int| p <= j < out@.len() ==> (#[trigger] before[j]).date < rate.date,
            decreases p,
        {
            p = p - 1;
        }
        proof {
            if p > 0 {
                assert(before[p - 1].date == out@[p - 1].date);
            }
            lemma_placed_is_insert(before, rate@, p as int);
            assert(all.take(i + 1).drop_last() =~= all.take(i as int));
            assert(all.take(i + 1).last() == rate@);
        }
        out.insert(p, rate);
        assert(out.deep_view() =~= before.insert(p as int, rate@));
        i = i + 1;
    }
    assert(all.take(i as int) =~= all);
    out
}

/// The first `n` of `s`, or all of `s` where it has fewer.
pub open spec fn first_of(s: Seq<Observation>, n: nat) -> Seq<Observation> {
    if n <= s.len() {
        s.take(n as int)
    } else {
        s
    }
}

/// What a query for recent observations gives is cut to the number asked
/// for, stands newest first, and holds nothing but what the scan found.
pub proof fn lemma_recent_is_cut_and_ordered(found: Seq<Observation>, items: nat)
    ensures
        first_of(newest_first(found), items).len() <= items,
        first_of(newest_first(found), items).len() <= found.len(),
        is_newest_first(first_of(newest_first(found), items)),
        forall|i: int|
            0 <= i < first_of(newest_first(found), items).len() ==> found.contains(
                #[trigger] first_of(newest_first(found), items)[i],
            ),
{
    broadcast use vstd::seq_lib::group_to_multiset_ensures;

    lemma_newest_first_sorts(found);
    let all = newest_first(found);
    let cut = first_of(all, items);
    assert forall|i: int| 0 <= i < cut.len() implies found.contains(#[trigger] cut[i]) by {
        assert(cut[i] == all[i]);
        assert(all.to_multiset().count(all[i]) > 0);
    }
}

// ---------------------------------------------------------------------------
// The newest observation of each pair
// ---------------------------------------------------------------------------

/// The pairs that the oracle follows, as source and destination: four
/// currencies priced in dollars, then the dollar priced in three.
pub open spec fn spec_tracked_pairs() -> Seq<(Seq<char>, Seq<char>)> {
    seq![
        ("EUR"@, "USD"@),
        ("GBP"@, "USD"@),
        ("BTC"@, "USD"@),
        ("ETH"@, "USD"@),
        ("USD"@, "CNY"@),
        ("USD"@, "JPY"@),
        ("USD"@, "CAD"@),
    ]
}

/// The pairs that the oracle follows.
pub fn tracked_pairs() -> (pairs: Vec<(String, String)>)
    ensures
        pairs.deep_view() == spec_tracked_pairs(),
{
    let mut pairs: Vec<(String, String)> = Vec::new();
    pairs.push(("EUR".to_owned(), "USD".to_owned()));
    pairs.push(("GBP".to_owned(), "USD".to_owned()));
    pairs.push(("BTC".to_owned(), "USD".to_owned()));
    pairs.push(("ETH".to_owned(), "USD".to_owned()));
    pairs.push(("USD".to_owned(), "CNY".to_owned()));
    pairs.push(("USD".to_owned(), "JPY".to_owned()));
    pairs.push(("USD".to_owned(), "CAD".to_owned()));
    assert(pairs.deep_view() =~= spec_tracked_pairs());
    pairs
}

/// The newest observation of the pair from `from` to `to` in `s`, and of
/// several of one instant the one that comes first.
pub open spec fn newest_of_pair(s: Seq<Observation>, from: Seq<char>, to: Seq<char>) -> Option<
    Observation,
>
    decreases s.len(),
{
    if s.len() == 0 {
        None
    } else {
        let before = newest_of_pair(s.drop_last(), from, to);
        if s.last().from != from || s.last().to != to {
            before
        } else if before is Some && before->0.date >= s.last().date {
            before
        } else {
            Some(s.last())
        }
    }
}

/// The observation at the place `k` of `s` is of the pair from `from` to
/// `to`, none of the pair is newer, and those of the pair before it are
/// older.
pub open spec fn is_newest_at(s: Seq<Observation>, from: Seq<char>, to: Seq<char>, k: int) -> bool {
    &&& 0 <= k < s.len()
    &&& s[k].from == from
    &&& s[k].to == to
    &&& forall|i: int|
        0 <= i < s.len() && (#[trigger] s[i]).from == from && s[i].to == to ==> s[i].date
            <= s[k].date
    &&& forall|i: int|
        0 <= i < k && (#[trigger] s[i]).from == from && s[i].to == to ==> s[i].date < s[k].date
}

/// The newest observation of a pair is one of the pair, none of the pair is
/// newer, and of those of its instant it is the first; and there is none
/// where `s` holds no observation of the pair, and only there.
pub proof fn lemma_newest_of_pair_is_newest(s: Seq<Observation>, from: Seq<char>, to: Seq<char>)
    ensures
        newest_of_pair(s, from, to) is None <==> forall|i: int|
            0 <= i < s.len() ==> (#[trigger] s[i]).from != from || s[i].to != to,
        newest_of_pair(s, from, to) is Some ==> exists|k: int|
            #[trigger] is_newest_at(s, from, to, k) && s[k] == newest_of_pair(s, from, to)->0,
    decreases s.len(),
{
    if s.len() > 0 {
        let t = s.drop_last();
        let n = s.len() - 1;
        lemma_newest_of_pair_is_newest(t, from, to);
        let before = newest_of_pair(t, from, to);
        assert forall|i: int| 0 <= i < t.len() implies t[i] == s[i] by {}
        assert(s[n] == s.last());
        if before is Some {
            let k = choose|k: int| #[trigger] is_newest_at(t, from, to, k) && t[k] == before->0;
            assert(t[k] == s[k]);
            if s.last().from != from || s.last().to != to || before->0.date >= s.last().date {
                assert(is_newest_at(s, from, to, k)) by {
                    assert forall|i: int|
                        0 <= i < s.len() && (#[trigger] s[i]).from == from && s[i].to
                            == to implies s[i].date <= s[k].date by {
                        if i < n {
                            assert(t[i] == s[i]);
                        }
                    }
                    assert forall|i: int|
                        0 <= i < k && (#[trigger] s[i]).from == from && s[i].to
                            == to implies s[i].date < s[k].date by {
                        assert(t[i] == s[i]);
                    }
                }
            } else {
                assert(is_newest_at(s, from, to, n)) by {
                    assert forall|i: int|
                        0 <= i < n && (#[trigger] s[i]).from == from && s[i].to
                            == to implies s[i].date < s[n].date by {
                        assert(t[i] == s[i]);
                    }
                }
            }
        } else if s.last().from == from && s.last().to == to {
            assert(is_newest_at(s, from, to, n)) by {
                assert forall|i: int| 0 <= i < n implies (#[trigger] s[i]).from != from || s[i].to
                    != to by {
                    assert(t[i] == s[i]);
                }
            }
        } else {
            assert forall|i: int| 0 <= i < s.len() implies (#[trigger] s[i]).from != from || s[i].to
                != to by {
                if i < n {
                    assert(t[i] == s[i]);
                }
            }
        }
    }
}

/// The newest observation of each of `pairs` in `s`, pair by pair; or the
/// identifier of the first pair of which `s` holds none.
pub open spec fn newest_of_each(s: Seq<Observation>, pairs: Seq<(Seq<char>, Seq<char>)>) -> Result<
    Seq<Observation>,
    Seq<char>,
>
    decreases pairs.len(),
{
    if pairs.len() == 0 {
        Ok(Seq::empty())
    } else {
        match newest_of_each(s, pairs.drop_last()) {
            Err(id) => Err(id),
            Ok(items) => match newest_of_pair(s, pairs.last().0, pairs.last().1) {
                None => Err(spec_pair_id(pairs.last().0, pairs.last().1)),
                Some(o) => Ok(items.push(o)),
            },
        }
    }
}

/// The newest observation of a pair among `rates`.
pub fn find_newest(rates: &Vec<ExchangeRateResult>, from: &String, to: &String) -> (r: Option<
    ExchangeRateResult,
>)
    ensures
        r is Some <==> newest_of_pair(rates.deep_view(), from@, to@) is Some,
        r is Some ==> Some(r->0@) == newest_of_pair(rates.deep_view(), from@, to@),
{
    let ghost all = rates.deep_view();
    let mut best: Option<usize> = None;
    let mut i: usize = 0;
    assert(all.take(0) =~= Seq::<Observation>::empty());
    while i < rates.len()
        invariant
            i <= rates@.len(),
            all == rates.deep_view(),
            best is Some ==> best->0 < i,
            best is Some <==> newest_of_pair(all.take(i as int), from@, to@) is Some,
            best is Some ==> Some(all[best->0 as int]) == newest_of_pair(
                all.take(i as int),
                from@,
                to@,
            ),
        decreases rates@.len() - i,
    {
        assert(all.take(i + 1).drop_last() =~= all.take(i as int));
        assert(all.take(i + 1).last() == rates@[i as int]@);
        if rates[i].from == *from && rates[i].to == *to {
            let newer = match best {
                None => true,
                Some(b) => rates[b].date < rates[i].date,
            };
            if newer {
                best = Some(i);
            }
        }
        i = i + 1;
    }
    assert(all.take(i as int) =~= all);
    match best {
        None => None,
        Some(b) => Some(rates[b].clone()),
    }
}

/// Once a pair among the first of `pairs` has no observation, the failure
/// of the whole names that pair.
pub proof fn lemma_newest_of_each_failure_stays(
    s: Seq<Observation>,
    pairs: Seq<(Seq<char>, Seq<char>)>,
    n: int,
)
    requires
        0 <= n <= pairs.len(),
        newest_of_each(s, pairs.take(n)) is Err,
    ensures
        newest_of_each(s, pairs) == newest_of_each(s, pairs.take(n)),
    decreases pairs.len() - n,
{
    if n == pairs.len() {
        assert(pairs.take(n) =~= pairs);
    } else {
        assert(pairs.take(n + 1).drop_last() =~= pairs.take(n));
        lemma_newest_of_each_failure_stays(s, pairs, n + 1);
    }
}

} // verus!
