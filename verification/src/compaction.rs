//! The pruning of the history that is older than a window.

use vstd::prelude::*;
use crate::error::{Error, ErrorKindView};
use crate::exchange_rate::Observation;
use crate::keys::{pair_id, spec_all_pairs_prefix, spec_pair_id, spec_pair_key_at};
use crate::oracle_store::{
    lemma_lookup_without, lemma_without_sorted, lookup, sorted, with_prefix, Entries,
};
use crate::types::{decoded, deleted, ExchangePriceBatch, OracleBackend};

verus! {

/// The instant before which history is pruned: `minutes` minutes before `now`.
pub open spec fn cutoff(now: i64, minutes: u32) -> int {
    now - 60 * minutes
}

/// The observations of `s` that are older than `cutoff`, in their order.
pub open spec fn expired(s: Seq<Observation>, cutoff: int) -> Seq<Observation>
    decreases s.len(),
{
    if s.len() == 0 {
        s
    } else if s.last().date < cutoff {
        expired(s.drop_last(), cutoff).push(s.last())
    } else {
        expired(s.drop_last(), cutoff)
    }
}

/// The entries after each of `victims` was deleted from the history of its
/// pair at its own instant.
pub open spec fn purged(s: Entries, victims: Seq<Observation>) -> Entries
    decreases victims.len(),
{
    if victims.len() == 0 {
        s
    } else {
        deleted(
            purged(s, victims.drop_last()),
            spec_pair_id(victims.last().from, victims.last().to),
            victims.last().date,
        )
    }
}

/// A compaction at the instant `now` with a window of `minutes` minutes
/// took a store from the entries `before` to the entries `after` and gave
/// `r`: while another batch is open, and where an entry of the store does
/// not decode, it fails and the store stays as it is; else every
/// observation of the history that is older than the window is deleted,
/// and their number is handed back. The store is as free for a batch
/// afterwards as it was before.
pub open spec fn compacted(
    before: Entries,
    was_open: bool,
    after: Entries,
    is_open: bool,
    now: i64,
    minutes: u32,
    r: Result<usize, Error>,
) -> bool {
    &&& is_open == was_open
    &&& was_open ==> r is Err && r->Err_0@ == ErrorKindView::Backend("a batch is already open"@)
        && after == before
    &&& !was_open ==> match decoded(with_prefix(before, spec_all_pairs_prefix())) {
        Err(e) => r is Err && r->Err_0@ == Error::spec_decode_failure(e) && after == before,
        Ok(found) => r == Ok::<usize, Error>(expired(found, cutoff(now, minutes)).len() as usize)
            && after == purged(before, expired(found, cutoff(now, minutes))),
    }
}

/// Compact the exchange rate data, clean the data beyond x minutes: every
/// observation of the history that is older than `minutes` minutes at the
/// instant `now` is deleted, all in one batch.
///
/// # Arguments
/// * `now` - the current instant, in seconds since the Unix epoch.
/// * `minutes` - compact data which beyond specified minutes.
///
/// # Returns
/// * How many items have been cleaned.
pub fn compact<B: OracleBackend>(oracle: &mut B, now: i64, minutes: u32) -> (r: Result<
    usize,
    Error,
>)
    ensures
        compacted(
            old(oracle).entries(),
            old(oracle).batch_open(),
            final(oracle).entries(),
            final(oracle).batch_open(),
            now,
            minutes,
            r,
        ),
{
    let mut batch = oracle.batch()?;
    // read all rate data from local database
    let rates = match batch.iter() {
        Ok(rates) => rates,
        Err(e) => {
            proof {
                oracle.lemma_batch_sees_store();
            }
            batch.discard(oracle);
            proof {
                oracle.lemma_batch_sees_store();
            }
            return Err(e);
        },
    };
    let ghost start = old(oracle).entries();
    let ghost found = rates.deep_view();
    let ghost limit = cutoff(now, minutes);
    let mut total_cleaned: usize = 0;
    let mut i: usize = 0;
    assert(found.take(0) =~= Seq::<Observation>::empty());
    while i < rates.len()
        invariant
            i <= rates@.len(),
            found == rates.deep_view(),
            limit == cutoff(now, minutes),
            !batch.closed(),
            total_cleaned <= i,
            total_cleaned == expired(found.take(i as int), limit).len(),
            batch.entries() == purged(start, expired(found.take(i as int), limit)),
        decreases rates@.len() - i,
    {
        assert(found.take(i + 1).drop_last() =~= found.take(i as int));
        assert(found.take(i + 1).last() == rates@[i as int]@);
        let rate = &rates[i];
        if (rate.date as i128) < (now as i128) - 60 * (minutes as i128) {
            total_cleaned = total_cleaned + 1;
            let id = pair_id(rate.from.as_str(), rate.to.as_str());
            let _ = batch.delete(id.as_str(), rate.date);
            assert(expired(found.take(i + 1), limit).drop_last() =~= expired(
                found.take(i as int),
                limit,
            ));
        }
        i = i + 1;
    }
    assert(found.take(i as int) =~= found);
    proof {
        oracle.lemma_batch_sees_store();
    }
    let _ = batch.commit(oracle);
    proof {
        oracle.lemma_batch_sees_store();
    }
    Ok(total_cleaned)
}

/// The key under which the history holds the observation `o`.
pub open spec fn history_key(o: Observation) -> Seq<u8> {
    spec_pair_key_at(spec_pair_id(o.from, o.to), o.date)
}

/// Whether `key` is the history key of one of `victims`.
pub open spec fn is_key_of_one(victims: Seq<Observation>, key: Seq<u8>) -> bool {
    exists|i: int| 0 <= i < victims.len() && history_key(#[trigger] victims[i]) == key
}

/// The expired observations are those that are older than the cutoff, and
/// no others.
pub proof fn lemma_expired_are_the_old(s: Seq<Observation>, cutoff: int, o: Observation)
    ensures
        expired(s, cutoff).contains(o) <==> s.contains(o) && o.date < cutoff,
        expired(s, cutoff).len() <= s.len(),
    decreases s.len(),
{
    if s.len() > 0 {
        let t = s.drop_last();
        let r = expired(s, cutoff);
        lemma_expired_are_the_old(t, cutoff, o);
        if t.contains(o) {
            let i = choose|i: int| 0 <= i < t.len() && t[i] == o;
            assert(s[i] == o);
        }
        if s.contains(o) && !t.contains(o) {
            let i = choose|i: int| 0 <= i < s.len() && s[i] == o;
            if i < t.len() {
                assert(t[i] == o);
            }
        }
        if expired(t, cutoff).contains(o) {
            let i = choose|i: int| 0 <= i < expired(t, cutoff).len() && expired(t, cutoff)[i] == o;
            assert(r[i] == o);
        }
        if s.last() == o {
            assert(s[s.len() - 1] == o);
            if o.date < cutoff {
                assert(r[r.len() - 1] == o);
            }
        }
        if r.contains(o) && !expired(t, cutoff).contains(o) {
            let i = choose|i: int| 0 <= i < r.len() && r[i] == o;
            if i < expired(t, cutoff).len() {
                assert(expired(t, cutoff)[i] == o);
            }
        }
    }
}

/// Compaction takes away what it should and nothing else: once the
/// observations `victims` are deleted, nothing stands under the history key
/// of any of them, and under every other key stands what stood there
/// before.
pub proof fn lemma_purged_keys(s: Entries, victims: Seq<Observation>, key: Seq<u8>)
    requires
        sorted(s),
    ensures
        sorted(purged(s, victims)),
        lookup(purged(s, victims), key) == if is_key_of_one(victims, key) {
            None
        } else {
            lookup(s, key)
        },
    decreases victims.len(),
{
    if victims.len() > 0 {
        let rest = victims.drop_last();
        let last = victims.last();
        lemma_purged_keys(s, rest, key);
        lemma_without_sorted(purged(s, rest), history_key(last));
        lemma_lookup_without(purged(s, rest), history_key(last), key);
        if is_key_of_one(rest, key) {
            let i = choose|i: int| 0 <= i < rest.len() && history_key(#[trigger] rest[i]) == key;
            assert(history_key(victims[i]) == key);
        }
        if history_key(last) == key {
            assert(history_key(victims[victims.len() - 1]) == key);
        }
        if is_key_of_one(victims, key) && history_key(last) != key {
            let i = choose|i: int|
                0 <= i < victims.len() && history_key(#[trigger] victims[i]) == key;
            assert(history_key(rest[i]) == key);
        }
    }
}

} // verus!
