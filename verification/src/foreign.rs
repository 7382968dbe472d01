//! What the oracle answers to those who ask from outside: the recent
//! observations, the newest observation of each pair that it follows, the
//! recording of a rate that was fetched on demand, and the pruning of old
//! history.

use vstd::prelude::*;
use crate::compaction::{compact, compacted};
use crate::daemon::{record, recorded};
use crate::error::{Error, ErrorKindView};
use crate::exchange_rate::{observed, ExchangeRate, ExchangeRateResult, Observation};
use crate::handlers::{spec_crate_version, Version, VersionHandler};
use crate::keys::{pair_id, spec_all_pairs_prefix, spec_pair_key};
use crate::oracle_ser::ErrorView;
use crate::oracle_store::{with_prefix, Entries};
use crate::ranking::{
    find_newest, first_of, lemma_newest_of_each_failure_stays, newest_first, newest_of_each,
    sort_newest_first, spec_tracked_pairs, tracked_pairs,
};
use crate::types::{decoded, OracleBackend};

verus! {

/// The front part of keys that a query for `prefix` scans: that of every
/// observation where `prefix` is empty, and else that of the pairs whose
/// identifier begins with `prefix`.
pub open spec fn scan_prefix(prefix: Seq<char>) -> Seq<u8> {
    if prefix.len() == 0 {
        spec_all_pairs_prefix()
    } else {
        spec_pair_key(prefix)
    }
}

/// A query for the `items` most recent observations under `prefix` in
/// `entries` gave `r`: the history found there, newest first and cut to
/// `items` entries; or a store error that names the failure of the first
/// entry that does not decode.
pub open spec fn recent_gives(
    entries: Entries,
    prefix: Seq<char>,
    items: nat,
    r: Result<Vec<ExchangeRateResult>, Error>,
) -> bool {
    match decoded(with_prefix(entries, scan_prefix(prefix))) {
        Ok(found) => r is Ok && r->Ok_0.deep_view() == first_of(newest_first(found), items),
        Err(e) => r is Err && r->Err_0@ == Error::spec_decode_failure(e),
    }
}

/// A query for the aggregated rates in `entries` gave `r`: the newest
/// observation of each pair that the oracle follows, newest first; an error
/// that names the first of these pairs that has no observation; or a store
/// error that names the failure of the first entry that does not decode.
pub open spec fn aggregated_gives(
    entries: Entries,
    r: Result<Vec<ExchangeRateResult>, Error>,
) -> bool {
    match decoded(with_prefix(entries, spec_all_pairs_prefix())) {
        Err(e) => r is Err && r->Err_0@ == Error::spec_decode_failure(e),
        Ok(found) => match newest_of_each(found, spec_tracked_pairs()) {
            Err(id) => r is Err && r->Err_0@ == ErrorKindView::NotFound(id),
            Ok(items) => r is Ok && r->Ok_0.deep_view() == newest_first(items),
        },
    }
}

/// Main interface into all oracle API functions.
///
/// Methods in this API are intended to be 'single use'.
pub struct Foreign<T: OracleBackend> {
    /// Oracle instance
    pub oracle: T,
}

impl<T: OracleBackend> Foreign<T> {
    /// Create a new API instance over the store `oracle`. All subsequent
    /// API calls will operate on this store.
    pub fn new(oracle: T) -> (api: Self)
        ensures
            api.oracle == oracle,
    {
        Foreign { oracle }
    }

    /// Returns the oracle version and block header version (used by gotts node).
    pub fn get_version(&self) -> (r: Result<Version, Error>)
        ensures
            r is Ok,
            r->Ok_0.oracle_version@ == spec_crate_version(),
            r->Ok_0.block_header_version == 0,
    {
        let version_handler = VersionHandler {  };
        version_handler.get_version()
    }

    /// Returns the Exchange Rate that was fetched from the vendor on
    /// demand, after storing it as an observation in a batch of its own.
    /// While another batch is open the store refuses, and stays as it is.
    ///
    /// # Arguments
    /// * `fetched` - what the vendor answered.
    pub fn get_rate(&mut self, fetched: &ExchangeRate) -> (r: Result<ExchangeRateResult, Error>)
        ensures
            r is Ok ==> r->Ok_0@ == observed(*fetched),
            recorded(
                old(self).oracle.entries(),
                old(self).oracle.batch_open(),
                final(self).oracle.entries(),
                final(self).oracle.batch_open(),
                fetched.date,
                observed(*fetched),
                r.err(),
            ),
    {
        let exchange_rate_result = ExchangeRateResult::from_rate(fetched);
        // save the query data into local database for aggregation
        record(&mut self.oracle, &exchange_rate_result)?;
        Ok(exchange_rate_result)
    }

    /// Returns the recent Exchange Rate: the history of the pairs whose
    /// identifier begins with `prefix`, of all pairs where it is empty,
    /// newest first and cut to `items` entries. Whatever the store holds,
    /// a list that is returned is never longer than `items`; where an entry
    /// under the prefix does not decode, no list is returned but the error.
    ///
    /// # Arguments
    /// * `prefix` - exchange rate prefix, for example "USD", "USD2CNY", etc.
    /// * `items` - how many items need to be returned.
    pub fn get_recent(&self, prefix: String, items: usize) -> (r: Result<
        Vec<ExchangeRateResult>,
        Error,
    >)
        ensures
            recent_gives(self.oracle.entries(), prefix@, items as nat, r),
            r is Ok ==> r->Ok_0@.len() <= items,
    {
        let rates = if prefix.as_str().is_empty() {
            self.oracle.iter()?
        } else {
            self.oracle.iter_id(prefix.as_str())?
        };
        let mut rates = sort_newest_first(&rates);
        let ghost sorted_rates = rates.deep_view();
        rates.truncate(items);
        assert(rates.deep_view() =~= first_of(sorted_rates, items as nat));
        Ok(rates)
    }

    /// Compact the exchange rate data, clean the data beyond x minutes.
    ///
    /// # Arguments
    /// * `now` - the current instant, in seconds since the Unix epoch.
    /// * `minutes` - compact data which beyond specified minutes.
    ///
    /// # Returns
    /// * How many items have been cleaned.
    pub fn compact(&mut self, now: i64, minutes: u32) -> (r: Result<usize, Error>)
        ensures
            compacted(
                old(self).oracle.entries(),
                old(self).oracle.batch_open(),
                final(self).oracle.entries(),
                final(self).oracle.batch_open(),
                now,
                minutes,
                r,
            ),
    {
        compact(&mut self.oracle, now, minutes)
    }

    /// Get aggregated exchange rates: the newest observation of each pair
    /// that the oracle follows, newest first. Where one of the pairs has no
    /// observation the whole call fails and names that pair.
    pub fn get_aggregated(&self) -> (r: Result<Vec<ExchangeRateResult>, Error>)
        ensures
            aggregated_gives(self.oracle.entries(), r),
    {
        let rates = self.oracle.iter()?;
        let pairs = tracked_pairs();
        let ghost found = rates.deep_view();
        let ghost wanted = pairs.deep_view();
        let mut aggregated: Vec<ExchangeRateResult> = Vec::new();
        let mut i: usize = 0;
        assert(wanted.take(0) =~= Seq::<(Seq<char>, Seq<char>)>::empty());
        assert(aggregated.deep_view() =~= Seq::<Observation>::empty());
        while i < pairs.len()
            invariant
                i <= pairs@.len(),
                found == rates.deep_view(),
                wanted == pairs.deep_view(),
                wanted == spec_tracked_pairs(),
                decoded(with_prefix(self.oracle.entries(), spec_all_pairs_prefix())) == Ok::<
                    Seq<Observation>,
                    ErrorView,
                >(found),
                newest_of_each(found, wanted.take(i as int)) == Ok::<Seq<Observation>, Seq<char>>(
                    aggregated.deep_view(),
                ),
            decreases pairs@.len() - i,
        {
            let ghost before = aggregated.deep_view();
            assert(wanted.take(i + 1).drop_last() =~= wanted.take(i as int));
            assert(wanted.take(i + 1).last() == pairs@[i as int].deep_view());
            match find_newest(&rates, &pairs[i].0, &pairs[i].1) {
                None => {
                    proof {
                        assert(newest_of_each(found, wanted.take(i + 1)) is Err);
                        lemma_newest_of_each_failure_stays(found, wanted, i + 1);
                    }
                    return Err(Error::not_found(pair_id(pairs[i].0.as_str(), pairs[i].1.as_str())));
                },
                Some(rate) => {
                    aggregated.push(rate);
                    assert(aggregated.deep_view() =~= before.push(rate@));
                },
            }
            i = i + 1;
        }
        assert(wanted.take(i as int) =~= wanted);
        Ok(sort_newest_first(&aggregated))
    }
}

} // verus!
