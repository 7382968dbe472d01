//! The interface of a store of observations and of its batches.

use vstd::prelude::*;
use crate::error::{Error, ErrorKindView};
use crate::exchange_rate::{ExchangeRateResult, Observation};
use crate::keys::{spec_all_pairs_prefix, spec_pair_id, spec_pair_key, spec_pair_key_at};
use crate::oracle_ser::{ErrorView, Parsed, MAX_READ_LEN};
use crate::oracle_store::{lookup, with, with_prefix, without, Entries};
use crate::record_codec::{encode_observation, parse_observation};

verus! {

// ---------------------------------------------------------------------------
// What the store holds, as observations
// ---------------------------------------------------------------------------

/// Whether `key` is the key of the pair of `o` alone, under which the latest
/// save of the pair stands.
pub open spec fn is_latest_entry(key: Seq<u8>, o: Observation) -> bool {
    key == spec_pair_key(spec_pair_id(o.from, o.to))
}

/// The observations that the entries hold, in their order, without those
/// under the key of a pair alone; or the failure of the first entry that
/// does not decode.
pub open spec fn decoded(s: Entries) -> Result<Seq<Observation>, ErrorView>
    decreases s.len(),
{
    if s.len() == 0 {
        Ok(Seq::empty())
    } else {
        match decoded(s.drop_last()) {
            Err(e) => Err(e),
            Ok(items) => match parse_observation(s.last().1, MAX_READ_LEN as nat) {
                Parsed::Failed { error, .. } => Err(error),
                Parsed::Done { value, .. } => if is_latest_entry(s.last().0, value) {
                    Ok(items)
                } else {
                    Ok(items.push(value))
                },
            },
        }
    }
}

/// The entries after `o` was saved for the instant `date`.
pub open spec fn saved(s: Entries, date: i64, o: Observation) -> Entries {
    let id = spec_pair_id(o.from, o.to);
    with(
        with(s, spec_pair_key(id), encode_observation(o)),
        spec_pair_key_at(id, date),
        encode_observation(o),
    )
}

/// The entries after the observation of the pair `id` at the instant `date`
/// was deleted.
pub open spec fn deleted(s: Entries, id: Seq<char>, date: i64) -> Entries {
    without(s, spec_pair_key_at(id, date))
}

/// A scan of `entries` under `prefix` gave `r`: the history found there, or
/// a store error that names the failure of the first entry that does not
/// decode.
pub open spec fn scan_gives(
    entries: Entries,
    prefix: Seq<u8>,
    r: Result<Vec<ExchangeRateResult>, Error>,
) -> bool {
    match decoded(with_prefix(entries, prefix)) {
        Ok(items) => r is Ok && r->Ok_0.deep_view() == items,
        Err(e) => r is Err && r->Err_0@ == Error::spec_decode_failure(e),
    }
}

/// A lookup of the pair `id` in `entries` gave `r`: the latest save of the
/// pair; an error that says, after `label`, which pair was not found; or a
/// store error that names why what was found does not decode.
pub open spec fn get_gives(
    entries: Entries,
    id: Seq<char>,
    label: Seq<char>,
    r: Result<ExchangeRateResult, Error>,
) -> bool {
    match lookup(entries, spec_pair_key(id)) {
        None => r is Err && r->Err_0@ == ErrorKindView::NotFound(label + id),
        Some(bytes) => match parse_observation(bytes, MAX_READ_LEN as nat) {
            Parsed::Done { value, .. } => r is Ok && r->Ok_0@ == value,
            Parsed::Failed { error, .. } => r is Err && r->Err_0@ == Error::spec_decode_failure(
                error,
            ),
        },
    }
}

// ---------------------------------------------------------------------------
// The interface
// ---------------------------------------------------------------------------

/// Combined trait to allow dynamic oracle dispatch
pub trait OracleInst: OracleBackend + Send + Sync + 'static {

}

impl<T> OracleInst for T where T: OracleBackend + Send + Sync + 'static {

}

/// Oracles should implement this backend for their storage. All functions
/// here expect that the oracle instance has instantiated itself or stored
/// whatever credentials it needs
pub trait OracleBackend: Sized {
    /// The batches that change this store.
    type Batch: ExchangePriceBatch<Backend = Self>;

    /// The entries that are committed, in the order of their keys.
    spec fn entries(&self) -> Entries;

    /// Whether a batch is open on the store.
    spec fn batch_open(&self) -> bool;

    /// A batch speaks of its store as the store does of itself.
    proof fn lemma_batch_sees_store(&self)
        ensures
            <Self::Batch as ExchangePriceBatch>::store_entries(self) == self.entries(),
            <Self::Batch as ExchangePriceBatch>::store_batch_open(self) == self.batch_open(),
    ;

    /// Iterate over all local exchange rate data stored by the backend
    fn iter(&self) -> (r: Result<Vec<ExchangeRateResult>, Error>)
        ensures
            scan_gives(self.entries(), spec_all_pairs_prefix(), r),
    ;

    /// Iterate over all local exchange rate data stored by the backend for
    /// the pairs whose identifier begins with `id`
    fn iter_id(&self, id: &str) -> (r: Result<Vec<ExchangeRateResult>, Error>)
        ensures
            scan_gives(self.entries(), spec_pair_key(id@), r),
    ;

    /// Get the latest save of a pair by its identifier
    fn get(&self, id: &str) -> (r: Result<ExchangeRateResult, Error>)
        ensures
            get_gives(self.entries(), id@, "Key Id: "@, r),
    ;

    /// Create a new write batch to update or remove output data. Only one
    /// batch can be open at a time: while one is, the call fails and leaves
    /// the store as it is.
    fn batch(&mut self) -> (r: Result<Self::Batch, Error>)
        ensures
            final(self).entries() == old(self).entries(),
            final(self).batch_open(),
            old(self).batch_open() ==> r is Err && r->Err_0@ == ErrorKindView::Backend(
                "a batch is already open"@,
            ),
            !old(self).batch_open() ==> r is Ok && r->Ok_0.entries() == old(self).entries()
                && !r->Ok_0.closed(),
    ;
}

/// Batch trait to update the exchange price data backend atomically. A batch
/// that is used after its commit fails.
pub trait ExchangePriceBatch: Sized {
    /// The store that the batch changes.
    type Backend;

    /// The entries as the batch sees them: those committed when it was
    /// opened, with its own changes.
    spec fn entries(&self) -> Entries;

    /// Whether the batch has been committed.
    spec fn closed(&self) -> bool;

    /// The entries that are committed in a store.
    spec fn store_entries(backend: &Self::Backend) -> Entries;

    /// Whether a batch is open on a store.
    spec fn store_batch_open(backend: &Self::Backend) -> bool;

    /// Add or update data about an exchange rate to the backend
    fn save(&mut self, date: i64, exchange_rate: ExchangeRateResult) -> (r: Result<(), Error>)
        ensures
            final(self).closed() == old(self).closed(),
            old(self).closed() ==> r is Err && r->Err_0@ == ErrorKindView::BatchAlreadyClosed
                && final(self).entries() == old(self).entries(),
            !old(self).closed() ==> r is Ok && final(self).entries() == saved(
                old(self).entries(),
                date,
                exchange_rate@,
            ),
    ;

    /// Gets the latest save of a pair by its identifier
    fn get(&self, id: &str) -> (r: Result<ExchangeRateResult, Error>)
        ensures
            self.closed() ==> r is Err && r->Err_0@ == ErrorKindView::BatchAlreadyClosed,
            !self.closed() ==> get_gives(self.entries(), id@, "Key ID: "@, r),
    ;

    /// Iterate over all exchange rate data stored by the backend
    fn iter(&self) -> (r: Result<Vec<ExchangeRateResult>, Error>)
        ensures
            self.closed() ==> r is Err && r->Err_0@ == ErrorKindView::BatchAlreadyClosed,
            !self.closed() ==> scan_gives(self.entries(), spec_all_pairs_prefix(), r),
    ;

    /// Iterate over all exchange rate data stored by the backend for the
    /// pairs whose identifier begins with `id`
    fn iter_id(&self, id: &str) -> (r: Result<Vec<ExchangeRateResult>, Error>)
        ensures
            self.closed() ==> r is Err && r->Err_0@ == ErrorKindView::BatchAlreadyClosed,
            !self.closed() ==> scan_gives(self.entries(), spec_pair_key(id@), r),
    ;

    /// Delete data about an exchange rate from the backend
    fn delete(&mut self, id: &str, date: i64) -> (r: Result<(), Error>)
        ensures
            final(self).closed() == old(self).closed(),
            old(self).closed() ==> r is Err && r->Err_0@ == ErrorKindView::BatchAlreadyClosed
                && final(self).entries() == old(self).entries(),
            !old(self).closed() ==> r is Ok && final(self).entries() == deleted(
                old(self).entries(),
                id@,
                date,
            ),
    ;

    /// Write the oracle data to the backend: what the batch sees becomes
    /// what is committed, all at once, and the store is free for the next
    /// batch. A batch commits once; after that it fails, as it does on a
    /// store that has no batch open, and either failure leaves the store
    /// and the batch as they are.
    fn commit(&mut self, backend: &mut Self::Backend) -> (r: Result<(), Error>)
        ensures
            ({
                let store = Self::store_entries(old(backend));
                let open = Self::store_batch_open(old(backend));
                let store_after = Self::store_entries(final(backend));
                let open_after = Self::store_batch_open(final(backend));
                if old(self).closed() {
                    &&& r is Err
                    &&& r->Err_0@ == ErrorKindView::BatchAlreadyClosed
                    &&& final(self).closed()
                    &&& final(self).entries() == old(self).entries()
                    &&& store_after == store
                    &&& open_after == open
                } else if !open {
                    &&& r is Err
                    &&& r->Err_0@ == ErrorKindView::Backend("no batch is open"@)
                    &&& !final(self).closed()
                    &&& final(self).entries() == old(self).entries()
                    &&& store_after == store
                    &&& !open_after
                } else {
                    &&& r is Ok
                    &&& final(self).closed()
                    &&& store_after == old(self).entries()
                    &&& !open_after
                }
            }),
    ;

    /// Gives the batch up. Unless it was committed before, nothing of it
    /// reaches the store, which is free for the next batch.
    fn discard(self, backend: &mut Self::Backend)
        ensures
            Self::store_entries(final(backend)) == Self::store_entries(old(backend)),
            Self::store_batch_open(final(backend)) == (self.closed() && Self::store_batch_open(
                old(backend),
            )),
    ;
}

} // verus!
