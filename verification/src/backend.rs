//! The store of observations, and the atomic batches that change it.
//!
//! A save writes an observation under two keys: the key of its pair, where
//! the latest save of the pair is found by name, and the key of the pair at
//! the instant, which makes up the history of the pair. A scan gives the
//! history: the entry under the key of the pair alone is left out of it.
//! A delete removes one entry of the history.

use vstd::prelude::*;
use vstd::string::StringExecFns;
use crate::bytes::{compare_bytes, LexOrder};
use crate::error::Error;
use crate::exchange_rate::{ExchangeRateResult, Observation};
use crate::keys::{
    all_pairs_prefix, pair_id, pair_key, pair_key_at, spec_pair_id, spec_pair_key,
    spec_pair_key_at,
};
use crate::oracle_ser::ErrorView;
use crate::oracle_store::{
    lemma_lookup_with, lemma_lookup_without, lemma_with_sorted, lemma_without_sorted, lookup,
    sorted, views, with, Entries, Entry, Store,
};
use crate::record_codec::{decode, encode, encode_observation};
use crate::types::{
    decoded, deleted, get_gives, saved, scan_gives, ExchangePriceBatch, OracleBackend,
};

verus! {

/// Decodes the history that `found` holds.
fn decode_entries(found: &Vec<Entry>) -> (r: Result<Vec<ExchangeRateResult>, Error>)
    ensures
        match decoded(views(found@)) {
            Ok(items) => r is Ok && r->Ok_0.deep_view() == items,
            Err(e) => r is Err && r->Err_0@ == Error::spec_decode_failure(e),
        },
{
    let ghost all = views(found@);
    let mut out: Vec<ExchangeRateResult> = Vec::new();
    let mut i: usize = 0;
    assert(all.take(0) =~= Seq::<(Seq<u8>, Seq<u8>)>::empty());
    assert(out.deep_view() =~= Seq::<Observation>::empty());
    while i < found.len()
        invariant
            i <= found@.len(),
            all == views(found@),
            decoded(all.take(i as int)) == Ok::<Seq<Observation>, ErrorView>(out.deep_view()),
        decreases found@.len() - i,
    {
        let ghost before = out.deep_view();
        assert(all.take(i + 1).drop_last() =~= all.take(i as int));
        assert(all.take(i + 1).last() == found@[i as int]@);
        match decode(found[i].value.as_slice()) {
            Err(e) => {
                proof {
                    lemma_decoded_failure_stays(all, i + 1);
                }
                return Err(Error::decode_failure(&e));
            },
            Ok(rate) => {
                let id = pair_id(rate.from.as_str(), rate.to.as_str());
                let latest = pair_key(id.as_str());
                match compare_bytes(found[i].key.as_slice(), latest.as_slice()) {
                    LexOrder::Same => {},
                    _ => {
                        out.push(rate);
                        assert(out.deep_view() =~= before.push(rate@));
                    },
                }
            },
        }
        i = i + 1;
    }
    assert(all.take(i as int) =~= all);
    Ok(out)
}

/// Once a front part of the entries fails to decode, so does the whole.
proof fn lemma_decoded_failure_stays(s: Entries, n: int)
    requires
        0 <= n <= s.len(),
        decoded(s.take(n)) is Err,
    ensures
        decoded(s) == decoded(s.take(n)),
    decreases s.len() - n,
{
    if n == s.len() {
        assert(s.take(n) =~= s);
    } else {
        assert(s.take(n + 1).drop_last() =~= s.take(n));
        lemma_decoded_failure_stays(s, n + 1);
    }
}

/// The history under `prefix` in `db`.
fn scan_store(db: &Store, prefix: &[u8]) -> (r: Result<Vec<ExchangeRateResult>, Error>)
    ensures
        scan_gives(db@, prefix@, r),
{
    let found = db.scan(prefix);
    decode_entries(&found)
}

/// The latest save of the pair `id` in `db`.
fn get_from(db: &Store, id: &str, label: &str) -> (r: Result<ExchangeRateResult, Error>)
    ensures
        get_gives(db@, id@, label@, r),
{
    let key = pair_key(id);
    match db.get(key.as_slice()) {
        None => Err(Error::not_found(label.to_owned().concat(id))),
        Some(bytes) => match decode(bytes.as_slice()) {
            Ok(rate) => Ok(rate),
            Err(e) => Err(Error::decode_failure(&e)),
        },
    }
}

// ---------------------------------------------------------------------------
// The backend
// ---------------------------------------------------------------------------

/// The store of the oracle, held in memory.
pub struct MemBackend {
    db: Store,
    batch_open: bool,
}

/// An atomic batch in which all changes can be committed all at once or
/// discarded on error.
pub struct Batch {
    db: Store,
    closed: bool,
}

impl MemBackend {
    /// The entries that are committed.
    pub closed spec fn committed(&self) -> Entries {
        self.db@
    }

    /// Whether a batch is open on the store.
    pub closed spec fn has_batch(&self) -> bool {
        self.batch_open
    }

    /// A store that holds nothing and has no batch open.
    pub fn new() -> (backend: MemBackend)
        ensures
            backend.entries() == Seq::<(Seq<u8>, Seq<u8>)>::empty(),
            !backend.batch_open(),
    {
        MemBackend { db: Store::new(), batch_open: false }
    }

    /// Whether a batch is open on the store. The keys of the committed
    /// entries always stand in strictly rising order.
    pub fn has_open_batch(&self) -> (open: bool)
        ensures
            open == self.batch_open(),
            sorted(self.entries()),
    {
        let _ = self.db.len();
        self.batch_open
    }
}

impl OracleBackend for MemBackend {
    type Batch = Batch;

    open spec fn entries(&self) -> Entries {
        self.committed()
    }

    open spec fn batch_open(&self) -> bool {
        self.has_batch()
    }

    proof fn lemma_batch_sees_store(&self) {
    }

    fn iter(&self) -> (r: Result<Vec<ExchangeRateResult>, Error>) {
        let prefix = all_pairs_prefix();
        scan_store(&self.db, prefix.as_slice())
    }

    fn iter_id(&self, id: &str) -> (r: Result<Vec<ExchangeRateResult>, Error>) {
        let prefix = pair_key(id);
        scan_store(&self.db, prefix.as_slice())
    }

    fn get(&self, id: &str) -> (r: Result<ExchangeRateResult, Error>) {
        get_from(&self.db, id, "Key Id: ")
    }

    fn batch(&mut self) -> (r: Result<Batch, Error>) {
        if self.batch_open {
            return Err(Error::backend("a batch is already open".to_owned()));
        }
        self.batch_open = true;
        Ok(Batch { db: self.db.duplicate(), closed: false })
    }
}

impl Batch {
    /// Whether the batch has been committed. The keys of the entries that
    /// it sees always stand in strictly rising order.
    pub fn is_closed(&self) -> (closed: bool)
        ensures
            closed == self.closed(),
            sorted(self.entries()),
    {
        let _ = self.db.len();
        self.closed
    }
}

impl ExchangePriceBatch for Batch {
    type Backend = MemBackend;

    closed spec fn entries(&self) -> Entries {
        self.db@
    }

    closed spec fn closed(&self) -> bool {
        self.closed
    }

    open spec fn store_entries(backend: &MemBackend) -> Entries {
        backend.committed()
    }

    open spec fn store_batch_open(backend: &MemBackend) -> bool {
        backend.has_batch()
    }

    fn save(&mut self, date: i64, exchange_rate: ExchangeRateResult) -> (r: Result<(), Error>) {
        if self.closed {
            return Err(Error::batch_closed());
        }
        // Save the exchange rate data to the db.
        let id = pair_id(exchange_rate.from.as_str(), exchange_rate.to.as_str());
        self.db.put(pair_key(id.as_str()), encode(&exchange_rate));
        self.db.put(pair_key_at(id.as_str(), date), encode(&exchange_rate));
        Ok(())
    }

    fn get(&self, id: &str) -> (r: Result<ExchangeRateResult, Error>) {
        if self.closed {
            return Err(Error::batch_closed());
        }
        get_from(&self.db, id, "Key ID: ")
    }

    fn iter(&self) -> (r: Result<Vec<ExchangeRateResult>, Error>) {
        if self.closed {
            return Err(Error::batch_closed());
        }
        let prefix = all_pairs_prefix();
        scan_store(&self.db, prefix.as_slice())
    }

    fn iter_id(&self, id: &str) -> (r: Result<Vec<ExchangeRateResult>, Error>) {
        if self.closed {
            return Err(Error::batch_closed());
        }
        let prefix = pair_key(id);
        scan_store(&self.db, prefix.as_slice())
    }

    fn delete(&mut self, id: &str, date: i64) -> (r: Result<(), Error>) {
        if self.closed {
            return Err(Error::batch_closed());
        }
        // Delete the exchange rate data.
        let key = pair_key_at(id, date);
        let _ = self.db.delete(key.as_slice());
        Ok(())
    }

    fn commit(&mut self, backend: &mut MemBackend) -> (r: Result<(), Error>) {
        if self.closed {
            return Err(Error::batch_closed());
        }
        if !backend.batch_open {
            return Err(Error::backend("no batch is open".to_owned()));
        }
        core::mem::swap(&mut backend.db, &mut self.db);
        backend.batch_open = false;
        self.closed = true;
        Ok(())
    }

    fn discard(self, backend: &mut MemBackend) {
        if !self.closed {
            backend.batch_open = false;
        }
    }
}

// ---------------------------------------------------------------------------
// What a batch leaves behind
// ---------------------------------------------------------------------------

/// One change that a batch stages.
pub enum BatchOp {
    /// A save of `observation` for the instant `date`.
    Save { date: i64, observation: Observation },
    /// A delete of the observation of the pair `id` at the instant `date`.
    Delete { id: Seq<char>, date: i64 },
}

/// The entries after one change.
pub open spec fn applied(s: Entries, op: BatchOp) -> Entries {
    match op {
        BatchOp::Save { date, observation } => saved(s, date, observation),
        BatchOp::Delete { id, date } => deleted(s, id, date),
    }
}

/// The entries as a batch sees them that was opened on `base` and has
/// staged `ops` in turn. A commit makes them the entries of the store.
pub open spec fn staged(base: Entries, ops: Seq<BatchOp>) -> Entries
    decreases ops.len(),
{
    if ops.len() == 0 {
        base
    } else {
        applied(staged(base, ops.drop_last()), ops.last())
    }
}

/// What stands under `key` once `ops` have been made on `base` in turn: what
/// the last change that touches the key put there, or took away; and what
/// stood there in `base` where none touches it.
pub open spec fn lookup_after(base: Entries, ops: Seq<BatchOp>, key: Seq<u8>) -> Option<Seq<u8>>
    decreases ops.len(),
{
    if ops.len() == 0 {
        lookup(base, key)
    } else {
        match ops.last() {
            BatchOp::Save { date, observation } => if key == spec_pair_key(
                spec_pair_id(observation.from, observation.to),
            ) || key == spec_pair_key_at(spec_pair_id(observation.from, observation.to), date) {
                Some(encode_observation(observation))
            } else {
                lookup_after(base, ops.drop_last(), key)
            },
            BatchOp::Delete { id, date } => if key == spec_pair_key_at(id, date) {
                None
            } else {
                lookup_after(base, ops.drop_last(), key)
            },
        }
    }
}

/// What a commit makes visible: every save and every delete that a batch
/// staged shows in what the store holds after the commit. Under each key
/// stands what the last change that touches it left there, and every other
/// key holds what it held when the batch was opened. A batch that is
/// discarded instead leaves the store as it was: no staging reaches the
/// store, and neither does the discarding.
pub proof fn lemma_staged_changes_are_visible(base: Entries, ops: Seq<BatchOp>, key: Seq<u8>)
    requires
        sorted(base),
    ensures
        sorted(staged(base, ops)),
        lookup(staged(base, ops), key) == lookup_after(base, ops, key),
    decreases ops.len(),
{
    if ops.len() > 0 {
        let before = staged(base, ops.drop_last());
        lemma_staged_changes_are_visible(base, ops.drop_last(), key);
        match ops.last() {
            BatchOp::Save { date, observation } => {
                let id = spec_pair_id(observation.from, observation.to);
                let bytes = encode_observation(observation);
                let first = with(before, spec_pair_key(id), bytes);
                lemma_with_sorted(before, spec_pair_key(id), bytes);
                lemma_with_sorted(first, spec_pair_key_at(id, date), bytes);
                lemma_lookup_with(before, spec_pair_key(id), bytes, key);
                lemma_lookup_with(first, spec_pair_key_at(id, date), bytes, key);
            },
            BatchOp::Delete { id, date } => {
                lemma_without_sorted(before, spec_pair_key_at(id, date));
                lemma_lookup_without(before, spec_pair_key_at(id, date), key);
            },
        }
    }
}

} // verus!
