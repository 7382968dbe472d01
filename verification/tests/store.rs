use gotts_oracle::types::{ExchangePriceBatch, OracleBackend};
use gotts_oracle::backend::{Batch, MemBackend};
use gotts_oracle::error::{Error, ErrorKind};
use gotts_oracle::exchange_rate::ExchangeRateResult;
use gotts_oracle::keys::pair_key_at;
use gotts_oracle::oracle_store::Store;
use gotts_oracle::record_codec::encode;

fn rate(from: &str, to: &str, rate: f64, date: i64) -> ExchangeRateResult {
    ExchangeRateResult {
        from: from.to_string(),
        to: to.to_string(),
        rate_bits: rate.to_bits(),
        date,
    }
}

fn save_all(backend: &mut MemBackend, rates: &[ExchangeRateResult]) {
    let mut batch = backend.batch().unwrap();
    for r in rates {
        batch.save(r.date, r.clone()).unwrap();
    }
    batch.commit(backend).unwrap();
}

#[test]
fn store_keeps_keys_in_order_and_once() {
    let mut store = Store::new();
    store.put(b"b".to_vec(), vec![2]);
    store.put(b"a".to_vec(), vec![1]);
    store.put(b"ab".to_vec(), vec![3]);
    store.put(b"b".to_vec(), vec![4]);
    assert_eq!(store.len(), 3);
    let all = store.scan(b"");
    let keys: Vec<Vec<u8>> = all.iter().map(|e| e.key.clone()).collect();
    assert_eq!(keys, vec![b"a".to_vec(), b"ab".to_vec(), b"b".to_vec()]);
    assert_eq!(store.get(b"b"), Some(vec![4]));
    assert_eq!(store.get(b"c"), None);
    let under_a = store.scan(b"a");
    assert_eq!(under_a.len(), 2);
    assert_eq!(under_a[1].value, vec![3]);
    assert!(store.delete(b"a"));
    assert!(!store.delete(b"a"));
    assert_eq!(store.get(b"a"), None);
    assert_eq!(store.len(), 2);
    let copy = store.duplicate();
    assert_eq!(copy.get(b"ab"), Some(vec![3]));
    assert_eq!(copy.len(), 2);
}

#[test]
fn a_save_is_found_by_name_and_in_the_history() {
    let mut backend = MemBackend::new();
    let first = rate("EUR", "USD", 1.1, 100);
    let second = rate("EUR", "USD", 1.2, 200);
    save_all(&mut backend, &[first.clone(), second.clone()]);
    assert_eq!(backend.get("EUR2USD").unwrap(), second);
    assert_eq!(backend.iter().unwrap(), vec![first.clone(), second.clone()]);
    assert_eq!(backend.iter_id("EUR2USD").unwrap(), vec![first.clone(), second.clone()]);
    assert_eq!(backend.iter_id("EUR").unwrap(), vec![first, second]);
    assert!(backend.iter_id("USD").unwrap().is_empty());
}

#[test]
fn get_of_an_unknown_pair_is_not_found() {
    let backend = MemBackend::new();
    let e = backend.get("EUR2USD").unwrap_err();
    assert_eq!(e.kind(), ErrorKind::NotFound("Key Id: EUR2USD".to_string()));
    assert_eq!(e.message(), "Not found: Key Id: EUR2USD");
    assert_eq!(e.cause_string(), "Unknown");
    let mut backend = MemBackend::new();
    let batch = backend.batch().unwrap();
    let e = batch.get("EUR2USD").unwrap_err();
    assert_eq!(e.kind(), ErrorKind::NotFound("Key ID: EUR2USD".to_string()));
    batch.discard(&mut backend);
}

#[test]
fn the_history_of_a_pair_comes_in_the_order_of_its_instants() {
    let mut backend = MemBackend::new();
    save_all(
        &mut backend,
        &[
            rate("USD", "CNY", 7.2, 300),
            rate("EUR", "USD", 1.1, 200),
            rate("USD", "CNY", 7.0, 100),
            rate("USD", "CAD", 1.3, 50),
        ],
    );
    let dates: Vec<(String, i64)> =
        backend.iter().unwrap().into_iter().map(|r| (r.to, r.date)).collect();
    assert_eq!(
        dates,
        vec![
            ("USD".to_string(), 200),
            ("CAD".to_string(), 50),
            ("CNY".to_string(), 100),
            ("CNY".to_string(), 300)
        ]
    );
    let usd: Vec<i64> = backend.iter_id("USD").unwrap().into_iter().map(|r| r.date).collect();
    assert_eq!(usd, vec![50, 100, 300]);
}

#[test]
fn a_batch_reads_its_own_writes() {
    let mut backend = MemBackend::new();
    save_all(&mut backend, &[rate("EUR", "USD", 1.1, 100)]);
    let mut batch = backend.batch().unwrap();
    batch.save(200, rate("EUR", "USD", 1.2, 200)).unwrap();
    batch.delete("EUR2USD", 100).unwrap();
    assert_eq!(batch.iter().unwrap(), vec![rate("EUR", "USD", 1.2, 200)]);
    assert_eq!(batch.iter_id("EUR2USD").unwrap(), vec![rate("EUR", "USD", 1.2, 200)]);
    assert_eq!(batch.get("EUR2USD").unwrap(), rate("EUR", "USD", 1.2, 200));
    assert_eq!(backend.iter().unwrap(), vec![rate("EUR", "USD", 1.1, 100)]);
    batch.discard(&mut backend);
}

#[test]
fn a_discarded_batch_leaves_the_store_unchanged() {
    let mut backend = MemBackend::new();
    let kept = vec![rate("EUR", "USD", 1.1, 100), rate("GBP", "USD", 1.3, 100)];
    save_all(&mut backend, &kept);
    let before = backend.iter().unwrap();
    let mut batch = backend.batch().unwrap();
    for n in 0..5 {
        batch.save(200 + n, rate("BTC", "USD", 9000.0 + n as f64, 200 + n)).unwrap();
    }
    batch.delete("EUR2USD", 100).unwrap();
    batch.discard(&mut backend);
    assert_eq!(backend.iter().unwrap(), before);
    assert_eq!(backend.get("EUR2USD").unwrap(), kept[0]);
    assert!(backend.get("BTC2USD").is_err());
    assert!(!backend.has_open_batch());
}

#[test]
fn a_committed_batch_shows_every_save_and_the_delete() {
    let mut backend = MemBackend::new();
    save_all(&mut backend, &[rate("EUR", "USD", 1.1, 100), rate("GBP", "USD", 1.3, 100)]);
    let mut batch = backend.batch().unwrap();
    let mut saves = Vec::new();
    for n in 0..5 {
        let r = rate("BTC", "USD", 9000.0 + n as f64, 200 + n);
        batch.save(r.date, r.clone()).unwrap();
        saves.push(r);
    }
    batch.delete("EUR2USD", 100).unwrap();
    batch.commit(&mut backend).unwrap();
    let all = backend.iter().unwrap();
    for r in &saves {
        assert!(all.contains(r));
    }
    assert!(!all.contains(&rate("EUR", "USD", 1.1, 100)));
    assert!(all.contains(&rate("GBP", "USD", 1.3, 100)));
    assert_eq!(all.len(), 6);
    assert_eq!(backend.get("BTC2USD").unwrap(), saves[4]);
    assert_eq!(backend.iter_id("BTC2USD").unwrap(), saves);
}

#[test]
fn a_second_batch_is_refused_while_one_is_open() {
    let mut backend = MemBackend::new();
    save_all(&mut backend, &[rate("EUR", "USD", 1.1, 100)]);
    let before = backend.iter().unwrap();
    let mut first = backend.batch().unwrap();
    assert!(backend.has_open_batch());
    let refused: Result<Batch, Error> = backend.batch();
    let e = refused.err().unwrap();
    assert_eq!(e.kind(), ErrorKind::Backend("a batch is already open".to_string()));
    assert_eq!(backend.iter().unwrap(), before);
    first.save(200, rate("EUR", "USD", 1.2, 200)).unwrap();
    first.commit(&mut backend).unwrap();
    assert_eq!(backend.iter().unwrap().len(), 2);
    let again = backend.batch().unwrap();
    again.discard(&mut backend);
}

#[test]
fn a_batch_fails_loudly_after_its_commit() {
    let mut backend = MemBackend::new();
    let mut batch = backend.batch().unwrap();
    assert!(!batch.is_closed());
    batch.save(100, rate("EUR", "USD", 1.1, 100)).unwrap();
    batch.commit(&mut backend).unwrap();
    assert!(batch.is_closed());
    let closed = ErrorKind::BatchAlreadyClosed;
    assert_eq!(batch.save(200, rate("EUR", "USD", 1.2, 200)).unwrap_err().kind(), closed);
    assert_eq!(batch.delete("EUR2USD", 100).unwrap_err().kind(), closed);
    assert_eq!(batch.get("EUR2USD").unwrap_err().kind(), closed);
    assert_eq!(batch.iter().unwrap_err().kind(), closed);
    assert_eq!(batch.iter_id("EUR").unwrap_err().kind(), closed);
    assert_eq!(batch.commit(&mut backend).unwrap_err().kind(), closed);
    assert_eq!(backend.iter().unwrap(), vec![rate("EUR", "USD", 1.1, 100)]);
    batch.discard(&mut backend);
    assert!(!backend.has_open_batch());
}

#[test]
fn a_commit_needs_an_open_batch_on_the_store() {
    let mut backend = MemBackend::new();
    let mut other = MemBackend::new();
    let mut batch = backend.batch().unwrap();
    batch.save(100, rate("EUR", "USD", 1.1, 100)).unwrap();
    let e = batch.commit(&mut other).unwrap_err();
    assert_eq!(e.kind(), ErrorKind::Backend("no batch is open".to_string()));
    assert!(other.iter().unwrap().is_empty());
    batch.commit(&mut backend).unwrap();
    assert_eq!(backend.iter().unwrap().len(), 1);
}

#[test]
fn a_record_that_does_not_decode_fails_the_scan() {
    let mut backend = MemBackend::new();
    save_all(&mut backend, &[rate("EUR", "USD", 1.1, 100)]);
    let long = "x".repeat(4_000_001);
    save_all(&mut backend, &[rate(&long, "USD", 1.0, 5)]);
    let e = backend.iter().unwrap_err();
    assert_eq!(e.kind(), ErrorKind::Backend("too large read".to_string()));
    assert_eq!(e.message(), "Oracle store error: too large read");
    assert_eq!(backend.iter_id("EUR").unwrap(), vec![rate("EUR", "USD", 1.1, 100)]);
}

#[test]
fn delete_removes_one_entry_of_the_history() {
    let mut backend = MemBackend::new();
    save_all(&mut backend, &[rate("EUR", "USD", 1.1, 100), rate("EUR", "USD", 1.2, 200)]);
    let mut batch = backend.batch().unwrap();
    batch.delete("EUR2USD", 100).unwrap();
    batch.delete("EUR2USD", 999).unwrap();
    batch.commit(&mut backend).unwrap();
    assert_eq!(backend.iter().unwrap(), vec![rate("EUR", "USD", 1.2, 200)]);
    assert_eq!(backend.get("EUR2USD").unwrap(), rate("EUR", "USD", 1.2, 200));
    assert_eq!(encode(&rate("EUR", "USD", 1.2, 200)).len(), 8 + 3 + 8 + 3 + 16);
    assert_eq!(pair_key_at("EUR2USD", 200).len(), 2 + 7 + 8);
}

#[test]
fn error_kinds_have_their_words() {
    assert_eq!(ErrorKind::Format("x".to_string()).message(), "JSON format error: x");
    assert_eq!(ErrorKind::IO.message(), "I/O error");
    assert_eq!(ErrorKind::Vendor.message(), "Vendor API error");
    assert_eq!(ErrorKind::GenericError("y".to_string()).message(), "Generic error: y");
    assert_eq!(ErrorKind::BatchAlreadyClosed.message(), "Batch already closed");
    let e = Error::from(ErrorKind::Vendor);
    assert_eq!(e.kind(), ErrorKind::Vendor);
    assert_eq!(e.clone(), e);
    assert_ne!(ErrorKind::IO, ErrorKind::Vendor);
}

#[test]
fn store_finds_every_key_among_many() {
    let mut store = Store::new();
    let mut n: u32 = 7;
    let mut keys: Vec<Vec<u8>> = Vec::new();
    for _ in 0..300 {
        n = n.wrapping_mul(1_103_515_245).wrapping_add(12_345);
        let key = vec![(n >> 16) as u8, (n >> 8) as u8 % 4];
        store.put(key.clone(), n.to_be_bytes().to_vec());
        keys.retain(|k| *k != key);
        keys.push(key);
    }
    assert_eq!(store.len(), keys.len());
    let all = store.scan(b"");
    assert!(all.windows(2).all(|w| w[0].key < w[1].key));
    for key in &keys {
        assert!(store.get(key).is_some());
    }
    assert_eq!(store.get(&[0, 9]), None);
    for (i, key) in keys.iter().enumerate() {
        if i % 2 == 0 {
            assert!(store.delete(key));
            assert_eq!(store.get(key), None);
        }
    }
    assert_eq!(store.len(), keys.len() / 2);
    let all = store.scan(b"");
    assert!(all.windows(2).all(|w| w[0].key < w[1].key));
}

#[test]
fn instants_before_the_epoch_come_last_in_a_scan() {
    let mut backend = MemBackend::new();
    save_all(
        &mut backend,
        &[rate("EUR", "USD", 1.0, -5), rate("EUR", "USD", 1.1, 0), rate("EUR", "USD", 1.2, -9)],
    );
    let dates: Vec<i64> = backend.iter().unwrap().into_iter().map(|r| r.date).collect();
    assert_eq!(dates, vec![0, -9, -5]);
}

#[test]
fn a_second_save_for_one_instant_takes_the_place_of_the_first() {
    let mut backend = MemBackend::new();
    save_all(&mut backend, &[rate("EUR", "USD", 1.0, 100), rate("EUR", "USD", 2.0, 100)]);
    assert_eq!(backend.iter().unwrap(), vec![rate("EUR", "USD", 2.0, 100)]);
    let mut batch = backend.batch().unwrap();
    batch.save(300, rate("EUR", "USD", 3.0, 200)).unwrap();
    batch.commit(&mut backend).unwrap();
    assert_eq!(
        backend.iter().unwrap(),
        vec![rate("EUR", "USD", 2.0, 100), rate("EUR", "USD", 3.0, 200)]
    );
    assert_eq!(backend.get("EUR2USD").unwrap(), rate("EUR", "USD", 3.0, 200));
}
