use gotts_oracle::types::{ExchangePriceBatch, OracleBackend};
use gotts_oracle::backend::MemBackend;
use gotts_oracle::error::ErrorKind;
use gotts_oracle::exchange_rate::{Currency, ExchangeRate, ExchangeRateResult};
use gotts_oracle::compaction::compact;
use gotts_oracle::foreign::Foreign;
use gotts_oracle::handlers::{IndexHandler, VersionHandler};
use gotts_oracle::ranking::{find_newest, sort_newest_first, tracked_pairs};

fn rate(from: &str, to: &str, rate: f64, date: i64) -> ExchangeRateResult {
    ExchangeRateResult {
        from: from.to_string(),
        to: to.to_string(),
        rate_bits: rate.to_bits(),
        date,
    }
}

fn save_all(backend: &mut MemBackend, rates: &[ExchangeRateResult]) {
    let mut batch = backend.batch().unwrap();
    for r in rates {
        batch.save(r.date, r.clone()).unwrap();
    }
    batch.commit(backend).unwrap();
}

const MINUTE: i64 = 60;

#[test]
fn compaction_deletes_what_is_older_than_the_window() {
    let t = 1_600_000_000i64;
    let mut backend = MemBackend::new();
    save_all(
        &mut backend,
        &[
            rate("EUR", "USD", 1.1, t - 90 * MINUTE),
            rate("EUR", "USD", 1.2, t - 30 * MINUTE),
            rate("EUR", "USD", 1.3, t - 5 * MINUTE),
        ],
    );
    assert_eq!(compact(&mut backend, t, 60).unwrap(), 1);
    assert_eq!(
        backend.iter().unwrap(),
        vec![rate("EUR", "USD", 1.2, t - 30 * MINUTE), rate("EUR", "USD", 1.3, t - 5 * MINUTE)]
    );
    assert_eq!(compact(&mut backend, t, 60).unwrap(), 0);
    assert!(!backend.has_open_batch());
    let mut api = Foreign::new(backend);
    assert_eq!(api.compact(t + 26 * MINUTE, 60).unwrap(), 0);
    assert_eq!(api.compact(t + 31 * MINUTE, 60).unwrap(), 1);
    assert_eq!(
        api.get_recent(String::new(), 8).unwrap(),
        vec![rate("EUR", "USD", 1.3, t - 5 * MINUTE)]
    );
}

#[test]
fn compaction_keeps_what_is_as_old_as_the_window() {
    let t = 1_600_000_000i64;
    let mut backend = MemBackend::new();
    save_all(
        &mut backend,
        &[rate("EUR", "USD", 1.1, t - 600), rate("EUR", "USD", 1.2, t - 601)],
    );
    assert_eq!(compact(&mut backend, t, 10).unwrap(), 1);
    assert_eq!(backend.iter().unwrap(), vec![rate("EUR", "USD", 1.1, t - 600)]);
    assert_eq!(compact(&mut backend, i64::MIN, u32::MAX).unwrap(), 0);
    assert_eq!(compact(&mut backend, i64::MAX, 0).unwrap(), 1);
    assert!(backend.iter().unwrap().is_empty());
}

#[test]
fn compaction_is_refused_while_a_batch_is_open() {
    let mut backend = MemBackend::new();
    save_all(&mut backend, &[rate("EUR", "USD", 1.1, 5)]);
    let batch = backend.batch().unwrap();
    let e = compact(&mut backend, 1_000_000, 1).unwrap_err();
    assert_eq!(e.kind(), ErrorKind::Backend("a batch is already open".to_string()));
    assert!(backend.has_open_batch());
    batch.discard(&mut backend);
    assert_eq!(backend.iter().unwrap().len(), 1);
}

fn seven() -> Vec<ExchangeRateResult> {
    vec![
        rate("EUR", "USD", 1.1, 107),
        rate("GBP", "USD", 1.3, 103),
        rate("BTC", "USD", 9000.0, 105),
        rate("ETH", "USD", 200.0, 101),
        rate("USD", "CNY", 7.0, 106),
        rate("USD", "JPY", 110.0, 102),
        rate("USD", "CAD", 1.3, 104),
    ]
}

#[test]
fn aggregation_gives_the_newest_of_each_pair() {
    let mut backend = MemBackend::new();
    save_all(&mut backend, &seven());
    let mut api = Foreign::new(backend);
    let got = api.get_aggregated().unwrap();
    assert_eq!(got.len(), 7);
    for r in seven() {
        assert!(got.contains(&r));
    }
    let dates: Vec<i64> = got.iter().map(|r| r.date).collect();
    assert_eq!(dates, vec![107, 106, 105, 104, 103, 102, 101]);
    save_all(&mut api.oracle, &[rate("EUR", "USD", 1.0, 50), rate("USD", "CNY", 7.5, 200)]);
    save_all(&mut api.oracle, &[rate("AUD", "USD", 0.7, 300)]);
    let got = api.get_aggregated().unwrap();
    assert_eq!(got.len(), 7);
    assert_eq!(got[0], rate("USD", "CNY", 7.5, 200));
    assert_eq!(got[1], rate("EUR", "USD", 1.1, 107));
}

#[test]
fn aggregation_fails_where_a_pair_is_missing() {
    let mut backend = MemBackend::new();
    save_all(&mut backend, &seven());
    let mut batch = backend.batch().unwrap();
    batch.delete("USD2JPY", 102).unwrap();
    batch.commit(&mut backend).unwrap();
    let e = Foreign::new(backend).get_aggregated().unwrap_err();
    assert_eq!(e.kind(), ErrorKind::NotFound("USD2JPY".to_string()));
    let e = Foreign::new(MemBackend::new()).get_aggregated().unwrap_err();
    assert_eq!(e.kind(), ErrorKind::NotFound("EUR2USD".to_string()));
}

#[test]
fn recent_is_cut_ordered_and_of_the_prefix() {
    let mut backend = MemBackend::new();
    let mut all = Vec::new();
    for n in 0..8 {
        all.push(rate("USD", "CNY", 7.0 + n as f64, 100 + n));
        all.push(rate("USD", "JPY", 110.0, 100 + n));
        all.push(rate("EUR", "USD", 1.1, 100 + n));
    }
    save_all(&mut backend, &all);
    let api = Foreign::new(backend);
    let got = api.get_recent("USD2CNY".to_string(), 5).unwrap();
    assert_eq!(got.len(), 5);
    for r in &got {
        assert_eq!(format!("{}2{}", r.from, r.to), "USD2CNY");
    }
    let dates: Vec<i64> = got.iter().map(|r| r.date).collect();
    assert_eq!(dates, vec![107, 106, 105, 104, 103]);
    let got = api.get_recent("USD".to_string(), 100).unwrap();
    assert_eq!(got.len(), 16);
    assert!(got.iter().all(|r| r.from == "USD"));
    assert!(got.windows(2).all(|w| w[0].date >= w[1].date));
    assert_eq!(got[0], rate("USD", "CNY", 14.0, 107));
    assert_eq!(got[1], rate("USD", "JPY", 110.0, 107));
    let got = api.get_recent(String::new(), 3).unwrap();
    assert_eq!(
        got,
        vec![
            rate("EUR", "USD", 1.1, 107),
            rate("USD", "CNY", 14.0, 107),
            rate("USD", "JPY", 110.0, 107)
        ]
    );
    assert!(api.get_recent("USD2CNY".to_string(), 0).unwrap().is_empty());
    assert!(api.get_recent("CHF".to_string(), 5).unwrap().is_empty());
}

#[test]
fn sorting_is_stable_and_newest_first() {
    let rates = vec![
        rate("A", "B", 1.0, 5),
        rate("C", "D", 2.0, 9),
        rate("E", "F", 3.0, 5),
        rate("G", "H", 4.0, -1),
    ];
    let sorted = sort_newest_first(&rates);
    assert_eq!(
        sorted,
        vec![
            rate("C", "D", 2.0, 9),
            rate("A", "B", 1.0, 5),
            rate("E", "F", 3.0, 5),
            rate("G", "H", 4.0, -1)
        ]
    );
    assert!(sort_newest_first(&Vec::new()).is_empty());
}

#[test]
fn the_newest_of_a_pair_is_the_first_of_its_newest_instant() {
    let rates = vec![
        rate("A", "B", 1.0, 5),
        rate("A", "B", 2.0, 9),
        rate("A", "C", 3.0, 50),
        rate("A", "B", 4.0, 9),
    ];
    let a = "A".to_string();
    assert_eq!(find_newest(&rates, &a, &"B".to_string()), Some(rate("A", "B", 2.0, 9)));
    assert_eq!(find_newest(&rates, &a, &"C".to_string()), Some(rate("A", "C", 3.0, 50)));
    assert_eq!(find_newest(&rates, &a, &"D".to_string()), None);
}

#[test]
fn the_oracle_follows_seven_pairs() {
    let pairs: Vec<String> =
        tracked_pairs().into_iter().map(|(from, to)| format!("{}2{}", from, to)).collect();
    assert_eq!(
        pairs,
        vec!["EUR2USD", "GBP2USD", "BTC2USD", "ETH2USD", "USD2CNY", "USD2JPY", "USD2CAD"]
    );
}

#[test]
fn a_fetched_rate_is_recorded() {
    let fetched = ExchangeRate {
        from: Currency { name: "Euro".to_string(), code: "EUR".to_string() },
        to: Currency { name: "United States Dollar".to_string(), code: "USD".to_string() },
        rate_bits: 1.16665014f64.to_bits(),
        date: 1_529_749_669,
    };
    let mut api = Foreign::new(MemBackend::new());
    let stored = api.get_rate(&fetched).unwrap();
    assert_eq!(stored, rate("EUR", "USD", 1.16665014, 1_529_749_669));
    assert_eq!(api.oracle.iter().unwrap(), vec![stored.clone()]);
    assert_eq!(api.oracle.get("EUR2USD").unwrap(), stored);
    assert_eq!(ExchangeRateResult::from_rate(&fetched), stored);
    assert_eq!(fetched.clone(), fetched);
    let batch = api.oracle.batch().unwrap();
    let e = api.get_rate(&fetched).unwrap_err();
    assert_eq!(e.kind(), ErrorKind::Backend("a batch is already open".to_string()));
    batch.discard(&mut api.oracle);
    assert_eq!(api.oracle.iter().unwrap().len(), 1);
}

#[test]
fn observations_know_whether_they_are_well_formed() {
    assert!(rate("EUR", "USD", 1.1, 0).is_well_formed());
    assert!(rate("EUR", "USD", 0.0, 0).is_well_formed());
    assert!(!rate("EUR", "EUR", 1.1, 0).is_well_formed());
    assert!(!rate("", "USD", 1.1, 0).is_well_formed());
    assert!(!rate("EUR", "", 1.1, 0).is_well_formed());
    assert!(!rate("EUR", "USD", -1.0, 0).is_well_formed());
    assert!(!rate("EUR", "USD", f64::INFINITY, 0).is_well_formed());
    assert!(!rate("EUR", "USD", f64::NAN, 0).is_well_formed());
}

#[test]
fn the_version_is_reported() {
    let v = Foreign::new(MemBackend::new()).get_version().unwrap();
    assert_eq!(v.oracle_version, "0.1.0");
    assert_eq!(v.block_header_version, 0);
    let v = VersionHandler {}.get_version().unwrap();
    assert_eq!(v.clone().oracle_version, "0.1.0");
    let index = IndexHandler { list: vec!["/v1/rest/recent".to_string()] };
    assert_eq!(index.list.len(), 1);
}
