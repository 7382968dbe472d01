use gotts_oracle::types::{ExchangePriceBatch, OracleBackend};
use gotts_oracle::backend::MemBackend;
use gotts_oracle::daemon::{record, Daemon, FetchStep, FetchTask};
use gotts_oracle::exchange_rate::{Currency, ExchangeRate, ExchangeRateResult};

fn answer(from: &str, to: &str, date: i64) -> ExchangeRate {
    ExchangeRate {
        from: Currency { name: String::new(), code: from.to_string() },
        to: Currency { name: String::new(), code: to.to_string() },
        rate_bits: 1.5f64.to_bits(),
        date,
    }
}

fn rate(from: &str, to: &str, rate: f64, date: i64) -> ExchangeRateResult {
    ExchangeRateResult {
        from: from.to_string(),
        to: to.to_string(),
        rate_bits: rate.to_bits(),
        date,
    }
}

/// Runs one query against a vendor that answers from the call `answers_at` on.
fn run(answers_at: Option<u32>) -> (u32, Option<ExchangeRateResult>) {
    let mut task = FetchTask::new("EUR", "USD");
    let mut calls = 0u32;
    loop {
        calls += 1;
        assert!(calls <= 100);
        let outcome = match answers_at {
            Some(n) if calls >= n => Some(answer(task.from(), task.to(), 7)),
            _ => None,
        };
        match task.on_result(outcome) {
            FetchStep::Call => {}
            FetchStep::Save(o) => return (calls, Some(o)),
            FetchStep::Abandon => return (calls, None),
        }
    }
}

#[test]
fn a_vendor_that_always_fails_is_called_four_times() {
    let (calls, stored) = run(None);
    assert_eq!(calls, 4);
    assert_eq!(stored, None);
}

#[test]
fn a_query_ends_with_the_first_answer() {
    assert_eq!(run(Some(1)), (1, Some(rate("EUR", "USD", 1.5, 7))));
    assert_eq!(run(Some(2)), (2, Some(rate("EUR", "USD", 1.5, 7))));
    assert_eq!(run(Some(4)), (4, Some(rate("EUR", "USD", 1.5, 7))));
    assert_eq!(run(Some(5)), (4, None));
}

#[test]
fn a_query_that_is_over_stays_over() {
    let mut task = FetchTask::new("EUR", "USD");
    assert!(matches!(task.on_result(Some(answer("EUR", "USD", 1))), FetchStep::Save(_)));
    assert!(matches!(task.on_result(Some(answer("EUR", "USD", 2))), FetchStep::Abandon));
    assert!(matches!(task.on_result(None), FetchStep::Abandon));
}

#[test]
fn a_tick_begins_with_one_query_for_each_pair() {
    let daemon = Daemon::new(1_000_000);
    let tasks = daemon.start_tick();
    let pairs: Vec<String> = tasks.iter().map(|t| format!("{}2{}", t.from(), t.to())).collect();
    assert_eq!(
        pairs,
        vec!["EUR2USD", "GBP2USD", "BTC2USD", "ETH2USD", "USD2CNY", "USD2JPY", "USD2CAD"]
    );
}

#[test]
fn the_daemon_sleeps_to_the_next_full_minute() {
    assert_eq!(Daemon::seconds_to_next_tick(0), 60);
    assert_eq!(Daemon::seconds_to_next_tick(1), 59);
    assert_eq!(Daemon::seconds_to_next_tick(59), 1);
    assert_eq!(Daemon::seconds_to_next_tick(60), 60);
    assert_eq!(Daemon::seconds_to_next_tick(1_600_000_017), 60 - 1_600_000_017 % 60);
    assert_eq!(Daemon::seconds_to_next_tick(-1), 1);
    assert_eq!(Daemon::seconds_to_next_tick(-60), 60);
    assert_eq!(Daemon::seconds_to_next_tick(-61), 1);
    assert_eq!(Daemon::seconds_to_next_tick(i64::MIN), 60 - i64::MIN.rem_euclid(60) as u64);
    assert_eq!(Daemon::seconds_to_next_tick(i64::MAX), 60 - (i64::MAX % 60) as u64);
}

#[test]
fn compaction_comes_once_an_hour() {
    let start = 1_600_000_000i64;
    let mut backend = MemBackend::new();
    record(&mut backend, &rate("EUR", "USD", 1.1, start - 5400)).unwrap();
    record(&mut backend, &rate("EUR", "USD", 1.2, start - 1800)).unwrap();
    record(&mut backend, &rate("EUR", "USD", 1.3, start - 300)).unwrap();
    let mut daemon = Daemon::new(start);
    assert!(!daemon.compaction_due(start));
    assert_eq!(daemon.after_fetches(&mut backend, start).unwrap(), None);
    assert_eq!(backend.iter().unwrap().len(), 3);
    assert!(daemon.compaction_due(start + 1));
    assert_eq!(daemon.after_fetches(&mut backend, start + 1).unwrap(), Some(1));
    assert_eq!(backend.iter().unwrap().len(), 2);
    assert!(!daemon.compaction_due(start + 3601));
    assert_eq!(daemon.after_fetches(&mut backend, start + 3601).unwrap(), None);
    assert!(daemon.compaction_due(start + 3602));
    assert_eq!(daemon.after_fetches(&mut backend, start + 3602).unwrap(), Some(2));
    assert!(backend.iter().unwrap().is_empty());
    let early = Daemon::new(i64::MIN + 5);
    assert!(!early.compaction_due(i64::MIN + 5));
    assert!(early.compaction_due(i64::MAX));
}

#[test]
fn a_compaction_that_fails_counts_as_made() {
    let mut backend = MemBackend::new();
    let mut daemon = Daemon::new(0);
    let batch = backend.batch().unwrap();
    assert!(daemon.after_fetches(&mut backend, 10).is_err());
    batch.discard(&mut backend);
    assert!(!daemon.compaction_due(11));
}

#[test]
fn each_observation_is_recorded_in_a_batch_of_its_own() {
    let mut backend = MemBackend::new();
    record(&mut backend, &rate("EUR", "USD", 1.1, 100)).unwrap();
    assert!(!backend.has_open_batch());
    let batch = backend.batch().unwrap();
    assert!(record(&mut backend, &rate("EUR", "USD", 1.2, 200)).is_err());
    batch.discard(&mut backend);
    record(&mut backend, &rate("EUR", "USD", 1.2, 200)).unwrap();
    assert_eq!(backend.get("EUR2USD").unwrap(), rate("EUR", "USD", 1.2, 200));
    assert_eq!(backend.iter().unwrap().len(), 2);
}
