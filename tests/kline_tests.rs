use chrono::{DateTime, Duration, TimeZone, Timelike, Utc};
use k_line::kline::UNITS_PER_WHOLE;
use k_line::{KLineService, TimeInterval, Timestamp, Transaction};

fn ts(dt: DateTime<Utc>) -> Timestamp {
    Timestamp::from_unix(dt.timestamp(), dt.timestamp_subsec_nanos()).unwrap()
}

fn units(x: f64) -> i64 {
    (x * UNITS_PER_WHOLE as f64).round() as i64
}

fn trade(token: &str, price: f64, volume: f64, at: DateTime<Utc>) -> Transaction {
    Transaction { token: token.to_string(), price: units(price), volume: units(volume), timestamp: ts(at), is_buy: true }
}

#[test]
fn test_kline_service_basic() {
    let mut service = KLineService::new();
    let transaction = Transaction::new("DOGE".to_string(), units(0.15), units(100.0), true);

    service.process_transaction(&transaction);

    let kline = service.get_latest_kline("DOGE", TimeInterval::Minute1);
    assert!(kline.is_some());

    let kline = kline.unwrap();
    assert_eq!(kline.token, "DOGE");
    assert_eq!(kline.open, units(0.15));
    assert_eq!(kline.close, units(0.15));
    assert_eq!(kline.volume, units(100.0));
}

#[test]
fn test_kline_service_multiple_transactions() {
    let mut service = KLineService::new();

    let t1 = Transaction::new("DOGE".to_string(), units(0.15), units(100.0), true);
    let t2 = Transaction::new("DOGE".to_string(), units(0.16), units(50.0), true);
    let t3 = Transaction::new("DOGE".to_string(), units(0.14), units(75.0), false);

    service.process_transaction(&t1);
    service.process_transaction(&t2);
    service.process_transaction(&t3);

    let kline = service.get_latest_kline("DOGE", TimeInterval::Minute1);
    assert!(kline.is_some());

    let kline = kline.unwrap();
    assert_eq!(kline.open, units(0.15));
    assert_eq!(kline.high, units(0.16));
    assert_eq!(kline.low, units(0.14));
    assert_eq!(kline.close, units(0.14));
    assert_eq!(kline.volume, units(225.0));
}

#[test]
fn test_kline_service_get_klines() {
    let mut service = KLineService::new();
    let now = Utc::now();

    let transaction = Transaction::new("DOGE".to_string(), units(0.15), units(100.0), true);
    service.process_transaction(&transaction);

    let start = now - Duration::hours(1);
    let end = now + Duration::hours(1);
    let klines = service.get_klines("DOGE", TimeInterval::Minute1, ts(start), ts(end), None);

    assert!(!klines.is_empty());
    assert_eq!(klines[0].token, "DOGE");
}

#[test]
fn test_kline_service_available_tokens() {
    let mut service = KLineService::new();

    assert!(service.get_available_tokens().is_empty());

    let t1 = Transaction::new("DOGE".to_string(), units(0.15), units(100.0), true);
    let t2 = Transaction::new("SHIB".to_string(), units(0.00001), units(1000.0), true);

    service.process_transaction(&t1);
    service.process_transaction(&t2);

    let tokens = service.get_available_tokens();
    assert_eq!(tokens.len(), 2);
    assert!(tokens.contains(&"DOGE".to_string()));
    assert!(tokens.contains(&"SHIB".to_string()));
}

#[test]
fn one_minute_candle_from_three_trades() {
    let mut service = KLineService::new();
    let t0 = Utc.with_ymd_and_hms(2024, 1, 15, 14, 37, 0).unwrap();
    service.process_transaction(&trade("DOGE", 0.15, 100.0, t0));
    service.process_transaction(&trade("DOGE", 0.16, 50.0, t0 + Duration::seconds(10)));
    service.process_transaction(&trade("DOGE", 0.14, 75.0, t0 + Duration::seconds(40)));

    let klines = service.get_klines("DOGE", TimeInterval::Minute1, ts(t0 - Duration::hours(1)), ts(t0 + Duration::hours(1)), None);
    assert_eq!(klines.len(), 1);
    let k = &klines[0];
    assert_eq!(k.open, units(0.15));
    assert_eq!(k.high, units(0.16));
    assert_eq!(k.low, units(0.14));
    assert_eq!(k.close, units(0.14));
    assert_eq!(k.volume, units(225.0));
    assert!(!k.is_closed);
}

#[test]
fn next_bucket_closes_the_previous_one() {
    let mut service = KLineService::new();
    let t0 = Utc.with_ymd_and_hms(2024, 1, 15, 14, 37, 12).unwrap();
    service.process_transaction(&trade("DOGE", 0.15, 100.0, t0));
    service.process_transaction(&trade("DOGE", 0.17, 30.0, t0 + Duration::seconds(60)));

    let klines = service.get_klines("DOGE", TimeInterval::Minute1, ts(t0 - Duration::hours(1)), ts(t0 + Duration::hours(1)), None);
    assert_eq!(klines.len(), 2);
    assert!(klines[0].is_closed);
    assert!(!klines[1].is_closed);
    assert_eq!(klines[1].open, units(0.17));
    assert!(klines[0].timestamp < klines[1].timestamp);

    let current = service.get_current_kline("DOGE", TimeInterval::Minute1).unwrap();
    assert_eq!(current.timestamp, klines[1].timestamp);
    let hour = service.get_klines("DOGE", TimeInterval::Hour1, ts(t0 - Duration::hours(1)), ts(t0 + Duration::hours(1)), None);
    assert_eq!(hour.len(), 1);
    assert!(!hour[0].is_closed);
}

#[test]
fn late_trade_in_closed_bucket_is_dropped() {
    let mut service = KLineService::new();
    let t0 = Utc.with_ymd_and_hms(2024, 1, 15, 14, 37, 12).unwrap();
    service.process_transaction(&trade("DOGE", 0.15, 100.0, t0));
    service.process_transaction(&trade("DOGE", 0.17, 30.0, t0 + Duration::seconds(60)));
    service.process_transaction(&trade("DOGE", 0.99, 5.0, t0 + Duration::seconds(1)));

    let klines = service.get_klines("DOGE", TimeInterval::Minute1, ts(t0 - Duration::hours(1)), ts(t0 + Duration::hours(1)), None);
    assert_eq!(klines.len(), 2);
    assert_eq!(klines[0].high, units(0.15));
    assert_eq!(klines[0].volume, units(100.0));
}

#[test]
fn range_query_is_sorted_and_limited() {
    let mut service = KLineService::new();
    let base = Utc.with_ymd_and_hms(2024, 1, 15, 14, 0, 0).unwrap();
    for m in [3i64, 0, 7, 1, 5] {
        service.process_transaction(&trade("DOGE", 1.0, 1.0, base + Duration::minutes(m)));
    }
    let all = service.get_klines("DOGE", TimeInterval::Minute1, ts(base), ts(base + Duration::minutes(10)), None);
    let minutes: Vec<u32> = all
        .iter()
        .map(|k| DateTime::from_timestamp(k.timestamp.secs(), 0).unwrap().minute())
        .collect();
    assert_eq!(minutes, vec![0, 1, 3, 5, 7]);

    let first_two = service.get_klines("DOGE", TimeInterval::Minute1, ts(base), ts(base + Duration::minutes(10)), Some(2));
    assert_eq!(first_two.len(), 2);
    assert_eq!(first_two[0].timestamp, all[0].timestamp);
    assert_eq!(first_two[1].timestamp, all[1].timestamp);

    let roomy = service.get_klines("DOGE", TimeInterval::Minute1, ts(base), ts(base + Duration::minutes(10)), Some(10));
    assert_eq!(roomy.len(), 5);

    let none = service.get_klines("DOGE", TimeInterval::Minute1, ts(base), ts(base + Duration::minutes(10)), Some(0));
    assert!(none.is_empty());

    let window = service.get_klines("DOGE", TimeInterval::Minute1, ts(base + Duration::minutes(1)), ts(base + Duration::minutes(5)), None);
    assert_eq!(window.len(), 3);
}

#[test]
fn queries_on_unknown_series_are_empty() {
    let mut service = KLineService::new();
    assert!(service.get_latest_kline("DOGE", TimeInterval::Minute1).is_none());
    assert!(service.get_current_kline("DOGE", TimeInterval::Minute1).is_none());
    let t0 = Utc.with_ymd_and_hms(2024, 1, 15, 14, 37, 12).unwrap();
    service.process_transaction(&trade("DOGE", 0.15, 100.0, t0));
    assert!(service.get_latest_kline("SHIB", TimeInterval::Minute1).is_none());
    assert!(service.get_klines("SHIB", TimeInterval::Minute1, ts(t0 - Duration::hours(1)), ts(t0 + Duration::hours(1)), None).is_empty());
}

#[test]
fn latest_kline_may_be_closed_current_may_not() {
    let mut service = KLineService::new();
    let t0 = Utc.with_ymd_and_hms(2024, 1, 15, 14, 37, 12).unwrap();
    service.process_transaction(&trade("DOGE", 0.15, 100.0, t0));
    service.process_transaction(&trade("DOGE", 0.17, 30.0, t0 + Duration::seconds(2)));
    let latest = service.get_latest_kline("DOGE", TimeInterval::Second1).unwrap();
    assert_eq!(latest.open, units(0.17));
    let current = service.get_current_kline("DOGE", TimeInterval::Second1).unwrap();
    assert_eq!(current.timestamp, latest.timestamp);
}

#[test]
fn submit_reports_each_updated_candle() {
    let mut service = KLineService::new();
    let t0 = Utc.with_ymd_and_hms(2024, 1, 15, 14, 37, 12).unwrap();
    let first = service.submit(&trade("DOGE", 0.15, 100.0, t0));
    assert_eq!(first.len(), 5);
    let order: Vec<TimeInterval> = first.iter().map(|k| k.interval).collect();
    assert_eq!(
        order,
        vec![TimeInterval::Second1, TimeInterval::Minute1, TimeInterval::Minute5, TimeInterval::Minute15, TimeInterval::Hour1]
    );
    assert!(first.iter().all(|k| k.open == units(0.15) && k.volume == units(100.0) && !k.is_closed));

    service.submit(&trade("DOGE", 0.17, 30.0, t0 + Duration::seconds(60)));
    let late = service.submit(&trade("DOGE", 0.99, 5.0, t0 + Duration::seconds(1)));
    let late_order: Vec<TimeInterval> = late.iter().map(|k| k.interval).collect();
    assert_eq!(late_order, vec![TimeInterval::Second1, TimeInterval::Minute5, TimeInterval::Minute15, TimeInterval::Hour1]);
    assert!(late.iter().all(|k| k.high == units(0.99) && k.close == units(0.99)));
}
