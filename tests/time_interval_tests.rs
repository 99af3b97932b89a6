use chrono::{DateTime, Duration, TimeZone, Timelike, Utc};
use k_line::kline::UNITS_PER_WHOLE;
use k_line::{KLineService, TimeInterval, Timestamp, Transaction};

fn ts(dt: DateTime<Utc>) -> Timestamp {
    Timestamp::from_unix(dt.timestamp(), dt.timestamp_subsec_nanos()).unwrap()
}

fn units(x: f64) -> i64 {
    (x * UNITS_PER_WHOLE as f64).round() as i64
}

fn aligned(h: u32, m: u32, s: u32, iv: TimeInterval, before: Duration, after: Duration) -> Timestamp {
    let mut service = KLineService::new();
    let test_time = Utc.with_ymd_and_hms(2024, 1, 15, h, m, s).unwrap().with_nanosecond(123456789).unwrap();
    let transaction = Transaction {
        token: "DOGE".to_string(),
        price: units(0.15),
        volume: units(100.0),
        timestamp: ts(test_time),
        is_buy: true,
    };
    service.process_transaction(&transaction);
    let klines = service.get_klines("DOGE", iv, ts(test_time - before), ts(test_time + after), None);
    assert_eq!(klines.len(), 1);
    klines[0].timestamp
}

#[test]
fn test_hour_interval_alignment() {
    let t = aligned(14, 35, 42, TimeInterval::Hour1, Duration::hours(1), Duration::hours(1));
    assert_eq!(t, ts(Utc.with_ymd_and_hms(2024, 1, 15, 14, 0, 0).unwrap()));
}

#[test]
fn test_minute_interval_alignment() {
    let t = aligned(14, 35, 42, TimeInterval::Minute1, Duration::minutes(1), Duration::minutes(1));
    assert_eq!(t, ts(Utc.with_ymd_and_hms(2024, 1, 15, 14, 35, 0).unwrap()));
}

#[test]
fn test_5minute_interval_alignment() {
    let t = aligned(14, 37, 42, TimeInterval::Minute5, Duration::minutes(10), Duration::minutes(10));
    assert_eq!(t, ts(Utc.with_ymd_and_hms(2024, 1, 15, 14, 35, 0).unwrap()));
}

#[test]
fn test_15minute_interval_alignment() {
    let t = aligned(14, 37, 42, TimeInterval::Minute15, Duration::minutes(30), Duration::minutes(30));
    assert_eq!(t, ts(Utc.with_ymd_and_hms(2024, 1, 15, 14, 30, 0).unwrap()));
}

#[test]
fn test_second_interval_alignment() {
    let t = aligned(14, 35, 42, TimeInterval::Second1, Duration::seconds(1), Duration::seconds(1));
    assert_eq!(t, ts(Utc.with_ymd_and_hms(2024, 1, 15, 14, 35, 42).unwrap()));
}

#[test]
fn test_multiple_transactions_same_interval() {
    let mut service = KLineService::new();
    let base_time = Utc.with_ymd_and_hms(2024, 1, 15, 14, 0, 0).unwrap();
    let transactions = vec![
        (base_time + Duration::minutes(5), 0.15, 100.0),
        (base_time + Duration::minutes(25), 0.16, 200.0),
        (base_time + Duration::minutes(45), 0.14, 150.0),
    ];
    for (timestamp, price, volume) in transactions {
        let transaction = Transaction {
            token: "DOGE".to_string(),
            price: units(price),
            volume: units(volume),
            timestamp: ts(timestamp),
            is_buy: true,
        };
        service.process_transaction(&transaction);
    }
    let klines = service.get_klines(
        "DOGE",
        TimeInterval::Hour1,
        ts(base_time - Duration::hours(1)),
        ts(base_time + Duration::hours(2)),
        None,
    );
    assert_eq!(klines.len(), 1);
    let kline = &klines[0];
    assert_eq!(kline.timestamp, ts(base_time));
    assert_eq!(kline.open, units(0.15));
    assert_eq!(kline.close, units(0.14));
    assert_eq!(kline.high, units(0.16));
    assert_eq!(kline.low, units(0.14));
    assert_eq!(kline.volume, units(450.0));
}

#[test]
fn fifteen_minute_and_hour_buckets_of_a_nanosecond_instant() {
    let t = ts(Utc.with_ymd_and_hms(2024, 1, 15, 14, 37, 42).unwrap().with_nanosecond(123456789).unwrap());
    assert_eq!(t.bucket_start(TimeInterval::Minute15), ts(Utc.with_ymd_and_hms(2024, 1, 15, 14, 30, 0).unwrap()));
    assert_eq!(t.bucket_start(TimeInterval::Hour1), ts(Utc.with_ymd_and_hms(2024, 1, 15, 14, 0, 0).unwrap()));
    assert_eq!(t.bucket_start(TimeInterval::Minute5), ts(Utc.with_ymd_and_hms(2024, 1, 15, 14, 35, 0).unwrap()));
}

#[test]
fn fifteen_minute_boundary_resets_each_hour() {
    let t = ts(Utc.with_ymd_and_hms(2024, 1, 15, 14, 58, 3).unwrap());
    assert_eq!(t.bucket_start(TimeInterval::Minute15), ts(Utc.with_ymd_and_hms(2024, 1, 15, 14, 45, 0).unwrap()));
}

#[test]
fn aligning_twice_changes_nothing() {
    let t = ts(Utc.with_ymd_and_hms(2024, 1, 15, 14, 37, 42).unwrap().with_nanosecond(5).unwrap());
    for iv in [TimeInterval::Second1, TimeInterval::Minute1, TimeInterval::Minute5, TimeInterval::Minute15, TimeInterval::Hour1] {
        let once = t.bucket_start(iv);
        assert_eq!(once.bucket_start(iv), once);
        assert_eq!(once.subsec_nanos(), 0);
    }
}

#[test]
fn buckets_before_the_epoch_floor_downward() {
    let t = Timestamp::from_unix(-1, 500).unwrap();
    assert_eq!(t.bucket_start(TimeInterval::Minute1).secs(), -60);
    assert_eq!(t.bucket_start(TimeInterval::Hour1).secs(), -3600);
    assert_eq!(t.bucket_start(TimeInterval::Second1).secs(), -1);
}
