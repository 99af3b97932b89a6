use chrono::{DateTime, Utc};
use k_line::kline::UNITS_PER_WHOLE;
use k_line::{KLine, TimeInterval, Timestamp, Transaction};

fn ts(dt: DateTime<Utc>) -> Timestamp {
    Timestamp::from_unix(dt.timestamp(), dt.timestamp_subsec_nanos()).unwrap()
}

fn units(x: f64) -> i64 {
    (x * UNITS_PER_WHOLE as f64).round() as i64
}

fn to_chrono(t: Timestamp) -> DateTime<Utc> {
    DateTime::from_timestamp(t.secs(), t.subsec_nanos()).unwrap()
}

#[test]
fn test_time_interval_as_str() {
    assert_eq!(TimeInterval::Second1.as_str(), "1s");
    assert_eq!(TimeInterval::Minute1.as_str(), "1m");
    assert_eq!(TimeInterval::Minute5.as_str(), "5m");
    assert_eq!(TimeInterval::Minute15.as_str(), "15m");
    assert_eq!(TimeInterval::Hour1.as_str(), "1h");
}

#[test]
fn test_time_interval_from_str() {
    assert_eq!("1s".parse::<TimeInterval>(), Ok(TimeInterval::Second1));
    assert_eq!("1m".parse::<TimeInterval>(), Ok(TimeInterval::Minute1));
    assert_eq!("5m".parse::<TimeInterval>(), Ok(TimeInterval::Minute5));
    assert_eq!("15m".parse::<TimeInterval>(), Ok(TimeInterval::Minute15));
    assert_eq!("1h".parse::<TimeInterval>(), Ok(TimeInterval::Hour1));
    assert_eq!(
        "invalid".parse::<TimeInterval>(),
        Err(String::from("Invalid time interval: invalid"))
    );
}

#[test]
fn test_kline_new() {
    let now = ts(Utc::now());
    let kline = KLine::new("DOGE".to_string(), now, TimeInterval::Minute1, units(1.0), units(100.0));

    assert_eq!(kline.token, "DOGE");
    assert_eq!(kline.timestamp, now);
    assert_eq!(kline.interval, TimeInterval::Minute1);
    assert_eq!(kline.open, units(1.0));
    assert_eq!(kline.high, units(1.0));
    assert_eq!(kline.low, units(1.0));
    assert_eq!(kline.close, units(1.0));
    assert_eq!(kline.volume, units(100.0));
    assert!(!kline.is_closed);
}

#[test]
fn test_transaction_new() {
    let transaction = Transaction::new("DOGE".to_string(), units(1.0), units(100.0), true);

    assert_eq!(transaction.token, "DOGE");
    assert_eq!(transaction.price, units(1.0));
    assert_eq!(transaction.volume, units(100.0));
    assert!(transaction.is_buy);
    assert!(to_chrono(transaction.timestamp) <= Utc::now());
    assert!(to_chrono(transaction.timestamp) >= Utc::now() - chrono::Duration::seconds(1));
}

#[test]
fn test_kline_creation() {
    let kline = KLine::new(
        "DOGE".to_string(),
        ts(Utc::now()),
        TimeInterval::Minute1,
        units(0.15),
        units(100.0),
    );

    assert_eq!(kline.token, "DOGE");
    assert_eq!(kline.interval, TimeInterval::Minute1);
    assert_eq!(kline.open, units(0.15));
    assert_eq!(kline.high, units(0.15));
    assert_eq!(kline.low, units(0.15));
    assert_eq!(kline.close, units(0.15));
    assert_eq!(kline.volume, units(100.0));
    assert!(!kline.is_closed);
}

#[test]
fn test_kline_update() {
    let mut kline = KLine::new(
        "DOGE".to_string(),
        ts(Utc::now()),
        TimeInterval::Minute1,
        units(0.15),
        units(100.0),
    );

    kline.update(units(0.16), units(50.0));
    assert_eq!(kline.high, units(0.16));
    assert_eq!(kline.close, units(0.16));
    assert_eq!(kline.volume, units(150.0));

    kline.update(units(0.14), units(25.0));
    assert_eq!(kline.low, units(0.14));
    assert_eq!(kline.close, units(0.14));
    assert_eq!(kline.volume, units(175.0));
}

#[test]
fn test_time_interval_parsing() {
    assert_eq!("1s".parse::<TimeInterval>(), Ok(TimeInterval::Second1));
    assert_eq!("1m".parse::<TimeInterval>(), Ok(TimeInterval::Minute1));
    assert_eq!("5m".parse::<TimeInterval>(), Ok(TimeInterval::Minute5));
    assert_eq!("15m".parse::<TimeInterval>(), Ok(TimeInterval::Minute15));
    assert_eq!("1h".parse::<TimeInterval>(), Ok(TimeInterval::Hour1));
    assert_eq!(
        "invalid".parse::<TimeInterval>(),
        Err(String::from("Invalid time interval: invalid"))
    );
}

#[test]
fn closed_kline_ignores_updates() {
    let mut kline = KLine::new("DOGE".to_string(), ts(Utc::now()), TimeInterval::Minute1, 10, 5);
    kline.close();
    assert!(kline.is_closed);
    kline.update(99, 7);
    assert_eq!((kline.open, kline.high, kline.low, kline.close, kline.volume), (10, 10, 10, 10, 5));
}

#[test]
fn volume_saturates_at_the_largest_value() {
    let mut kline = KLine::new("DOGE".to_string(), ts(Utc::now()), TimeInterval::Minute1, 1, i64::MAX - 1);
    kline.update(1, 5);
    assert_eq!(kline.volume, i64::MAX);
}

#[test]
fn durations_of_each_granularity() {
    assert_eq!(TimeInterval::Second1.duration_seconds(), 1);
    assert_eq!(TimeInterval::Minute1.duration_seconds(), 60);
    assert_eq!(TimeInterval::Minute5.duration_seconds(), 300);
    assert_eq!(TimeInterval::Minute15.duration_seconds(), 900);
    assert_eq!(TimeInterval::Hour1.duration_seconds(), 3600);
}

#[test]
fn timestamp_out_of_range_is_refused() {
    assert!(Timestamp::from_unix(i64::MIN, 0).is_none());
    assert!(Timestamp::from_unix(i64::MAX, 0).is_none());
    assert!(Timestamp::from_unix(0, 0).is_some());
}
