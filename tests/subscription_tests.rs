use k_line::subscription::{
    is_timed_out, subscription_matches, ClientMessage, ServerMessage, SubscriptionType, WsManager, WsSession,
};
use k_line::{KLine, TimeInterval, Timestamp, Transaction};

fn at(secs: i64) -> Timestamp {
    Timestamp::from_unix(secs, 0).unwrap()
}

fn trade(token: &str) -> Transaction {
    Transaction { token: token.to_string(), price: 15, volume: 100, timestamp: at(1_705_329_462), is_buy: true }
}

fn candle(token: &str, iv: TimeInterval) -> KLine {
    KLine::new(token.to_string(), at(1_705_329_420), iv, 15, 100)
}

fn klines_filter(token: &str, interval: &str) -> SubscriptionType {
    SubscriptionType::KLines { token: token.to_string(), interval: interval.to_string() }
}

#[test]
fn filters_match_by_structure() {
    let a = SubscriptionType::Transactions { tokens: vec!["DOGE".to_string(), "SHIB".to_string()] };
    let b = SubscriptionType::Transactions { tokens: vec!["DOGE".to_string(), "SHIB".to_string()] };
    let c = SubscriptionType::Transactions { tokens: vec!["SHIB".to_string(), "DOGE".to_string()] };
    assert!(subscription_matches(&a, &b));
    assert!(subscription_matches(&a, &c));
    let d = SubscriptionType::Transactions { tokens: vec!["DOGE".to_string()] };
    let e = SubscriptionType::Transactions { tokens: vec!["SHIB".to_string(), "DOGE".to_string(), "DOGE".to_string()] };
    assert!(!subscription_matches(&a, &d));
    assert!(!subscription_matches(&d, &a));
    assert!(subscription_matches(&a, &e));
    assert!(subscription_matches(&SubscriptionType::AllTransactions, &SubscriptionType::AllTransactions));
    assert!(subscription_matches(&klines_filter("DOGE", "1m"), &klines_filter("DOGE", "1m")));
    assert!(!subscription_matches(&klines_filter("DOGE", "1m"), &klines_filter("DOGE", "5m")));
    assert!(!subscription_matches(&klines_filter("DOGE", "1m"), &SubscriptionType::AllTransactions));
}

#[test]
fn candle_stream_subscriber_is_isolated() {
    let mut m: WsManager<&str> = WsManager::new();
    m.add_session(1);
    m.set_session_addr(1, "one");
    m.add_subscription(1, klines_filter("DOGE", "1m"));
    m.add_session(2);
    m.set_session_addr(2, "two");

    assert!(m.broadcast_transaction(&trade("SHIB")).is_empty());
    assert!(m.broadcast_transaction(&trade("DOGE")).is_empty());
    assert!(m.broadcast_kline(&candle("SHIB", TimeInterval::Minute1)).is_empty());
    assert!(m.broadcast_kline(&candle("DOGE", TimeInterval::Minute5)).is_empty());
    assert_eq!(m.broadcast_kline(&candle("DOGE", TimeInterval::Minute1)), vec![1]);
}

#[test]
fn one_event_per_connection_even_with_several_matching_filters() {
    let mut m: WsManager<()> = WsManager::new();
    m.add_session(7);
    m.set_session_addr(7, ());
    m.add_subscription(7, SubscriptionType::AllTransactions);
    m.add_subscription(7, SubscriptionType::Transactions { tokens: vec!["DOGE".to_string()] });
    m.add_subscription(7, SubscriptionType::AllTransactions);
    assert_eq!(m.broadcast_transaction(&trade("DOGE")), vec![7]);
    assert_eq!(m.broadcast_transaction(&trade("PEPE")), vec![7]);
}

#[test]
fn token_list_filter_routes_listed_tokens_only() {
    let mut m: WsManager<()> = WsManager::new();
    m.add_session(3);
    m.set_session_addr(3, ());
    m.add_subscription(3, SubscriptionType::Transactions { tokens: vec!["DOGE".to_string(), "PEPE".to_string()] });
    assert_eq!(m.broadcast_transaction(&trade("PEPE")), vec![3]);
    assert!(m.broadcast_transaction(&trade("SHIB")).is_empty());
}

#[test]
fn unsubscribe_removes_every_equal_filter() {
    let mut m: WsManager<()> = WsManager::new();
    m.add_session(4);
    m.set_session_addr(4, ());
    m.add_subscription(4, SubscriptionType::AllTransactions);
    m.add_subscription(4, SubscriptionType::AllTransactions);
    m.remove_subscription(4, &SubscriptionType::AllTransactions);
    assert!(m.broadcast_transaction(&trade("DOGE")).is_empty());
}

#[test]
fn removed_session_receives_nothing() {
    let mut m: WsManager<()> = WsManager::new();
    m.add_session(5);
    m.set_session_addr(5, ());
    m.add_subscription(5, SubscriptionType::AllTransactions);
    m.add_session(6);
    m.set_session_addr(6, ());
    m.add_subscription(6, SubscriptionType::AllTransactions);
    assert_eq!(m.session_count(), 2);
    m.remove_session(5);
    assert_eq!(m.session_count(), 1);
    assert_eq!(m.broadcast_transaction(&trade("DOGE")), vec![6]);
    assert!(m.session_addr(5).is_none());
    assert!(m.session_addr(6).is_some());
}

#[test]
fn session_rejects_unknown_granularity() {
    let mut s = WsSession::new(9);
    match s.handle_subscribe(klines_filter("DOGE", "2m")) {
        ServerMessage::Error { message } => assert_eq!(message, "Invalid interval: 2m"),
        other => panic!("unexpected {:?}", other),
    }
    assert!(!s.wants_kline(&candle("DOGE", TimeInterval::Minute1)));
    match s.handle_subscribe(klines_filter("DOGE", "1m")) {
        ServerMessage::Subscribed { subscription } => assert!(subscription_matches(&subscription, &klines_filter("DOGE", "1m"))),
        other => panic!("unexpected {:?}", other),
    }
    assert!(s.wants_kline(&candle("DOGE", TimeInterval::Minute1)));
    assert!(!s.wants_transaction(&trade("DOGE")));
}

#[test]
fn session_answers_ping_and_unsubscribe() {
    let mut s = WsSession::new(10);
    assert_eq!(s.id(), 10);
    assert!(matches!(s.handle_message(ClientMessage::Ping), ServerMessage::Pong));
    s.handle_message(ClientMessage::Subscribe { subscription: SubscriptionType::AllTransactions });
    assert!(s.wants_transaction(&trade("SHIB")));
    assert!(matches!(
        s.handle_message(ClientMessage::Unsubscribe { subscription: SubscriptionType::AllTransactions }),
        ServerMessage::Unsubscribed { .. }
    ));
    assert!(!s.wants_transaction(&trade("SHIB")));
}

#[test]
fn heartbeat_timeout_is_ten_seconds() {
    assert!(!is_timed_out(10_000));
    assert!(is_timed_out(10_001));
}

#[test]
fn opened_sessions_start_empty_under_fresh_ids() {
    let a = WsSession::open();
    let b = WsSession::open();
    assert_ne!(a.id(), b.id());
    assert!(!a.wants_transaction(&trade("DOGE")));
    assert!(!a.wants_kline(&candle("DOGE", TimeInterval::Minute1)));
}

#[test]
fn unsubscribe_matches_token_lists_as_sets() {
    let mut m: WsManager<()> = WsManager::new();
    m.add_session(8);
    m.set_session_addr(8, ());
    m.add_subscription(8, SubscriptionType::Transactions { tokens: vec!["DOGE".to_string(), "SHIB".to_string()] });
    m.add_subscription(8, SubscriptionType::Transactions { tokens: vec!["PEPE".to_string()] });
    m.remove_subscription(8, &SubscriptionType::Transactions { tokens: vec!["SHIB".to_string(), "DOGE".to_string()] });
    assert!(m.broadcast_transaction(&trade("DOGE")).is_empty());
    assert_eq!(m.broadcast_transaction(&trade("PEPE")), vec![8]);

    let mut s = WsSession::new(8);
    s.handle_subscribe(SubscriptionType::Transactions { tokens: vec!["DOGE".to_string(), "SHIB".to_string()] });
    s.handle_unsubscribe(SubscriptionType::Transactions { tokens: vec!["SHIB".to_string(), "DOGE".to_string()] });
    assert!(!s.wants_transaction(&trade("DOGE")));
}

#[test]
fn subscribe_updates_session_and_registry_together() {
    let mut m: WsManager<()> = WsManager::new();
    let mut s = WsSession::new(12);
    m.add_session(12);
    m.set_session_addr(12, ());
    assert!(matches!(s.subscribe(&mut m, klines_filter("DOGE", "7m")), ServerMessage::Error { .. }));
    assert!(m.broadcast_kline(&candle("DOGE", TimeInterval::Minute1)).is_empty());
    assert!(matches!(s.subscribe(&mut m, klines_filter("DOGE", "1m")), ServerMessage::Subscribed { .. }));
    assert_eq!(m.broadcast_kline(&candle("DOGE", TimeInterval::Minute1)), vec![12]);
    assert!(s.wants_kline(&candle("DOGE", TimeInterval::Minute1)));
    assert!(matches!(s.unsubscribe(&mut m, klines_filter("DOGE", "1m")), ServerMessage::Unsubscribed { .. }));
    assert!(m.broadcast_kline(&candle("DOGE", TimeInterval::Minute1)).is_empty());
    assert!(!s.wants_kline(&candle("DOGE", TimeInterval::Minute1)));
}
