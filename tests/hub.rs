use std::time::Duration;

use quote_stream::hub::{tally, BroadcastStats, Hub, HubError, SendOutcome};
use quote_stream::wire::StockQuote;

fn mk_quote(ticker: &str, price: i64) -> StockQuote {
    StockQuote {
        ticker: ticker.to_string(),
        price,
        volume: 1,
        timestamp_ms: 1,
    }
}

#[test]
fn add_client_ok_and_duplicate_fails() {
    let mut hub = Hub::new();

    let _rx = hub.add_client(1).expect("add_client should succeed");

    let err = hub.add_client(1).unwrap_err();
    assert!(matches!(err, HubError::ClientAlreadyExists(1)));
}

#[test]
fn remove_client_returns_bool() {
    let mut hub = Hub::new();

    assert!(!hub.remove_client(42));

    let _rx = hub.add_client(42).unwrap();
    assert!(hub.remove_client(42));

    assert!(!hub.remove_client(42));
}

#[test]
fn broadcast_delivers_to_client() {
    let mut hub = Hub::new();
    let rx = hub.add_client(1).unwrap();

    let q = mk_quote("AAPL", 123_4500);
    let st = hub.broadcast(q.clone());

    assert_eq!(st.sent, 1);
    assert_eq!(st.dropped_full, 0);
    assert_eq!(st.dropped_dead, 0);

    let got = rx
        .recv_timeout(Duration::from_millis(200))
        .expect("should receive quote");
    assert_eq!(*got, q);
}

#[test]
fn broadcast_counts_full_drop_when_client_not_reading() {
    let mut hub = Hub::with_capacity(1);

    let _rx = hub.add_client(1).unwrap();

    let st1 = hub.broadcast(mk_quote("AAPL", 1));
    assert_eq!(st1.sent, 1);
    assert_eq!(st1.dropped_full, 0);

    let st2 = hub.broadcast(mk_quote("AAPL", 2));
    assert_eq!(st2.sent, 0);
    assert_eq!(st2.dropped_full, 1);
    assert_eq!(st2.dropped_dead, 0);
    assert!(hub.contains(1));
}

#[test]
fn broadcast_removes_disconnected_client() {
    let mut hub = Hub::new();

    let rx = hub.add_client(1).unwrap();
    drop(rx);

    let st = hub.broadcast(mk_quote("AAPL", 1));

    assert_eq!(st.sent, 0);
    assert_eq!(st.dropped_dead, 1);

    let st2 = hub.broadcast(mk_quote("AAPL", 2));
    assert_eq!(st2, BroadcastStats { sent: 0, dropped_full: 0, dropped_dead: 0 });
    assert!(!hub.remove_client(1));
}

#[test]
fn slow_client_does_not_hold_back_others() {
    let mut hub = Hub::with_capacity(1);
    let _slow = hub.add_client(1).unwrap();
    let fast = hub.add_client(2).unwrap();
    for i in 0..5 {
        let st = hub.broadcast(mk_quote("AAPL", i));
        assert_eq!(st.sent + st.dropped_full + st.dropped_dead, 2);
        let got = fast.recv_timeout(Duration::from_millis(200)).unwrap();
        assert_eq!(got.price, i);
    }
    assert_eq!(hub.len(), 2);
}

#[test]
fn client_count_follows_adds_removes_and_evictions() {
    let mut hub = Hub::new();
    let _a = hub.add_client(1).unwrap();
    let b = hub.add_client(2).unwrap();
    let _c = hub.add_client(3).unwrap();
    assert!(hub.add_client(3).is_err());
    assert!(hub.remove_client(1));
    assert!(!hub.remove_client(1));
    drop(b);
    let st = hub.broadcast(mk_quote("MSFT", 10));
    assert_eq!(st.dropped_dead, 1);
    assert_eq!(hub.len(), 3 - 1 - 1);
    assert!(hub.contains(3));
    assert!(!hub.contains(2));
}

#[test]
fn stats_and_errors_read_plainly() {
    let st = BroadcastStats { sent: 0, dropped_full: 0, dropped_dead: 0 };
    assert!(!st.not_empty());
    assert!(BroadcastStats { sent: 0, dropped_full: 1, dropped_dead: 0 }.not_empty());
    assert_eq!(HubError::ClientAlreadyExists(1207).message(), "client already exists: 1207");
    assert_eq!(HubError::ClientAlreadyExists(0).message(), "client already exists: 0");
}

#[test]
fn snapshot_deliver_evict_in_steps() {
    let mut hub = Hub::new();
    let rx = hub.add_client(5).unwrap();
    let dead_rx = hub.add_client(6).unwrap();
    drop(dead_rx);
    let targets = hub.snapshot();
    assert_eq!(targets.len(), 2);
    let q = std::sync::Arc::new(mk_quote("IBM", 7));
    let delivery = quote_stream::hub::deliver(&targets, &q);
    assert_eq!(delivery.stats.sent, 1);
    assert_eq!(delivery.dead, vec![6]);
    hub.evict(&delivery.dead);
    assert!(hub.contains(5));
    assert!(!hub.contains(6));
    assert_eq!(rx.try_recv().unwrap().ticker, "IBM");
}

#[test]
fn tally_counts_each_outcome_and_lists_the_dead() {
    let ids = vec![4, 9, 2, 7];
    let d = tally(
        &ids,
        vec![SendOutcome::Full, SendOutcome::Disconnected, SendOutcome::Sent, SendOutcome::Disconnected],
    );
    assert_eq!(d.stats, BroadcastStats { sent: 1, dropped_full: 1, dropped_dead: 2 });
    assert_eq!(d.dead, vec![9, 7]);
    assert_eq!(d.outcomes.len(), 4);
}

#[test]
fn receiver_reads_a_queue_of_the_hub_capacity() {
    let mut hub = Hub::new();
    let rx = hub.add_client(3).unwrap();
    assert_eq!(rx.capacity(), Some(256));
    assert!(rx.is_empty());
    let mut small = Hub::with_capacity(1);
    let rx1 = small.add_client(3).unwrap();
    assert_eq!(rx1.capacity(), Some(1));
}
