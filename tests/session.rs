use quote_stream::address::SocketAddress;
use quote_stream::session::{ping_expired, Session, StopReason, PING_TIMEOUT_MS, SEND_ERROR_LIMIT};
use quote_stream::wire::{decode, StockQuote, UdpPacketV1};

fn mk_quote(ticker: &str) -> StockQuote {
    StockQuote {
        ticker: ticker.to_string(),
        price: 123_4500,
        volume: 10,
        timestamp_ms: 1,
    }
}

fn session(tickers: &[&str]) -> Session {
    let target = SocketAddress::v4(127, 0, 0, 1, 34567);
    Session::new(1, target, tickers.iter().map(|t| t.to_string()).collect(), 1_000)
}

#[test]
fn handle_quote_sends_when_ticker_matches_and_resets_err_count() {
    let mut s = session(&["AAPL"]);
    s.err_count = 999;
    let bytes = s.datagram_for(&mk_quote("AAPL")).unwrap().unwrap();
    assert!(s.record_send(true));
    assert_eq!(s.error_count(), 0);
    match decode(&bytes).unwrap() {
        UdpPacketV1::Quote(q) => assert_eq!(q.ticker, "AAPL"),
        _ => panic!("expected Quote packet"),
    }
}

#[test]
fn handle_quote_does_not_send_when_ticker_not_in_filter() {
    let s = session(&["TSLA"]);
    assert!(s.datagram_for(&mk_quote("AAPL")).is_none());
    assert!(!s.wants(&mk_quote("AAPL")));
}

#[test]
fn handle_quote_increments_err_count_and_fails_on_limit() {
    let mut s = session(&["AAPL"]);
    for _ in 0..(SEND_ERROR_LIMIT - 1) {
        assert!(s.record_send(false));
    }
    assert!(!s.record_send(false));
    assert_eq!(s.error_count(), SEND_ERROR_LIMIT);
}

#[test]
fn sparse_send_errors_are_tolerated() {
    let mut s = session(&["AAPL"]);
    for _ in 0..100 {
        assert!(s.record_send(false));
        assert!(s.record_send(true));
    }
}

#[test]
fn session_stops_on_keepalive_timeout() {
    let s = session(&[]);
    let now = s.started_ms + PING_TIMEOUT_MS + 1;
    assert_eq!(s.check(false, Some(now - PING_TIMEOUT_MS - 1), now), Some(StopReason::PingTimeout));
    assert_eq!(s.check(true, Some(now), now), Some(StopReason::Shutdown));
}

#[test]
fn ping_expiry_uses_later_of_ping_and_start() {
    assert!(!ping_expired(None, 1_000, 6_000));
    assert!(ping_expired(None, 1_000, 6_001));
    assert!(!ping_expired(Some(5_000), 1_000, 10_000));
    assert!(ping_expired(Some(5_000), 1_000, 10_001));
    assert!(!ping_expired(Some(10), 1_000, 6_000));
    assert!(!ping_expired(Some(9_000), 1_000, 8_000));
}
