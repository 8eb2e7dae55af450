use quote_stream::error::QuoteCoreError;
use quote_stream::protocol::ProtocolError;
use quote_stream::quote_text::format_price;
use quote_stream::hub::BroadcastStats;
use quote_stream::wire::{StockQuote, WireError};

#[test]
fn quote_text_round_trip() {
    let q = StockQuote { ticker: "AAPL".to_string(), price: -1234500, volume: 1500, timestamp_ms: 1_700_000_000_000 };
    let s = q.to_wire();
    assert_eq!(s, "AAPL|-1234500|1500|1700000000000");
    assert_eq!(StockQuote::from_wire(&s), Some(q));
}

#[test]
fn quote_text_extremes_and_rejections() {
    let q = StockQuote { ticker: "X".to_string(), price: i64::MIN, volume: u32::MAX, timestamp_ms: u128::MAX };
    assert_eq!(StockQuote::from_wire(&q.to_wire()), Some(q));
    let q = StockQuote::from_wire("MSFT|+7|0|12|extra").unwrap();
    assert_eq!((q.ticker.as_str(), q.price, q.volume, q.timestamp_ms), ("MSFT", 7, 0, 12));
    assert_eq!(StockQuote::from_wire("MSFT|1|2"), None);
    assert_eq!(StockQuote::from_wire("MSFT|x|2|3"), None);
    assert_eq!(StockQuote::from_wire("MSFT|1|4294967296|3"), None);
    assert_eq!(StockQuote::from_wire("MSFT|9223372036854775808|1|3"), None);
    assert_eq!(StockQuote::from_wire("MSFT|-|1|3"), None);
    assert_eq!(StockQuote::from_wire("MSFT|1|-1|3"), None);
    assert_eq!(StockQuote::from_wire("MSFT|1||3"), None);
}

#[test]
fn core_error_wraps_both_kinds() {
    let e: QuoteCoreError = ProtocolError::EmptyTickers.into();
    assert!(matches!(e, QuoteCoreError::Protocol(ProtocolError::EmptyTickers)));
    let e: QuoteCoreError = WireError::PacketTooShort.into();
    assert!(matches!(e, QuoteCoreError::Wire(WireError::PacketTooShort)));
}

#[test]
fn prices_show_two_fractional_digits() {
    assert_eq!(format_price(1234500), "12345.00");
    assert_eq!(format_price(-5), "-0.05");
    assert_eq!(format_price(0), "0.00");
    assert_eq!(format_price(1999), "19.99");
    assert_eq!(format_price(i64::MIN), "-92233720368547758.08");
}

#[test]
fn stats_summary_lists_the_counts() {
    let st = BroadcastStats { sent: 12, dropped_full: 0, dropped_dead: 3 };
    assert_eq!(st.summary(), "sent=12 dropped_full=0 dropped_dead=3");
}
