use quote_stream::wire::{decode, encode_v1, StockQuote, UdpPacketV1, WireError, WIRE_VERSION};

#[test]
fn roundtrip_quote() {
    let q = StockQuote {
        ticker: "AAPL".to_string(),
        price: 123_4500,
        volume: 1500,
        timestamp_ms: 1_700_000_000_000,
    };

    let pkt = UdpPacketV1::Quote(q.clone());

    let bytes = encode_v1(&pkt).expect("encode");
    let decoded = decode(&bytes).expect("decode");

    assert_eq!(decoded, UdpPacketV1::Quote(q));
}

#[test]
fn roundtrip_ping() {
    let pkt = UdpPacketV1::Ping;

    let bytes = encode_v1(&pkt).expect("encode");
    let decoded = decode(&bytes).expect("decode");

    assert_eq!(decoded, UdpPacketV1::Ping);
}

#[test]
fn decode_rejects_unknown_version() {
    let pkt = UdpPacketV1::Ping;
    let mut bytes = encode_v1(&pkt).expect("encode");

    bytes[0] = WIRE_VERSION.wrapping_add(1);

    let err = decode(&bytes).unwrap_err();
    assert!(matches!(err, WireError::UnsupportedWireVersion(_)));
}

#[test]
fn decode_rejects_too_short_packet() {
    let err = decode(&[]).unwrap_err();
    assert!(matches!(err, WireError::PacketTooShort));
}

#[test]
fn encoding_bytes_are_exact() {
    assert_eq!(encode_v1(&UdpPacketV1::Ping).unwrap(), vec![1, 1]);
    let q = StockQuote { ticker: "AB".to_string(), price: -2, volume: 300, timestamp_ms: 5 };
    assert_eq!(
        encode_v1(&UdpPacketV1::Quote(q)).unwrap(),
        vec![1, 0, 2, b'A', b'B', 3, 0xAC, 0x02, 5]
    );
}

#[test]
fn roundtrip_extreme_values() {
    let q = StockQuote {
        ticker: "BRK.B é".to_string(),
        price: i64::MIN,
        volume: u32::MAX,
        timestamp_ms: u128::MAX,
    };
    let pkt = UdpPacketV1::Quote(q);
    let mut bytes = encode_v1(&pkt).unwrap();
    assert_eq!(decode(&bytes).unwrap(), pkt);
    bytes.push(0xFF);
    assert_eq!(decode(&bytes).unwrap(), pkt);
    bytes[0] = 0;
    assert!(matches!(decode(&bytes), Err(WireError::UnsupportedWireVersion(0))));
}

#[test]
fn decode_rejects_bad_payloads() {
    assert!(matches!(decode(&[1]), Err(WireError::Postcard(_))));
    assert!(matches!(decode(&[1, 7]), Err(WireError::UnknownPacketKind(7))));
    assert!(matches!(decode(&[1, 0, 5, b'A']), Err(WireError::Postcard(_))));
}
