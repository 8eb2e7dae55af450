use quote_stream::address::SocketAddress;
use quote_stream::client::{
    parse_reply, sleep_step, validate_args, ArgsError, ClientLink, FileKind, LinkAction,
    ReplyError,
};
use quote_stream::liveness::{action_for, on_datagram, PingAction};
use quote_stream::wire::{encode_v1, StockQuote, UdpPacketV1, WireError};

#[test]
fn reply_ok_err_and_unexpected() {
    assert!(parse_reply("OK\n").is_ok());
    assert!(parse_reply("OK\r\n").is_ok());
    match parse_reply("ERR  tickers list is empty \n") {
        Err(ReplyError::Server(r)) => assert_eq!(r, "tickers list is empty"),
        other => panic!("unexpected {:?}", other),
    }
    match parse_reply("HELLO\n") {
        Err(ReplyError::Unexpected(r)) => assert_eq!(r, "HELLO"),
        other => panic!("unexpected {:?}", other),
    }
    assert!(matches!(parse_reply("OK then\n"), Err(ReplyError::Unexpected(_))));
}

#[test]
fn args_are_checked_in_order() {
    assert_eq!(validate_args("  ", None, true), Err(ArgsError::ServerEmpty));
    assert_eq!(validate_args("localhost", None, true), Err(ArgsError::ServerNotHostPort));
    assert_eq!(
        validate_args("h:1", Some(FileKind::Missing), false),
        Err(ArgsError::TickersFileMissing)
    );
    assert_eq!(
        validate_args("h:1", Some(FileKind::NotAFile), false),
        Err(ArgsError::TickersFileNotAFile)
    );
    assert_eq!(validate_args("h:1", None, false), Err(ArgsError::MissingTickersSource));
    assert_eq!(
        validate_args("h:1", Some(FileKind::File), true),
        Err(ArgsError::ConflictingTickersSources)
    );
    assert_eq!(validate_args("h:1", Some(FileKind::File), false), Ok(()));
    assert_eq!(validate_args("h:1", None, true), Ok(()));
}

#[test]
fn link_locks_on_first_decodable_packet() {
    let server = SocketAddress::v4(10, 0, 0, 1, 5556);
    let other = SocketAddress::v4(10, 0, 0, 2, 9);
    let mut link = ClientLink::new();
    assert!(matches!(link.on_datagram(other, &[9, 9]), LinkAction::Discard(_)));
    assert_eq!(link.peer, None);
    let q = StockQuote { ticker: "AAPL".to_string(), price: 1, volume: 2, timestamp_ms: 3 };
    let bytes = encode_v1(&UdpPacketV1::Quote(q.clone())).unwrap();
    match link.on_datagram(server, &bytes) {
        LinkAction::LockOn { peer, packet } => {
            assert_eq!(peer, server);
            assert_eq!(packet, UdpPacketV1::Quote(q.clone()));
        }
        other => panic!("unexpected {:?}", other),
    }
    assert_eq!(link.peer, Some(server));
    assert!(matches!(link.on_datagram(server, &bytes), LinkAction::Show(_)));
    assert_eq!(link.peer, Some(server));
}

#[test]
fn ping_tracker_records_only_pings() {
    let ping = encode_v1(&UdpPacketV1::Ping).unwrap();
    assert!(matches!(on_datagram(&ping), PingAction::Record));
    let q = StockQuote { ticker: "X".to_string(), price: 0, volume: 0, timestamp_ms: 0 };
    let quote = encode_v1(&UdpPacketV1::Quote(q)).unwrap();
    assert!(matches!(on_datagram(&quote), PingAction::Ignore));
    assert!(matches!(on_datagram(&[]), PingAction::Reject(WireError::PacketTooShort)));
    assert!(matches!(
        on_datagram(&[2, 1]),
        PingAction::Reject(WireError::UnsupportedWireVersion(2))
    ));
}

#[test]
fn ping_sleep_is_split_into_ticks() {
    assert_eq!(sleep_step(2000, 0, 200), 200);
    assert_eq!(sleep_step(2000, 1900, 200), 100);
    assert_eq!(sleep_step(2000, 1999, 200), 1);
}

#[test]
fn decoded_results_drive_tracker_and_link() {
    assert!(matches!(action_for(Ok(UdpPacketV1::Ping)), PingAction::Record));
    assert!(matches!(
        action_for(Err(WireError::UnknownPacketKind(5))),
        PingAction::Reject(WireError::UnknownPacketKind(5))
    ));
    assert!(matches!(on_datagram(&[1]), PingAction::Reject(WireError::Postcard(_))));
    let a = SocketAddress::v4(10, 0, 0, 1, 1);
    let b = SocketAddress::v4(10, 0, 0, 2, 2);
    let mut link = ClientLink::new();
    assert!(matches!(link.on_decoded(a, Err(WireError::PacketTooShort)), LinkAction::Discard(_)));
    assert_eq!(link.peer, None);
    assert!(matches!(link.on_decoded(a, Ok(UdpPacketV1::Ping)), LinkAction::LockOn { .. }));
    assert!(matches!(link.on_decoded(b, Ok(UdpPacketV1::Ping)), LinkAction::Show(UdpPacketV1::Ping)));
    assert_eq!(link.peer, Some(a));
}
