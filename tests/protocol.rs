use quote_stream::address::SocketAddress;
use quote_stream::protocol::{
    err_reply, format_stream_command, format_stream_command_line, ok_reply, parse_command,
    Command, ProtocolError,
};

fn addr(s: &str) -> SocketAddress {
    SocketAddress::parse(s).unwrap()
}

fn stream(cmd: Command) -> (SocketAddress, Vec<String>) {
    match cmd {
        Command::Stream { udp_target, tickers } => (udp_target, tickers),
    }
}

#[test]
fn parse_stream_happy_path() {
    let cmd = parse_command("STREAM udp://127.0.0.1:34254 AAPL,TSLA").unwrap();
    let (target, tickers) = stream(cmd);
    assert_eq!(target, addr("127.0.0.1:34254"));
    assert_eq!(tickers, vec!["AAPL".to_string(), "TSLA".to_string()]);
}

#[test]
fn parse_stream_trims_and_uppercases_and_filters_empty() {
    let cmd = parse_command("  STREAM   udp://127.0.0.1:1   aapl,  tsla , ,goog  ").unwrap();
    let (target, tickers) = stream(cmd);
    assert_eq!(target, addr("127.0.0.1:1"));
    assert_eq!(
        tickers,
        vec!["AAPL".to_string(), "GOOG".to_string(), "TSLA".to_string()]
    );
}

#[test]
fn parse_empty_line_is_error() {
    let err = parse_command("").unwrap_err();
    assert!(matches!(err, ProtocolError::EmptyCommand));

    let err = parse_command("   \t\n  ").unwrap_err();
    assert!(matches!(err, ProtocolError::EmptyCommand));
}

#[test]
fn parse_missing_udp_target() {
    let err = parse_command("STREAM").unwrap_err();
    assert!(matches!(err, ProtocolError::MissingUdpTarget));
}

#[test]
fn parse_missing_tickers() {
    let err = parse_command("STREAM udp://127.0.0.1:1").unwrap_err();
    assert!(matches!(err, ProtocolError::MissingTickers));
}

#[test]
fn parse_bad_udp_scheme() {
    let err = parse_command("STREAM tcp://127.0.0.1:1 AAPL").unwrap_err();
    assert!(matches!(err, ProtocolError::BadUdpScheme));
}

#[test]
fn parse_invalid_udp_address() {
    let err = parse_command("STREAM udp://127.0.0.1:notaport AAPL").unwrap_err();
    assert!(matches!(err, ProtocolError::InvalidUdpAddress(s) if s == "127.0.0.1:notaport"));
}

#[test]
fn parse_empty_tickers_is_error() {
    let err = parse_command("STREAM udp://127.0.0.1:1 ,").unwrap_err();
    assert!(matches!(err, ProtocolError::EmptyTickers));
}

#[test]
fn parse_unknown_command() {
    let err = parse_command("PING udp://127.0.0.1:1 AAPL").unwrap_err();
    assert!(matches!(err, ProtocolError::UnknownCommand(s) if s == "PING"));
}

#[test]
fn format_stream_command_formats_as_expected() {
    let a = addr("127.0.0.1:34254");
    let tickers = vec!["AAPL".to_string(), "TSLA".to_string()];

    let s = format_stream_command(a, &tickers);
    assert_eq!(s, "STREAM udp://127.0.0.1:34254 AAPL,TSLA");
}

#[test]
fn roundtrip_parse_format_parse() {
    let a = addr("127.0.0.1:9");
    let tickers = vec!["aapl".to_string(), "TsLa".to_string()];

    let s = format_stream_command(a, &tickers);
    let (target, got) = stream(parse_command(&s).unwrap());
    assert_eq!(target, a);
    assert_eq!(got, vec!["AAPL".to_string(), "TSLA".to_string()]);
}

#[test]
fn roundtrip_canonical_ipv6() {
    let a = addr("[::1]:5556");
    let tickers = vec!["AAPL".to_string(), "MSFT".to_string(), "NVDA".to_string()];
    let line = format_stream_command_line(a, &tickers);
    assert_eq!(line, "STREAM udp://[::1]:5556 AAPL,MSFT,NVDA\n");
    let (target, got) = stream(parse_command(&line).unwrap());
    assert_eq!(target, a);
    assert_eq!(got, tickers);
}

#[test]
fn scheme_is_checked_before_missing_tickers() {
    let err = parse_command("STREAM tcp://127.0.0.1:1").unwrap_err();
    assert!(matches!(err, ProtocolError::BadUdpScheme));
    let err = parse_command("STREAM udp://nowhere").unwrap_err();
    assert!(matches!(err, ProtocolError::InvalidUdpAddress(s) if s == "nowhere"));
}

#[test]
fn ticker_words_are_joined_with_spaces() {
    let (_, got) = stream(parse_command("STREAM udp://10.0.0.2:7 aapl, msft ,").unwrap());
    assert_eq!(got, vec!["AAPL".to_string(), "MSFT".to_string()]);
    let (_, got) = stream(parse_command("STREAM udp://10.0.0.2:7 brk b").unwrap());
    assert_eq!(got, vec!["BRK B".to_string()]);
}

#[test]
fn error_messages_and_replies() {
    assert_eq!(ProtocolError::EmptyCommand.message(), "empty command");
    assert_eq!(ProtocolError::MissingCommand.message(), "missing command name");
    assert_eq!(ProtocolError::UnknownCommand("PING".to_string()).message(), "unknown command: PING");
    assert_eq!(ProtocolError::MissingUdpTarget.message(), "missing udp target");
    assert_eq!(ProtocolError::BadUdpScheme.message(), "udp target must start with udp://");
    assert_eq!(
        ProtocolError::InvalidUdpAddress("x:y".to_string()).message(),
        "invalid udp address: x:y"
    );
    assert_eq!(ProtocolError::MissingTickers.message(), "missing tickers list");
    assert_eq!(ProtocolError::EmptyTickers.message(), "tickers list is empty");
    assert_eq!(ProtocolError::ExtraArgs.message(), "unexpected extra arguments");
    assert_eq!(ok_reply(), "OK\n");
    assert_eq!(err_reply("empty command"), "ERR empty command\n");
}

#[test]
fn socket_address_text_and_parse() {
    let a = SocketAddress::v4(127, 0, 0, 1, 34254);
    assert_eq!(a, addr("127.0.0.1:34254"));
    assert_eq!(a.to_text(), "127.0.0.1:34254");
    assert_eq!(a.port(), 34254);
    assert_eq!(addr("[::1]:80").to_text(), "[::1]:80");
    assert!(SocketAddress::parse("127.0.0.1").is_none());
    assert!(SocketAddress::parse("localhost:80").is_none());
}
