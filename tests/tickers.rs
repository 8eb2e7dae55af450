use quote_stream::tickers::{
    load_from_arg, load_from_file, load_from_text, normalize_line, parse_ticker_lines,
    parse_tickers_csv, TickersError,
};

#[test]
fn parse_tickers_csv_sorts_and_dedups_and_filters_empty() {
    let got = parse_tickers_csv(" aapl, TSLA, ,goog ,AAPL,, tsla ");
    assert_eq!(got, vec!["AAPL", "GOOG", "TSLA"]);
}

#[test]
fn parse_tickers_csv_empty_gives_empty_vec() {
    assert!(parse_tickers_csv("").is_empty());
    assert!(parse_tickers_csv(" , ,  ,").is_empty());
}

#[test]
fn normalize_line_ignores_empty_and_full_line_comments() {
    assert_eq!(normalize_line(""), None);
    assert_eq!(normalize_line("   "), None);
    assert_eq!(normalize_line("# comment"), None);
    assert_eq!(normalize_line("   # comment"), None);
    assert_eq!(normalize_line("#"), None);
    assert_eq!(normalize_line("   #"), None);
}

#[test]
fn normalize_line_supports_inline_comments_and_uppercase() {
    assert_eq!(normalize_line("aapl"), Some("AAPL".to_string()));
    assert_eq!(normalize_line("  aapl  "), Some("AAPL".to_string()));
    assert_eq!(normalize_line("aapl # long comment"), Some("AAPL".to_string()));
    assert_eq!(normalize_line("tsla#comment"), Some("TSLA".to_string()));
    assert_eq!(normalize_line("  tsla#comment  "), Some("TSLA".to_string()));
    assert_eq!(normalize_line("   # only comment after trim"), None);
    assert_eq!(normalize_line("   #only"), None);
    assert_eq!(normalize_line("   #only  # still"), None);
    assert_eq!(normalize_line("AAPL #"), Some("AAPL".to_string()));
    assert_eq!(normalize_line("AAPL#"), Some("AAPL".to_string()));
}

#[test]
fn read_tickers_sorts_and_deduplicates() {
    let input = "\
msft
aapl
GOOG
AAPL
  goog
# ignored
";
    let got = parse_ticker_lines(input);
    assert_eq!(got, vec!["AAPL", "GOOG", "MSFT"]);
}

#[test]
fn read_tickers_ignores_blank_lines_and_comments() {
    let input = "\n   \n# one\n   # two\n#\n   #\n";
    let got = parse_ticker_lines(input);
    assert!(got.is_empty());
}

#[test]
fn read_tickers_parses_inline_comments_and_trimming() {
    let input = "\
  aapl   # comment
#full comment
 tsla#x
   nvda   # ok
";
    let got = parse_ticker_lines(input);
    assert_eq!(got, vec!["AAPL", "NVDA", "TSLA"]);
}

#[test]
fn ticker_lines_accept_crlf_and_unicode_spaces() {
    let got = parse_ticker_lines("msft\r\n\u{3000}ibm\u{A0}\r\n");
    assert_eq!(got, vec!["IBM", "MSFT"]);
}

#[test]
fn csv_keeps_non_ascii_letters_and_sorts_by_code_point() {
    let got = parse_tickers_csv("b,a,Z,é,aa");
    assert_eq!(got, vec!["A", "AA", "B", "Z", "é"]);
}

#[test]
fn csv_output_is_sorted_upper_and_unique() {
    let got = parse_tickers_csv("zz, yy ,xx,,zz, a b ,YY");
    for w in got.windows(2) {
        assert!(w[0] < w[1]);
    }
    for t in &got {
        assert!(!t.is_empty());
        assert_eq!(t.to_ascii_uppercase(), *t);
    }
    assert_eq!(got, vec!["A B", "XX", "YY", "ZZ"]);
}

#[test]
fn load_from_arg_ok_and_empty() {
    assert_eq!(load_from_arg("tsla,aapl").unwrap(), vec!["AAPL", "TSLA"]);
    match load_from_arg(" , ") {
        Err(TickersError::EmptyFromArg { raw }) => assert_eq!(raw, " , "),
        other => panic!("unexpected {:?}", other),
    }
}

#[test]
fn load_from_file_ok_and_empty() {
    assert_eq!(load_from_file("t.txt", "aapl\nmsft\n#comment\nAAPL\n").unwrap(), vec!["AAPL", "MSFT"]);
    match load_from_file("t.txt", "# nothing\n\n") {
        Err(TickersError::EmptyFromFile { path }) => assert_eq!(path, "t.txt"),
        other => panic!("unexpected {:?}", other),
    }
}

#[test]
fn load_from_text_detects_form() {
    assert_eq!(load_from_text("  aapl, tsla ").unwrap(), vec!["AAPL", "TSLA"]);
    assert_eq!(load_from_text("aapl\ntsla # big\n").unwrap(), vec!["AAPL", "TSLA"]);
    assert_eq!(load_from_text("aapl # only one").unwrap(), vec!["AAPL"]);
    assert!(matches!(load_from_text("   "), Err(TickersError::EmptyFromArg { .. })));
    assert!(matches!(load_from_text("# x\n#y"), Err(TickersError::EmptyFromArg { .. })));
}
