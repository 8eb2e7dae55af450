//! The control protocol: one `STREAM udp://HOST:PORT TICKERS` line per TCP
//! connection, answered by `OK` or `ERR <reason>`.

use vstd::prelude::*;
use crate::address::{SocketAddress, socket_address_of, socket_address_text};
use crate::text::{
    char_views, chars_of, concat, is_upper, is_ws, join, join_chars, lemma_join_no_ws,
    lemma_join_nonempty, lemma_sorted_unique, lemma_split_join, lemma_trim_no_ws,
    lemma_words_append, lemma_words_single, no_ws, split_on, string_of, strictly_sorted, trim,
    upper, views, words, words_of,
};
use crate::tickers::{csv_tickers, lists_sorted, parse_tickers_csv, ticker_of};

verus! {

/// The only verb of the protocol.
pub open spec fn stream_verb() -> Seq<char> {
    seq!['S', 'T', 'R', 'E', 'A', 'M']
}

/// The scheme that a UDP target starts with.
pub open spec fn udp_scheme() -> Seq<char> {
    seq!['u', 'd', 'p', ':', '/', '/']
}

/// Why a command line was rejected.
#[derive(Debug)]
pub enum ProtocolError {
    /// The line is blank.
    EmptyCommand,
    /// The line holds no verb.
    MissingCommand,
    /// The verb is not `STREAM`.
    UnknownCommand(String),
    /// No UDP target follows the verb.
    MissingUdpTarget,
    /// The UDP target does not start with `udp://`.
    BadUdpScheme,
    /// The UDP target is not a socket address.
    InvalidUdpAddress(String),
    /// No ticker list follows the UDP target.
    MissingTickers,
    /// The ticker list names no ticker.
    EmptyTickers,
    /// Unexpected extra arguments.
    ExtraArgs,
}

/// A rejection of a command line, with its texts as character sequences.
pub enum ProtocolFault {
    EmptyCommand,
    MissingCommand,
    UnknownCommand(Seq<char>),
    MissingUdpTarget,
    BadUdpScheme,
    InvalidUdpAddress(Seq<char>),
    MissingTickers,
    EmptyTickers,
    ExtraArgs,
}

impl View for ProtocolError {
    type V = ProtocolFault;

    open spec fn view(&self) -> ProtocolFault {
        match self {
            ProtocolError::EmptyCommand => ProtocolFault::EmptyCommand,
            ProtocolError::MissingCommand => ProtocolFault::MissingCommand,
            ProtocolError::UnknownCommand(s) => ProtocolFault::UnknownCommand(s@),
            ProtocolError::MissingUdpTarget => ProtocolFault::MissingUdpTarget,
            ProtocolError::BadUdpScheme => ProtocolFault::BadUdpScheme,
            ProtocolError::InvalidUdpAddress(s) => ProtocolFault::InvalidUdpAddress(s@),
            ProtocolError::MissingTickers => ProtocolFault::MissingTickers,
            ProtocolError::EmptyTickers => ProtocolFault::EmptyTickers,
            ProtocolError::ExtraArgs => ProtocolFault::ExtraArgs,
        }
    }
}

/// A command accepted by the server.
#[derive(Debug)]
pub enum Command {
    /// Stream quotes of `tickers` to `udp_target`.
    Stream { udp_target: SocketAddress, tickers: Vec<String> },
}

/// What `parse_command` makes of a line: the target and the set of tickers,
/// or the first rule that the line breaks.
pub open spec fn command_of(line: Seq<char>) -> Result<
    (SocketAddress, Set<Seq<char>>),
    ProtocolFault,
> {
    let ws = words(line);
    if ws.len() == 0 {
        Err(ProtocolFault::EmptyCommand)
    } else if ws[0] != stream_verb() {
        Err(ProtocolFault::UnknownCommand(ws[0]))
    } else if ws.len() < 2 {
        Err(ProtocolFault::MissingUdpTarget)
    } else if ws[1].len() < 6 || ws[1].take(6) != udp_scheme() {
        Err(ProtocolFault::BadUdpScheme)
    } else if socket_address_of(ws[1].skip(6)) is None {
        Err(ProtocolFault::InvalidUdpAddress(ws[1].skip(6)))
    } else if ws.len() < 3 {
        Err(ProtocolFault::MissingTickers)
    } else if csv_tickers(join(ws.skip(2), ' ')).is_empty() {
        Err(ProtocolFault::EmptyTickers)
    } else {
        Ok((socket_address_of(ws[1].skip(6))->Some_0, csv_tickers(join(ws.skip(2), ' '))))
    }
}

/// Whether `w` is `lit`.
fn chars_are(w: &Vec<char>, lit: &str) -> (r: bool)
    ensures
        r == (w@ == lit@),
{
    let l = chars_of(lit);
    crate::text::chars_eq(w, &l)
}

/// Whether `w` starts with `udp://`.
fn has_udp_scheme(w: &Vec<char>) -> (r: bool)
    ensures
        r == (w@.len() >= 6 && w@.take(6) == udp_scheme()),
{
    if w.len() < 6 {
        return false;
    }
    let r = w[0] == 'u' && w[1] == 'd' && w[2] == 'p' && w[3] == ':' && w[4] == '/' && w[5]
        == '/';
    if r {
        assert(w@.take(6) =~= udp_scheme());
    } else {
        assert(w@.take(6) != udp_scheme()) by {
            if w@.take(6) == udp_scheme() {
                assert(w@.take(6)[0] == 'u');
                assert(w@.take(6)[1] == 'd');
                assert(w@.take(6)[2] == 'p');
                assert(w@.take(6)[3] == ':');
                assert(w@.take(6)[4] == '/');
                assert(w@.take(6)[5] == '/');
            }
        }
    }
    r
}

/// Parses a command line such as `STREAM udp://127.0.0.1:34254 AAPL,TSLA`.
///
/// The line is split on runs of white space. The verb must be `STREAM`; the
/// second word must be `udp://` followed by a socket address; the remaining
/// words, joined by single spaces, are a comma-separated ticker list that
/// must name at least one ticker. The tickers come back normalised.
pub fn parse_command(line: &str) -> (r: Result<Command, ProtocolError>)
    ensures
        match r {
            Ok(Command::Stream { udp_target, tickers }) => command_of(line@) == Ok::<
                (SocketAddress, Set<Seq<char>>),
                ProtocolFault,
            >((udp_target, views(tickers@).to_set())) && strictly_sorted(views(tickers@)),
            Err(e) => command_of(line@) == Err::<(SocketAddress, Set<Seq<char>>), ProtocolFault>(
                e@,
            ),
        },
{
    proof {
        reveal_strlit("STREAM");
    }
    let chars = chars_of(line);
    let ws = words_of(&chars);
    let ghost wv = words(line@);
    assert(char_views(ws@) == wv);
    if ws.len() == 0 {
        return Err(ProtocolError::EmptyCommand);
    }
    assert(ws@[0]@ == wv[0]);
    if !chars_are(&ws[0], "STREAM") {
        assert("STREAM"@ =~= stream_verb());
        return Err(ProtocolError::UnknownCommand(string_of(&ws[0])));
    }
    assert("STREAM"@ =~= stream_verb());
    if ws.len() < 2 {
        return Err(ProtocolError::MissingUdpTarget);
    }
    let target = &ws[1];
    assert(target@ == wv[1]);
    if !has_udp_scheme(target) {
        return Err(ProtocolError::BadUdpScheme);
    }
    let addr_chars = crate::text::slice_chars(target, 6, target.len());
    assert(addr_chars@ =~= wv[1].skip(6));
    let addr_text = string_of(&addr_chars);
    let udp_target = match SocketAddress::parse(addr_text.as_str()) {
        Some(a) => a,
        None => {
            return Err(ProtocolError::InvalidUdpAddress(addr_text));
        },
    };
    if ws.len() < 3 {
        return Err(ProtocolError::MissingTickers);
    }
    let rest = crate::text::slice_words(&ws, 2);
    assert(char_views(rest@) =~= wv.skip(2));
    let raw = join_chars(&rest, ' ');
    let raw_text = string_of(&raw);
    let tickers = parse_tickers_csv(raw_text.as_str());
    if tickers.len() == 0 {
        assert(views(tickers@).to_set() =~= Set::empty());
        return Err(ProtocolError::EmptyTickers);
    }
    assert(views(tickers@).to_set().contains(views(tickers@)[0]));
    Ok(Command::Stream { udp_target, tickers })
}

/// The reason text of a rejection.
pub open spec fn fault_message(f: ProtocolFault) -> Seq<char> {
    match f {
        ProtocolFault::EmptyCommand => "empty command"@,
        ProtocolFault::MissingCommand => "missing command name"@,
        ProtocolFault::UnknownCommand(s) => "unknown command: "@ + s,
        ProtocolFault::MissingUdpTarget => "missing udp target"@,
        ProtocolFault::BadUdpScheme => "udp target must start with udp://"@,
        ProtocolFault::InvalidUdpAddress(s) => "invalid udp address: "@ + s,
        ProtocolFault::MissingTickers => "missing tickers list"@,
        ProtocolFault::EmptyTickers => "tickers list is empty"@,
        ProtocolFault::ExtraArgs => "unexpected extra arguments"@,
    }
}

impl ProtocolError {
    /// The reason text of the rejection, as sent after `ERR `.
    pub fn message(&self) -> (r: String)
        ensures
            r@ == fault_message(self@),
    {
        match self {
            ProtocolError::EmptyCommand => "empty command".to_string(),
            ProtocolError::MissingCommand => "missing command name".to_string(),
            ProtocolError::UnknownCommand(s) => concat("unknown command: ", s.as_str()),
            ProtocolError::MissingUdpTarget => "missing udp target".to_string(),
            ProtocolError::BadUdpScheme => "udp target must start with udp://".to_string(),
            ProtocolError::InvalidUdpAddress(s) => concat("invalid udp address: ", s.as_str()),
            ProtocolError::MissingTickers => "missing tickers list".to_string(),
            ProtocolError::EmptyTickers => "tickers list is empty".to_string(),
            ProtocolError::ExtraArgs => "unexpected extra arguments".to_string(),
        }
    }
}

/// The reason text sent when the client closed the connection before
/// sending a command.
pub fn closed_before_command() -> (r: String)
    ensures
        r@ == "client closed connection"@,
{
    "client closed connection".to_string()
}

/// The success reply.
pub fn ok_reply() -> (r: String)
    ensures
        r@ == "OK\n"@,
{
    "OK\n".to_string()
}

/// The failure reply carrying `reason`.
pub fn err_reply(reason: &str) -> (r: String)
    ensures
        r@ == "ERR "@ + reason@ + "\n"@,
{
    let head = concat("ERR ", reason);
    concat(head.as_str(), "\n")
}

/// The text of a `STREAM` command for `udp_target` and `tickers`.
pub open spec fn stream_command_text(udp_target: SocketAddress, tickers: Seq<Seq<char>>) -> Seq<
    char,
> {
    stream_verb() + seq![' '] + udp_scheme() + socket_address_text(udp_target) + seq![' '] + join(
        tickers,
        ',',
    )
}

/// Appends the characters of `s` to `out`.
fn append_chars(out: &mut Vec<char>, s: &Vec<char>)
    ensures
        final(out)@ == old(out)@ + s@,
{
    let ghost start = out@;
    let mut i: usize = 0;
    while i < s.len()
        invariant
            i <= s.len(),
            out@ == start + s@.take(i as int),
        decreases s.len() - i,
    {
        out.push(s[i]);
        assert(s@.take(i + 1) =~= s@.take(i as int).push(s@[i as int]));
        assert(start + s@.take(i + 1) =~= (start + s@.take(i as int)).push(s@[i as int]));
        i += 1;
    }
    assert(s@.take(s.len() as int) =~= s@);
}

/// Formats the command `STREAM udp://<udp_target> T1,T2,...`.
pub fn format_stream_command(udp_target: SocketAddress, tickers: &[String]) -> (r: String)
    ensures
        r@ == stream_command_text(udp_target, views(tickers@)),
{
    let mut lists: Vec<Vec<char>> = Vec::new();
    let mut i: usize = 0;
    while i < tickers.len()
        invariant
            i <= tickers@.len(),
            char_views(lists@) == views(tickers@).take(i as int),
        decreases tickers.len() - i,
    {
        let c = chars_of(tickers[i].as_str());
        let ghost l0 = lists@;
        lists.push(c);
        assert(char_views(lists@) =~= char_views(l0).push(tickers@[i as int]@));
        assert(views(tickers@).take(i + 1) =~= views(tickers@).take(i as int).push(
            tickers@[i as int]@,
        ));
        i += 1;
    }
    assert(views(tickers@).take(tickers@.len() as int) =~= views(tickers@));
    proof {
        reveal_strlit("STREAM udp://");
    }
    let mut out = chars_of("STREAM udp://");
    assert("STREAM udp://"@ =~= stream_verb() + seq![' '] + udp_scheme());
    let addr = chars_of(udp_target.to_text().as_str());
    append_chars(&mut out, &addr);
    out.push(' ');
    let list = join_chars(&lists, ',');
    append_chars(&mut out, &list);
    assert(out@ =~= stream_command_text(udp_target, views(tickers@)));
    string_of(&out)
}

/// The command line of `format_stream_command`, ended by a newline.
pub fn format_stream_command_line(udp_target: SocketAddress, tickers: &[String]) -> (r: String)
    ensures
        r@ == stream_command_text(udp_target, views(tickers@)).push('\n'),
{
    let cmd = format_stream_command(udp_target, tickers);
    proof {
        reveal_strlit("\n");
    }
    let r = concat(cmd.as_str(), "\n");
    assert(r@ =~= stream_command_text(udp_target, views(tickers@)).push('\n'));
    r
}

/// An address whose text form is one word that reads back as the address.
pub open spec fn canonical_address(a: SocketAddress) -> bool {
    &&& socket_address_of(socket_address_text(a)) == Some(a)
    &&& no_ws(socket_address_text(a))
}

/// A normalised ticker list: not empty, strictly sorted, each ticker
/// non-empty, upper case, without white space and without commas.
pub open spec fn canonical_tickers(ts: Seq<Seq<char>>) -> bool {
    &&& ts.len() > 0
    &&& strictly_sorted(ts)
    &&& forall|i: int|
        0 <= i < ts.len() ==> (#[trigger] ts[i]).len() > 0 && is_upper(ts[i]) && no_ws(ts[i])
            && !ts[i].contains(',')
}

/// The command round trip: on a canonical address and a canonical ticker
/// list, parsing the formatted command gives back the address and exactly
/// that list (the only strictly sorted list of its tickers).
pub proof fn lemma_command_round_trip(a: SocketAddress, ts: Seq<Seq<char>>)
    requires
        canonical_address(a),
        canonical_tickers(ts),
    ensures
        command_of(stream_command_text(a, ts)) == Ok::<
            (SocketAddress, Set<Seq<char>>),
            ProtocolFault,
        >((a, ts.to_set())),
        forall|v: Seq<Seq<char>>| lists_sorted(v, ts.to_set()) ==> v == ts,
{
    let at = socket_address_text(a);
    let u = udp_scheme() + at;
    let j = join(ts, ',');
    let line = stream_command_text(a, ts);
    assert(line =~= stream_verb() + seq![' '] + (u + seq![' '] + j));
    lemma_words_append(stream_verb(), u + seq![' '] + j);
    lemma_words_append(u, j);
    assert(no_ws(stream_verb())) by {
        assert forall|i: int| 0 <= i < stream_verb().len() implies !is_ws(#[trigger] stream_verb()[i]) by {
        }
    }
    lemma_words_single(stream_verb());
    assert(no_ws(u)) by {
        assert forall|i: int| 0 <= i < u.len() implies !is_ws(#[trigger] u[i]) by {
            if i >= 6 {
                assert(u[i] == at[i - 6]);
            }
        }
    }
    lemma_words_single(u);
    assert forall|i: int| 0 <= i < ts.len() implies no_ws(#[trigger] ts[i]) by {}
    lemma_join_no_ws(ts, ',');
    lemma_join_nonempty(ts, ',');
    lemma_words_single(j);
    let ws = words(line);
    assert(ws =~= seq![stream_verb(), u, j]);
    assert(u.take(6) =~= udp_scheme());
    assert(u.skip(6) =~= at);
    assert(ws.skip(2) =~= seq![j]);
    assert(join(ws.skip(2), ' ') == j);
    lemma_split_join(ts, ',');
    assert(csv_tickers(j) =~= ts.to_set()) by {
        assert forall|t: Seq<char>| csv_tickers(j).contains(t) implies ts.to_set().contains(t) by {
            let i = choose|i: int|
                0 <= i < split_on(j, ',').len() && trim(#[trigger] split_on(j, ',')[i]).len() > 0
                    && t == ticker_of(split_on(j, ',')[i]);
            lemma_trim_no_ws(ts[i]);
            assert(upper(ts[i]) =~= ts[i]);
        }
        assert forall|t: Seq<char>| ts.to_set().contains(t) implies csv_tickers(j).contains(t) by {
            let i = choose|i: int| 0 <= i < ts.len() && ts[i] == t;
            lemma_trim_no_ws(ts[i]);
            assert(upper(ts[i]) =~= ts[i]);
            assert(split_on(j, ',')[i] == ts[i]);
        }
    }
    assert(ts.to_set().contains(ts[0]));
    assert forall|v: Seq<Seq<char>>| lists_sorted(v, ts.to_set()) implies v == ts by {
        lemma_sorted_unique(v, ts);
    }
}

} // verus!
