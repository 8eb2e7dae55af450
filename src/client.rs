//! Client-side decisions: checking the command-line arguments, reading the
//! server's reply, locking on to the server's UDP address, and pacing pings.

use vstd::prelude::*;
use crate::address::SocketAddress;
use crate::text::{chars_of, slice_chars, string_of, trim, trim_chars};
use crate::wire::{UdpPacketV1, WireError, decode, packet_bytes, PacketModel};

verus! {

/// What the file system says of the `--tickers-file` path.
#[derive(Debug, Clone, Copy, PartialEq, Eq, Structural)]
pub enum FileKind {
    /// Nothing is there.
    Missing,
    /// Something other than a regular file is there.
    NotAFile,
    /// A regular file is there.
    File,
}

/// Why the client's arguments were refused.
#[derive(Debug, Clone, Copy, PartialEq, Eq, Structural)]
pub enum ArgsError {
    /// `--server` is blank.
    ServerEmpty,
    /// `--server` does not look like `HOST:PORT`.
    ServerNotHostPort,
    /// The ticker file does not exist.
    TickersFileMissing,
    /// The ticker file path is not a regular file.
    TickersFileNotAFile,
    /// Neither a ticker file nor a ticker text was given.
    MissingTickersSource,
    /// Both a ticker file and a ticker text were given.
    ConflictingTickersSources,
}

/// The first rule that the arguments break, if any.
pub open spec fn args_fault(server: Seq<char>, file: Option<FileKind>, has_tickers: bool) -> Option<
    ArgsError,
> {
    if trim(server).len() == 0 {
        Some(ArgsError::ServerEmpty)
    } else if !server.contains(':') {
        Some(ArgsError::ServerNotHostPort)
    } else if file == Some(FileKind::Missing) {
        Some(ArgsError::TickersFileMissing)
    } else if file == Some(FileKind::NotAFile) {
        Some(ArgsError::TickersFileNotAFile)
    } else if file is None && !has_tickers {
        Some(ArgsError::MissingTickersSource)
    } else if file is Some && has_tickers {
        Some(ArgsError::ConflictingTickersSources)
    } else {
        None
    }
}

/// Checks the client's arguments: `server` is the `--server` text, `file`
/// what is at the `--tickers-file` path when one was given, `has_tickers`
/// whether `--tickers` was given.
pub fn validate_args(server: &str, file: Option<FileKind>, has_tickers: bool) -> (r: Result<
    (),
    ArgsError,
>)
    ensures
        r is Ok <==> args_fault(server@, file, has_tickers) is None,
        r matches Err(e) ==> args_fault(server@, file, has_tickers) == Some(e),
{
    let s = chars_of(server);
    let t = trim_chars(&s);
    if t.len() == 0 {
        return Err(ArgsError::ServerEmpty);
    }
    let mut has_colon = false;
    let mut i: usize = 0;
    while i < s.len()
        invariant
            i <= s.len(),
            has_colon == s@.take(i as int).contains(':'),
        decreases s.len() - i,
    {
        if s[i] == ':' {
            has_colon = true;
        }
        proof {
            let p = s@.take(i + 1);
            assert(p =~= s@.take(i as int).push(s@[i as int]));
            if s@[i as int] == ':' {
                assert(p[i as int] == ':');
            }
            if s@.take(i as int).contains(':') {
                let k = choose|k: int| 0 <= k < i && s@.take(i as int)[k] == ':';
                assert(p[k] == ':');
            }
            if p.contains(':') {
                let k = choose|k: int| 0 <= k < p.len() && p[k] == ':';
                if k < i {
                    assert(s@.take(i as int)[k] == ':');
                }
            }
        }
        i += 1;
    }
    assert(s@.take(s.len() as int) =~= s@);
    if !has_colon {
        return Err(ArgsError::ServerNotHostPort);
    }
    match file {
        Some(FileKind::Missing) => Err(ArgsError::TickersFileMissing),
        Some(FileKind::NotAFile) => Err(ArgsError::TickersFileNotAFile),
        Some(FileKind::File) => if has_tickers {
            Err(ArgsError::ConflictingTickersSources)
        } else {
            Ok(())
        },
        None => if has_tickers {
            Ok(())
        } else {
            Err(ArgsError::MissingTickersSource)
        },
    }
}

/// Why the server refused or garbled the subscription.
#[derive(Debug)]
pub enum ReplyError {
    /// The server replied `ERR` with this reason.
    Server(String),
    /// The reply was neither `OK` nor `ERR ...`.
    Unexpected(String),
}

/// `s` without trailing carriage returns and newlines.
pub open spec fn strip_eol(s: Seq<char>) -> Seq<char>
    decreases s.len(),
{
    if s.len() > 0 && (s.last() == '\r' || s.last() == '\n') {
        strip_eol(s.drop_last())
    } else {
        s
    }
}

/// What the server's reply line says: `Ok` for `OK`, the trimmed reason
/// for `ERR <reason>`, the line itself for anything else.
pub open spec fn reply_of(line: Seq<char>) -> Result<(), (bool, Seq<char>)> {
    let resp = strip_eol(line);
    if resp == seq!['O', 'K'] {
        Ok(())
    } else if resp.len() >= 3 && resp.take(3) == seq!['E', 'R', 'R'] {
        Err((true, trim(resp.skip(3))))
    } else {
        Err((false, resp))
    }
}

/// Reads the server's reply to a `STREAM` command.
pub fn parse_reply(line: &str) -> (r: Result<(), ReplyError>)
    ensures
        match r {
            Ok(()) => reply_of(line@) == Ok::<(), (bool, Seq<char>)>(()),
            Err(ReplyError::Server(s)) => reply_of(line@) == Err::<(), (bool, Seq<char>)>(
                (true, s@),
            ),
            Err(ReplyError::Unexpected(s)) => reply_of(line@) == Err::<(), (bool, Seq<char>)>(
                (false, s@),
            ),
        },
{
    let s = chars_of(line);
    let mut n: usize = s.len();
    assert(s@.take(n as int) =~= s@);
    while n > 0 && (s[n - 1] == '\r' || s[n - 1] == '\n')
        invariant
            n <= s.len(),
            strip_eol(s@) == strip_eol(s@.take(n as int)),
        decreases n,
    {
        assert(s@.take(n as int).drop_last() =~= s@.take(n - 1));
        n -= 1;
    }
    let resp = slice_chars(&s, 0, n);
    assert(resp@ =~= s@.take(n as int));
    assert(strip_eol(resp@) == resp@);
    if resp.len() == 2 && resp[0] == 'O' && resp[1] == 'K' {
        assert(resp@ =~= seq!['O', 'K']);
        return Ok(());
    }
    assert(resp@ != seq!['O', 'K']) by {
        if resp@ == seq!['O', 'K'] {
            assert(resp@[0] == 'O' && resp@[1] == 'K');
        }
    }
    if resp.len() >= 3 && resp[0] == 'E' && resp[1] == 'R' && resp[2] == 'R' {
        assert(resp@.take(3) =~= seq!['E', 'R', 'R']);
        let rest = slice_chars(&resp, 3, resp.len());
        let reason = trim_chars(&rest);
        assert(rest@ =~= resp@.skip(3));
        return Err(ReplyError::Server(string_of(&reason)));
    }
    assert(!(resp@.len() >= 3 && resp@.take(3) == seq!['E', 'R', 'R'])) by {
        if resp@.len() >= 3 && resp@.take(3) == seq!['E', 'R', 'R'] {
            assert(resp@.take(3)[0] == 'E' && resp@.take(3)[1] == 'R' && resp@.take(3)[2] == 'R');
        }
    }
    Err(ReplyError::Unexpected(string_of(&resp)))
}

/// What the client's receive loop does with one datagram.
#[derive(Debug)]
pub enum LinkAction {
    /// The first packet: lock on to `peer` (connect the socket to it and
    /// hand it to the ping sender), then show the packet.
    LockOn { peer: SocketAddress, packet: UdpPacketV1 },
    /// Show the packet.
    Show(UdpPacketV1),
    /// Drop the datagram, which did not decode.
    Discard(WireError),
}

/// The client's UDP link: unconnected until the first packet that decodes,
/// then connected to that packet's source.
pub struct ClientLink {
    pub peer: Option<SocketAddress>,
}

impl ClientLink {
    /// An unconnected link.
    pub fn new() -> (r: ClientLink)
        ensures
            r.peer is None,
    {
        ClientLink { peer: None }
    }

    /// Handles what decoding a datagram from `from` gave. A decoded packet
    /// is shown; if the link is unconnected it first locks on to `from`. A
    /// decoding error is discarded and leaves the link as it is.
    pub fn on_decoded(&mut self, from: SocketAddress, decoded: Result<UdpPacketV1, WireError>) -> (r:
        LinkAction)
        ensures
            match decoded {
                Ok(p) => if old(self).peer is None {
                    r == LinkAction::LockOn { peer: from, packet: p } && final(self).peer == Some(
                        from,
                    )
                } else {
                    r == LinkAction::Show(p) && final(self).peer == old(self).peer
                },
                Err(e) => r == LinkAction::Discard(e) && final(self).peer == old(self).peer,
            },
    {
        match decoded {
            Ok(packet) => {
                if self.peer.is_none() {
                    self.peer = Some(from);
                    LinkAction::LockOn { peer: from, packet }
                } else {
                    LinkAction::Show(packet)
                }
            },
            Err(e) => LinkAction::Discard(e),
        }
    }

    /// Handles a datagram from `from`: `on_decoded` of its decoding.
    pub fn on_datagram(&mut self, from: SocketAddress, buf: &[u8]) -> (r: LinkAction)
        ensures
            old(self).peer is None ==> (r is LockOn <==> final(self).peer == Some(from)),
            old(self).peer is None && !(r is LockOn) ==> final(self).peer is None,
            old(self).peer is Some ==> final(self).peer == old(self).peer && !(r is LockOn),
            r matches LinkAction::LockOn { peer, .. } ==> peer == from,
            forall|p: PacketModel, rest: Seq<u8>|
                buf@ == #[trigger] (packet_bytes(p) + rest) ==> match r {
                    LinkAction::LockOn { packet, .. } => packet@ == p,
                    LinkAction::Show(packet) => packet@ == p,
                    LinkAction::Discard(_) => false,
                },
            buf@.len() == 0 ==> r matches LinkAction::Discard(WireError::PacketTooShort),
    {
        self.on_decoded(from, decode(buf))
    }
}

/// How long the ping sender sleeps next while waiting out `interval_ms`,
/// of which `slept_ms` have passed, in steps of at most `tick_ms`.
pub fn sleep_step(interval_ms: u64, slept_ms: u64, tick_ms: u64) -> (r: u64)
    requires
        slept_ms < interval_ms,
    ensures
        r == if interval_ms - slept_ms < tick_ms {
            interval_ms - slept_ms
        } else {
            tick_ms as int
        },
{
    let left = interval_ms - slept_ms;
    if left < tick_ms {
        left
    } else {
        tick_ms
    }
}

} // verus!
