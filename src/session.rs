//! Decisions of a client session: which quotes go out, when repeated send
//! failures end the session, and when the client's keep-alive has lapsed.
//!
//! Times are milliseconds on one monotonic clock.
//!
//! A session is identified by the UDP address its client advertised, and
//! that address is also the key under which it looks up the client's last
//! ping. The keep-alive tracker records pings under the source address it
//! observes, so a client whose pings arrive from another address is treated
//! as silent and its session ends on the timeout.

use vstd::prelude::*;
use crate::address::SocketAddress;
use crate::text::views;
use crate::wire::{StockQuote, UdpPacketV1, WireError, encode_v1, packet_bytes, PacketModel};

verus! {

/// Time without a ping after which a client counts as gone.
pub const PING_TIMEOUT_MS: u64 = 5000;

/// Interval at which a client sends pings.
pub const PING_INTERVAL_MS: u64 = 2000;

/// Failed sends in a row that end a session.
pub const SEND_ERROR_LIMIT: usize = 20;

/// The later of two instants.
pub open spec fn later(a: int, b: int) -> int {
    if a >= b {
        a
    } else {
        b
    }
}

/// Whether the keep-alive has lapsed at `now`: more than `PING_TIMEOUT_MS`
/// since the later of the last ping (if any) and the session start.
pub open spec fn ping_lapsed(last_ping: Option<u64>, session_start: u64, now: u64) -> bool {
    let since = match last_ping {
        Some(t) => later(t as int, session_start as int),
        None => session_start as int,
    };
    now - since > PING_TIMEOUT_MS
}

/// Whether the keep-alive has lapsed; see `ping_lapsed`.
pub fn ping_expired(last_ping: Option<u64>, session_start: u64, now: u64) -> (r: bool)
    ensures
        r == ping_lapsed(last_ping, session_start, now),
{
    let since = match last_ping {
        Some(t) => if t >= session_start {
            t
        } else {
            session_start
        },
        None => session_start,
    };
    now >= since && now - since > PING_TIMEOUT_MS
}

/// Why a session ended.
#[derive(Debug, Clone, Copy, PartialEq, Eq, Structural)]
pub enum StopReason {
    /// The process is shutting down.
    Shutdown,
    /// The client's keep-alive lapsed.
    PingTimeout,
    /// Too many sends in a row failed.
    SendErrors,
    /// The hub dropped the client's queue.
    Disconnected,
}

/// The state of one client session.
pub struct Session {
    /// The client.
    pub cid: u64,
    /// Where quotes are sent.
    pub target: SocketAddress,
    /// When the session started.
    pub started_ms: u64,
    /// The tickers the client subscribed to.
    pub tickers: Vec<String>,
    /// Failed sends since the last successful one.
    pub err_count: usize,
}

impl Session {
    /// The tickers the client subscribed to.
    pub open spec fn filter(&self) -> Set<Seq<char>> {
        views(self.tickers@).to_set()
    }

    /// The number of failed sends since the last successful one.
    pub open spec fn errors(&self) -> usize {
        self.err_count
    }

    /// A session for `cid` sending to `target` the quotes of `tickers`.
    pub fn new(cid: u64, target: SocketAddress, tickers: Vec<String>, started_ms: u64) -> (r:
        Session)
        ensures
            r.cid == cid,
            r.target == target,
            r.started_ms == started_ms,
            r.filter() == views(tickers@).to_set(),
            r.errors() == 0,
    {
        Session { cid, target, started_ms, tickers, err_count: 0 }
    }

    /// The number of failed sends since the last successful one.
    pub fn error_count(&self) -> (r: usize)
        ensures
            r == self.errors(),
    {
        self.err_count
    }

    /// Whether the client subscribed to the ticker of `q`.
    pub fn wants(&self, q: &StockQuote) -> (r: bool)
        ensures
            r == self.filter().contains(q.ticker@),
    {
        let mut i: usize = 0;
        while i < self.tickers.len()
            invariant
                i <= self.tickers@.len(),
                forall|k: int| 0 <= k < i ==> (#[trigger] self.tickers@[k])@ != q.ticker@,
            decreases self.tickers.len() - i,
        {
            if self.tickers[i] == q.ticker {
                assert(views(self.tickers@)[i as int] == q.ticker@);
                return true;
            }
            i += 1;
        }
        proof {
            if self.filter().contains(q.ticker@) {
                let k = choose|k: int|
                    0 <= k < views(self.tickers@).len() && views(self.tickers@)[k] == q.ticker@;
                assert(self.tickers@[k]@ == q.ticker@);
            }
        }
        false
    }

    /// Whether the session must end now, and why: shutdown first, then a
    /// lapsed keep-alive.
    pub fn check(&self, shutdown: bool, last_ping: Option<u64>, now: u64) -> (r: Option<
        StopReason,
    >)
        ensures
            shutdown ==> r == Some(StopReason::Shutdown),
            !shutdown && ping_lapsed(last_ping, self.started_ms, now) ==> r == Some(
                StopReason::PingTimeout,
            ),
            !shutdown && !ping_lapsed(last_ping, self.started_ms, now) ==> r is None,
    {
        if shutdown {
            Some(StopReason::Shutdown)
        } else if ping_expired(last_ping, self.started_ms, now) {
            Some(StopReason::PingTimeout)
        } else {
            None
        }
    }

    /// The datagram to send for quote `q`: none when the client did not
    /// subscribe to its ticker, else the encoded quote packet.
    pub fn datagram_for(&self, q: &StockQuote) -> (r: Option<Result<Vec<u8>, WireError>>)
        ensures
            !self.filter().contains(q.ticker@) ==> r is None,
            self.filter().contains(q.ticker@) ==> (r matches Some(Ok(b)) && b@ == packet_bytes(
                PacketModel::Quote(q@),
            )),
    {
        if !self.wants(q) {
            return None;
        }
        let pkt = UdpPacketV1::Quote(q.clone_quote());
        Some(encode_v1(&pkt))
    }

    /// Records the outcome of one send: a success clears the count of
    /// failures, a failure adds one. True while the session may go on, false
    /// once `SEND_ERROR_LIMIT` failures in a row are reached.
    pub fn record_send(&mut self, ok: bool) -> (r: bool)
        ensures
            final(self).cid == old(self).cid,
            final(self).target == old(self).target,
            final(self).started_ms == old(self).started_ms,
            final(self).filter() == old(self).filter(),
            ok ==> final(self).errors() == 0 && r,
            !ok ==> final(self).errors() == if old(self).errors() < usize::MAX {
                old(self).errors() + 1
            } else {
                old(self).errors() as int
            },
            !ok ==> (r <==> final(self).errors() < SEND_ERROR_LIMIT),
    {
        if ok {
            self.err_count = 0;
            true
        } else {
            self.err_count = self.err_count.saturating_add(1);
            self.err_count < SEND_ERROR_LIMIT
        }
    }
}

} // verus!
