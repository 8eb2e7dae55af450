//! Decisions of the keep-alive tracker, which reads every datagram that
//! reaches the server's shared UDP socket.

use vstd::prelude::*;
use crate::wire::{WireError, decode, packet_bytes, PacketModel, UdpPacketV1};

verus! {

/// What the tracker does with one datagram.
#[derive(Debug)]
pub enum PingAction {
    /// A ping: note its source as alive now.
    Record,
    /// A quote: clients never send those; ignore it.
    Ignore,
    /// Not a packet: log and drop it.
    Reject(WireError),
}

/// The tracker's decision on what decoding a datagram gave: a ping is
/// recorded, a quote ignored, a decoding error rejected.
pub fn action_for(decoded: Result<UdpPacketV1, WireError>) -> (r: PingAction)
    ensures
        match decoded {
            Ok(UdpPacketV1::Ping) => r is Record,
            Ok(UdpPacketV1::Quote(_)) => r is Ignore,
            Err(e) => r == PingAction::Reject(e),
        },
{
    match decoded {
        Ok(UdpPacketV1::Ping) => PingAction::Record,
        Ok(UdpPacketV1::Quote(_)) => PingAction::Ignore,
        Err(e) => PingAction::Reject(e),
    }
}

/// The tracker's decision on datagram `buf`: `action_for` of its decoding.
pub fn on_datagram(buf: &[u8]) -> (r: PingAction)
    ensures
        forall|rest: Seq<u8>| buf@ == #[trigger] (packet_bytes(PacketModel::Ping) + rest) ==> r is Record,
        forall|q, rest: Seq<u8>|
            buf@ == #[trigger] (packet_bytes(PacketModel::Quote(q)) + rest) ==> r is Ignore,
        buf@.len() == 0 ==> r matches PingAction::Reject(WireError::PacketTooShort),
        buf@.len() > 0 && buf@[0] != crate::wire::WIRE_VERSION ==> r matches PingAction::Reject(
            WireError::UnsupportedWireVersion(_),
        ),
        buf@ == seq![crate::wire::WIRE_VERSION] ==> r matches PingAction::Reject(
            WireError::Postcard(_),
        ),
{
    action_for(decode(buf))
}

} // verus!
