//! Market-data streaming core: ticker lists, the text control protocol,
//! the versioned UDP packet codec, the fan-out hub and the decisions of
//! client sessions, of the keep-alive tracker and of the client.

pub mod address;
pub mod client;
pub mod error;
pub mod hub;
pub mod liveness;
pub mod protocol;
pub mod quote_text;
pub mod session;
pub mod text;
pub mod tickers;
pub mod wire;
