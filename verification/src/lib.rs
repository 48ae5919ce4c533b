//! A verified relay hub for site-scoped support chat.
//!
//! The library models the routing core of a visitor/operator chat relay:
//! the hub that tracks connections, room membership and the single operator
//! binding per site, the unread-counter bookkeeping, the persisted room and
//! message tables, and the wire-protocol decisions of a session. All state
//! transitions are pure functions with contracts; transports, the real
//! key-value store and the database live outside and act on the effects
//! these functions return.

pub mod config;
pub mod counter;
pub mod dates;
pub mod dto;
pub mod hub;
pub mod key_table;
pub mod relay;
pub mod session;
pub mod store;
pub mod util;
