//! Core of a federated chat server. A cluster of nodes keeps one network
//! state by replicating events:
//!
//! - `ids`, `clock`: typed identifiers and the vector clock `EventClock`;
//! - `event`, `event_log`: events, and the log that hands them on in causal
//!   order, holding back those whose dependencies have not arrived;
//! - `network`, `change`: the network state and the reducer that applies
//!   events to it, with the notifications it produces;
//! - `history`, `chathistory`, `send_history`: the bounded per-user history
//!   log, the CHATHISTORY query engine and the replay of entries;
//! - `server`: a node tying these together, with save and restore;
//! - `codec`: the wire form of events;
//! - `command`, `parse`, `text`: command dispatch and byte-level helpers.

pub mod ids;
pub mod text;
pub mod clock;
pub mod event;
pub mod event_log;
pub mod change;
pub mod network;
pub mod history;
pub mod parse;
pub mod chathistory;
pub mod send_history;
pub mod server;
pub mod codec;
pub mod command;
