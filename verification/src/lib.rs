//! A single node of a line-oriented RPC protocol for distributed-systems
//! testing: identifiers distinguishing cluster nodes from clients, the typed
//! message envelope schema, and the node state machine that answers init,
//! echo, generate, read, broadcast and topology requests.

pub mod id;
pub mod message;
pub mod server;
