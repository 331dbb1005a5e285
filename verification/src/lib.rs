//! A discrete-time simulation of request/response traffic between a small
//! graph of network nodes: clients that issue configured requests, servers
//! that answer them by driving handler scripts, and databases that store
//! JSON documents.  The topology decides which node can address which, a
//! message bus carries traffic with a one-tick in-flight period, and a
//! verification pass checks each client's expectations once every client
//! has finished and no message remains in flight.

pub mod game_state;
pub mod json;
pub mod level;
pub mod message;
pub mod node;
pub mod simulation;
pub mod strutil;
