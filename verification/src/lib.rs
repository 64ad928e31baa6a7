//! Dependency-graph engine of a task manager: the graph index, the outline
//! compiler, batch validation, commit planning and completion propagation,
//! with the rules on accounts, invitations and searches that sit around them.
//!
//! Nothing here touches a store or a network: every function decides on plain
//! values that the caller hands in, and hands plain values back.

pub mod accept;
pub mod account;
pub mod acyclicity;
pub mod chains;
pub mod clock;
pub mod closure;
pub mod commit;
pub mod cycle;
pub mod delete;
pub mod email;
pub mod exec;
pub mod graph;
pub mod invite;
pub mod outline;
pub mod rejection;
pub mod request;
pub mod rewiring;
pub mod search;
pub mod sequences;
pub mod star;
pub mod store;
pub mod text;
