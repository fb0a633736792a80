//! Building blocks for replicated application state: an ordered key/value
//! store, a canonical byte encoding whose order matches the order of the
//! encoded values, a persistence lifecycle for state nodes, and the routing of
//! encoded calls into nested state.
pub mod error;
pub mod order;
pub mod ints;
pub mod encoding;
pub mod text;
pub mod sorted;
pub mod store;
pub mod call;
pub mod query;
pub mod state;
pub mod collections;
pub mod ibc;
pub mod plugins;
pub mod validator;
