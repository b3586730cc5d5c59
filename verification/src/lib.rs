//! A node of a message-passing cluster that keeps a replicated set of values.
//!
//! Requests arrive as envelopes, the node updates its state and answers with
//! envelopes of its own. The broadcast node floods every value it learns to
//! its neighbours and repeats each send until the neighbour acknowledges it.
//!
//! - [`node`] and [`payload`] hold the envelope and what it can say;
//!   [`wire`] says how an envelope is written as JSON, [`encode`] and
//!   [`decode`] do it, [`roundtrip`] proves that reading undoes writing,
//!   and [`codec`] goes on to text, which [`value`] has `serde_json` read
//!   and write.
//! - [`model`] is the broadcast node as a state machine and [`broadcast`] the
//!   node itself; [`validity`] and [`laws`] prove what holds of one node,
//!   [`cluster`] and [`convergence`] what holds of many.
//! - [`echo`] and [`g_counter`] are the two small nodes.

pub mod broadcast;
pub mod cluster;
pub mod codec;
pub mod convergence;
pub mod decode;
pub mod echo;
pub mod encode;
pub mod error;
pub mod g_counter;
pub mod ident;
pub mod ids;
pub mod json;
pub mod laws;
pub mod model;
pub mod node;
pub mod payload;
pub mod roundtrip;
pub mod validity;
pub mod value;
pub mod wire;
