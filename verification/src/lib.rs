//! X.509 certificate path discovery.
//!
//! Given a target (end-entity) certificate and a set of trust anchors, the
//! finder engine searches the graph of issuer relationships — seeded from a
//! certificate store and optionally augmented on demand through the Authority
//! Information Access (AIA) extension — for a chain that a pluggable path
//! validator accepts.

pub mod aia;
pub mod certificate;
pub mod clock;
pub mod codec;
pub mod edge;
pub mod find;
pub mod report;
pub mod store;
pub mod validator;
