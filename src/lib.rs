//! Certification path discovery for X.509 certificates.
//!
//! The library holds the verified search engine: the certificate model with
//! its identity digest, a deduplicating issuer-indexed store, the search
//! frontier with parent links and a visited set, and the decisions of the
//! breadth-first search. Network fetches, clocks and the trust decision are
//! performed by the caller, which feeds their outcomes back to the engine.
pub mod certificate;
pub mod edge;
pub mod find;
pub mod report;
pub mod store;
