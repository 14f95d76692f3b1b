//! Canonical data contracts and deterministic binary encoding for a
//! multi-language component ecosystem: a canonical CBOR-profile encoder and
//! decoder, a schema fingerprinting algorithm, and a versioned envelope
//! protocol, together with the typed schema payloads that travel through them.

pub mod canon;
pub mod decode;
pub mod envelope;
pub mod fingerprint;
pub mod laws;
pub mod capabilities;
pub mod describe;
pub mod qa;
pub mod schema_ir;
pub mod wit_map;
pub mod wizard;
