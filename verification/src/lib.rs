//! Verified core of a beacon-chain participation indexer.
//!
//! The library covers the ingestion-and-aggregation pipeline: decoding
//! attestation bitfields, planning the catch-up range of chain slots,
//! turning fetched attestation data into slot records, storing them, and
//! aggregating the stored records into a windowed participation rate.
//! Network access, persistence and the HTTP boundary are outside
//! collaborators; the logic that decides and computes lives here.

pub mod bitfield;
pub mod errors;
pub mod models;
pub mod participation;
pub mod pipeline;
pub mod store;
