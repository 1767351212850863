//! Verified core of a desktop browser for S3-compatible object storage:
//! connection profiles, normalisation of listing responses, and the
//! credentials-file reader.
pub mod gateway;
pub mod profile;
pub mod credentials;
mod text;
