//! Recovery of the signing secret of an HS256 token by dictionary search.
//!
//! The crate is organised leaves first:
//!
//! * [`error`] names what can keep a run from starting;
//! * [`mac`] computes and compares HMAC-SHA256 signatures;
//! * [`encoding`] decodes the unpadded URL-safe base64 of a token's segments;
//! * [`token`] splits a compact token and validates its header;
//! * [`machine`] is the mathematical model of the candidate dispatcher, with
//!   the laws that hold on every schedule of its workers;
//! * [`dispatcher`] is the executable dispatcher, a refinement of that model;
//! * [`search`] runs a dispatcher to its end on the calling thread.
pub mod dispatcher;
pub mod encoding;
pub mod error;
pub mod mac;
pub mod machine;
pub mod search;
pub mod token;
