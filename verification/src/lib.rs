//! Client-side core of a continuous profiling data pipeline.
//!
//! The library aggregates profiling samples into a deduplicated in-memory
//! model, serializes that model into the binary pprof wire format, and
//! provides the pure decision logic of a multi-transport connector, plus
//! tag parsing and a socket-path/URI codec.

pub mod api;
pub mod clock;
pub mod connector;
pub mod errors;
pub mod indexed;
pub mod pprof;
pub mod profile;
pub mod tag;

pub use connector::{CallDecision, MaybeHttpsConnector, TransportKind, UriParts};
pub use errors::Error;
pub use profile::{EncodedProfile, FullError, PProfId, Profile, ProfileBuilder, ProfileModel, ValueType};
pub use tag::{parse_tag_chunk, parse_tags, Tag};

