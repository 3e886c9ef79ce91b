//! Packet transport for printable ASCII text over a strict wire alphabet.
//!
//! Text is checked to be printable ASCII, its `~` and spaces are escaped (`~~`, `~s`), and the
//! result is carried as unpadded base64url, so that every packet matches
//! `^[A-Za-z0-9_-]+$` (empty text is refused). Decoding checks the wire alphabet, decodes, and reverses the escaping.
//! A fixed-window rate limiter charges every packet call by its characters; there is no cap on
//! the size of one request, which is admitted whenever its window holds no charge yet.

use vstd::prelude::*;

pub mod base64url;
pub mod concurrent;
pub mod pipeline;
pub mod search;
pub mod validation;

pub use concurrent::{ConcurrentPipeline, PipelineConfig};
pub use pipeline::{decode_packet, encode_packet, PipelineError, RateLimiter};
pub use validation::{validate_wire_format, ValidationError};

verus! {
} // verus!
