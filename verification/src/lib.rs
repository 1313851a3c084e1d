//! OAuth 1.0a request signing and a photo-mirroring pipeline.
//!
//! The crate builds canonical signature base strings, signs them with
//! HMAC-SHA1, drives the three-step authorization flow, normalizes the
//! provider's photo listings, and plans the idempotent mirroring of the
//! listed photos to a local store.

pub mod encoding;
pub mod error;
pub mod flickr;
pub mod mirror;
pub mod numbers;
pub mod signature;
pub mod token_store;
pub mod weather;

pub use encoding::escape;
pub use error::{FlickrError, WallflowerError};
