//! Error taxonomy of the crate.
//!
//! Transport, protocol, decode, I/O and encoding failures are distinct
//! variants; a carried message (rendered by the caller from whatever
//! failed) travels as plain text.

use vstd::prelude::*;

verus! {

/// Errors of the photo-provider client: authentication, transport,
/// decoding and URL handling.
#[derive(Debug, Clone, PartialEq, Eq)]
pub enum FlickrError {
    /// The provider rejected the request, or its response was missing
    /// the fields the authorization flow needs.
    AuthenticationError,
    /// A JSON body could not be decoded.
    JsonError(String),
    /// A local read or write failed.
    IoError(String),
    /// The provider could not be reached.
    HttpError(String),
    /// A URL could not be parsed.
    UrlError(String),
    /// A numeric field could not be parsed.
    ParseError(String),
}

/// Errors of the whole mirroring application.
#[derive(Debug, Clone, PartialEq, Eq)]
pub enum WallflowerError {
    /// A local read or write failed, or a photo URL had no usable
    /// file name.
    IoError(String),
    /// A download or listing request failed in transport.
    HttpError(String),
    /// Bytes that had to be UTF-8 were not.
    ParseError(String),
    /// A provider-client error, carried through unchanged.
    FlickrError(FlickrError),
    /// A JSON body could not be decoded.
    JsonError(String),
    /// An image could not be loaded for display.
    GraphicsError,
}

impl core::convert::From<FlickrError> for WallflowerError {
    fn from(err: FlickrError) -> (r: WallflowerError) {
        WallflowerError::FlickrError(err)
    }
}

impl vstd::std_specs::convert::FromSpecImpl<FlickrError> for WallflowerError {
    open spec fn obeys_from_spec() -> bool {
        true
    }

    open spec fn from_spec(err: FlickrError) -> WallflowerError {
        WallflowerError::FlickrError(err)
    }
}

} // verus!
