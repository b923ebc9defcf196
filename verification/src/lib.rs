//! Client-side support library for a remote text- and voice-generation HTTP
//! API.  The heart of the crate is the verified text segmenter in [`api`]:
//! it splits free-form text into segments that each fit the per-request
//! ceiling of the voice-synthesis endpoint.  [`model`] holds the plain data
//! types shared with the request-building layer.

pub mod api;
pub mod model;
pub mod segment;
