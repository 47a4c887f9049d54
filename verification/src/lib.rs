//! The verified core of dyndo, a dynamic media packager: WebVTT parsing,
//! subtitle fragmentation and its inverse, the reading of packed subtitle
//! segments, media-time arithmetic, segment ranges and routes, request
//! options, safe path resolution and codec naming.

pub mod subtitle;
pub mod charseq;
pub mod vtt;
pub mod timeline;
pub mod fragmenter;
pub mod roundtrip;
pub mod reading;
pub mod sampling;
pub mod time;
pub mod codec;
pub mod packaging;
pub mod error;
pub mod paths;
pub mod routing;
pub mod cmaf;
pub mod command;
pub mod options;
pub mod media;
pub mod tiling;
pub mod demuxer;
pub mod filter;
pub mod muxer;
