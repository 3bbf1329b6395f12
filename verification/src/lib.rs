//! The logic of a PDF reader, verified.
//!
//! - [`navigation`]: spreads of facing pages, their display order, moving
//!   between them, and the pages worth rendering ahead.
//! - [`enhance`]: gray images, histograms and percentiles, contrast
//!   stretching, thresholding, and the level analysis of automatic levelling.
//! - [`cache`]: the rendering width for a displayed width, and which cached
//!   renderings to drop.
//! - [`worker`]: which requests the rendering thread carries out.
//! - [`toc`]: the bookmark tree flattened into a table of contents.
//! - [`recent`]: the list of recently opened files and its text format.
//! - [`file_url`]: `file://` URLs and percent-decoding.
//! - [`pending`]: files handed over by the desktop, waiting to be opened.

pub mod cache;
pub mod enhance;
pub mod file_url;
pub mod navigation;
pub mod pending;
pub mod recent;
pub mod toc;
pub mod worker;
