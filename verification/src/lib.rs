//! A resumable breadth-first web crawler library.
//!
//! The crate verifies the crawl core: the URL normalizer that turns raw
//! `href` attributes into absolute URLs, the frontier / visited-set state
//! with its no-duplicate discipline, the page-processing step that feeds
//! newly discovered links back into the frontier, and the checkpoint codec
//! that persists and restores the crawl state. Network transport and the
//! surrounding command-line program live outside the library.

pub mod codec;
pub mod drain;
pub mod norm;
pub mod process;
pub mod shutdown;
pub mod state;
