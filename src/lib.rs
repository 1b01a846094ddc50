//! Locates the failed, not-allowed-to-fail jobs below a CI parent pipeline.
//!
//! `pipeline_url` recognises pipeline web URLs and encodes project paths;
//! `traversal` builds the API requests and decides, response by response, what
//! to fetch and what to report.
pub mod pipeline_url;
pub mod traversal;
