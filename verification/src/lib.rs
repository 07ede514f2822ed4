//! Certificate Transparency (crt.sh) name discovery.
//!
//! The library asks a CT log for every name certified under a domain, and turns
//! the response into a clean list of host names, in order and each once.
//!
//! - [`url`] builds the queries, [`domain`] cleans the domain in them.
//! - [`json`] and [`names`] read a response, [`diagnosis`] words the error of
//!   one that cannot be read.
//! - [`fetch`] decides about attempts, sizes and results. It leaves the
//!   network to its caller.
//! - [`laws`] states what holds of the library as a whole.

pub mod diagnosis;
pub mod domain;
pub mod error;
pub mod fetch;
pub mod json;
pub mod laws;
pub mod names;
pub mod order;
pub mod text;
pub mod url;

pub use domain::clean_domain;
pub use error::CtError;
pub use fetch::{
    asks_apex, combine, is_retryable, read_response, Action, CtOptions, Discovery, Event, Query,
    Stage, Step, CT_MAX_RETRIES, CT_QUERY_TIMEOUT_SECS, CT_RESPONSE_MAX_BYTES, CT_RETRY_BACKOFF_MS,
    SERVICE_UNAVAILABLE,
};
pub use json::{name_value, Field, RowFault};
pub use names::{
    entry_hostnames, parse_crtsh_hostnames, parse_crtsh_subdomains, without_apex, CrtShEntry,
};
pub use text::{is_control, is_whitespace};
pub use url::{crtsh_apex_query_url, crtsh_query_url, discovery_urls};
