//! Classification of email domains against an embedded Government of Canada
//! domain dataset, together with the verified logic of the dataset compiler,
//! the command-line argument parser and the HTTP routing decisions.

pub mod text;
pub mod external;
pub mod email;
pub mod dataset;
pub mod classify;
pub mod laws;
pub mod compiler;
pub mod http;
pub mod cli;

pub use classify::{classify_email, Classification, MatchType, Organization};
pub use dataset::DomainRule;
pub use email::ValidationError;
