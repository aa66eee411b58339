//! Builds a route-origin-authorization dataset from a routing registry's
//! route objects, under an ordered allow/deny filter policy keyed by
//! address range.

pub mod cidr;
pub mod dataset;
pub mod filter;
pub mod reconcile;
pub mod record;
pub mod text;

pub use cidr::Cidr;
pub use cidr::IpAddress;
pub use cidr::parse_ipv4;
pub use cidr::parse_ipv6;
pub use dataset::Dataset;
pub use dataset::Metadata;
pub use dataset::WEEK_SECONDS;
pub use dataset::assemble;
pub use dataset::build_dataset;
pub use dataset::process_batch;
pub use filter::FilterRule;
pub use filter::Resolution;
pub use filter::add_filter_rules;
pub use filter::parse_filter_line;
pub use filter::resolve;
pub use reconcile::Roa;
pub use reconcile::clamp_length;
pub use reconcile::process_record;
pub use reconcile::reconcile;
pub use record::RecordError;
pub use record::RouteRecord;
pub use record::parse_record;
pub use text::lower_bytes;
pub use text::parse_u8;
pub use text::split_bytes;
pub use text::tokenize;
pub use text::upper_bytes;
