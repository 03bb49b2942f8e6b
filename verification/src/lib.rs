//! A verified URL engine: parsing, normalization, decomposition, reference
//! resolution (join) and relativization (make_relative), following the
//! WHATWG URL model. All operations are pure functions over byte strings.

pub mod api;
pub mod ascii;
pub mod join;
pub mod model;
pub mod parse;
pub mod percent;
pub mod proj;
pub mod relative;
pub mod roundtrip;
pub mod scan;
pub mod utf8;

pub use api::{debug_repr, join, make_relative, parse_display_fmt, parse_str, supplementary_repr, UrlRepr, UrlReprSupplementary};
pub use model::{ParseReason, TypstError, Url, UrlPath};
pub use parse::parse_url;
