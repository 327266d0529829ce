//! A parser for route patterns such as `/user/{id}/posts(/archived)`.
//!
//! A pattern is turned into an ordered sequence of [`RouteParserToken`]s:
//! separators, literal matches, captures and optional groups.  Every parsing
//! function is specified against a mathematical model of the grammar over the
//! pattern's characters (see [`model`]).
pub mod token;
pub mod model;
pub mod primitives;
pub mod path;
pub mod text;

pub use path::{parse_route, path_parser, section_matchers};
pub use primitives::{capture, capture_or_match, match_specific, valid_ident_characters};
pub use text::to_pattern;
pub use token::{CaptureOrMatch, CaptureVariant, Context, ErrorKind, ParseError, RouteParserToken};
