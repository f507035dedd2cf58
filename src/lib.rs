//! Recognises tags written inside HTML comments of a host document:
//! `{@name}` marks a provider region, `{=name}` a consumer region and
//! `{/name}` closes either, optionally followed by a pipeline of filters
//! with positional arguments.
//!
//! The lexer turns raw comment text into token groups and keeps those that
//! form a tag; the pattern engine decides which of the three tag grammars a
//! group matches; the range query locates any run of a group's tokens in the
//! source.

pub mod blocks;
pub mod error;
pub mod lexer;
pub mod lexer_laws;
pub mod patterns;
pub mod position;
pub mod tokens;

pub use blocks::BlockType;
pub use blocks::TransformerType;
pub use error::MdtError;
pub use error::MdtResult;
pub use lexer::memchr;
pub use lexer::memstr;
pub use lexer::lex_identifier;
pub use lexer::tokenize;
pub use lexer::HtmlNode;
pub use patterns::PatternMatcher;
pub use position::Point;
pub use position::Position;
pub use tokens::get_bounds_index;
pub use tokens::DynamicRange;
pub use tokens::GetDynamicRange;
pub use tokens::RangeBound;
pub use tokens::Token;
pub use tokens::TokenGroup;
pub use tokens::TokenView;
