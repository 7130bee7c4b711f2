//! Splitting of text with fenced code blocks into byte spans.
//!
//! A text is cut at the markers of its fenced blocks (three backticks, an
//! optional language tag, a line feed, the body, three backticks). The body of
//! a block whose tag names a configured language with a lexer is cut further,
//! at the boundaries of its tokens. The spans that come out follow one another
//! without gap or overlap and cover the whole text.

pub mod fence;
pub mod language;
pub mod lexer;
pub mod python;
pub mod span;
pub mod text;

pub use language::default_languages;
pub use lexer::{CodeLexer, Notice, NoticeKind};
pub use span::Span;
