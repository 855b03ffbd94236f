pub mod emitter;
pub mod parser;
pub mod reading;

pub use emitter::MarkdownEmitter;
pub use parser::{parse_inlines, MarkdownParser};
