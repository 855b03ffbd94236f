pub mod emitter;
pub mod parser;

pub use emitter::HtmlEmitter;
pub use parser::HtmlParser;
