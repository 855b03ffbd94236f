pub mod emitter;
pub mod parser;
pub mod escapes;

pub use emitter::LatexEmitter;
pub use parser::LatexParser;
