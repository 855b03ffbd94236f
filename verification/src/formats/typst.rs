pub mod emitter;
pub mod parser;

pub use emitter::TypstEmitter;
pub use parser::TypstParser;
