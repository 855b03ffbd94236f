pub mod emitter;
pub mod parser;

pub use emitter::AsciiDocEmitter;
pub use parser::AsciiDocParser;
