pub mod emitter;
pub mod parser;

pub use emitter::RstEmitter;
pub use parser::RstParser;
