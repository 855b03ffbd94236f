pub mod emitter;
pub mod parser;

pub use emitter::DocBookEmitter;
pub use parser::DocBookParser;
