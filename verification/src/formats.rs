pub mod asciidoc;
pub mod docbook;
pub mod common;
pub mod djot;
pub mod html;
pub mod latex;
pub mod lightweight;
pub mod markdown;
pub mod model;
pub mod org;
pub mod rst;
pub mod strict_xml;
pub mod textile;
pub mod typst;
