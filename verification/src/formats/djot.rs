//! Djot reading and writing, by the lightweight markup reader and writer.
use vstd::prelude::*;

use crate::ast::Document;
use crate::error::{EmitError, ParseError};
use crate::format::{Emitter, Parser};
use crate::formats::common::{ends_with_single_newline, finished, line_body, one_plain_line, plain_paragraph};
use crate::formats::lightweight::{blocks_text, emit_document, parse_document, Flavor};
use crate::text::chars_of;

verus! {

pub struct DjotParser;

impl Parser for DjotParser {
    fn parse(&self, input: &str) -> (r: Result<Document, ParseError>)
        ensures
            input@.len() == 0 ==> (r matches Ok(d) && d.children@.len() == 0),
            one_plain_line(input@) ==> (r matches Ok(d) && plain_paragraph(d.children@, line_body(input@))),
    {
        match parse_document(&chars_of(input), Flavor::Djot) {
            Ok(children) => Ok(Document { children }),
            Err(e) => Err(e),
        }
    }
}

pub struct DjotEmitter;

impl Emitter for DjotEmitter {
    fn emit(&self, doc: &Document) -> (r: Result<String, EmitError>)
        ensures
            r matches Ok(s) && s@ == finished(blocks_text(seq![], doc.children@, Flavor::Djot)),
            r matches Ok(s) && ends_with_single_newline(s@),
    {
        Ok(emit_document(&doc.children, Flavor::Djot))
    }
}

} // verus!
