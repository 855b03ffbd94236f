//! The supported markup formats and the parser and emitter interfaces.
use vstd::prelude::*;

use crate::ast::Document;
use crate::error::{EmitError, ParseError};
use crate::std_calls::to_lowercase;
use crate::text::{chars_of, chars_of_string, eq_lit};

verus! {

#[derive(Debug, Clone, Copy, PartialEq, Eq, Structural)]
pub enum Format {
    Markdown,
    AsciiDoc,
    Rst,
    Typst,
    Latex,
    Djot,
    Org,
    Textile,
    Html,
    DocBook,
}

/// The short identifier of each format.
pub open spec fn id_spec(f: Format) -> Seq<char> {
    match f {
        Format::Markdown => "md"@,
        Format::AsciiDoc => "adoc"@,
        Format::Rst => "rst"@,
        Format::Typst => "typ"@,
        Format::Latex => "tex"@,
        Format::Djot => "dj"@,
        Format::Org => "org"@,
        Format::Textile => "textile"@,
        Format::Html => "html"@,
        Format::DocBook => "dbk"@,
    }
}

/// The human-readable name of each format.
pub open spec fn name_spec(f: Format) -> Seq<char> {
    match f {
        Format::Markdown => "Markdown"@,
        Format::AsciiDoc => "AsciiDoc"@,
        Format::Rst => "reStructuredText"@,
        Format::Typst => "Typst"@,
        Format::Latex => "LaTeX"@,
        Format::Djot => "Djot"@,
        Format::Org => "Org mode"@,
        Format::Textile => "Textile"@,
        Format::Html => "HTML"@,
        Format::DocBook => "DocBook"@,
    }
}

/// The format that a lowercase name or extension stands for.
pub open spec fn format_of_lowercase(s: Seq<char>) -> Option<Format> {
    if s == "md"@ || s == "markdown"@ {
        Some(Format::Markdown)
    } else if s == "adoc"@ || s == "asciidoc"@ || s == "asc"@ {
        Some(Format::AsciiDoc)
    } else if s == "rst"@ || s == "restructuredtext"@ {
        Some(Format::Rst)
    } else if s == "typ"@ || s == "typst"@ {
        Some(Format::Typst)
    } else if s == "tex"@ || s == "latex"@ {
        Some(Format::Latex)
    } else if s == "dj"@ || s == "djot"@ {
        Some(Format::Djot)
    } else if s == "org"@ || s == "orgmode"@ || s == "org-mode"@ {
        Some(Format::Org)
    } else if s == "textile"@ {
        Some(Format::Textile)
    } else if s == "html"@ || s == "htm"@ {
        Some(Format::Html)
    } else if s == "dbk"@ || s == "docbook"@ {
        Some(Format::DocBook)
    } else {
        None
    }
}

/// The format a name stands for, compared without regard to case.
pub open spec fn named_format(name: Seq<char>) -> Option<Format> {
    format_of_lowercase(crate::std_calls::lowercase(name))
}

/// Every supported format, in listing order.
pub open spec fn all_spec() -> Seq<Format> {
    seq![
        Format::Markdown,
        Format::AsciiDoc,
        Format::Rst,
        Format::Typst,
        Format::Latex,
        Format::Djot,
        Format::Org,
        Format::Textile,
        Format::Html,
        Format::DocBook,
    ]
}

impl Format {
    /// Every supported format: Markdown, AsciiDoc, reStructuredText, Typst,
    /// LaTeX, Djot, Org, Textile, HTML and DocBook, in that order.
    pub fn all() -> (v: Vec<Format>)
        ensures
            v@ == all_spec(),
    {
        let mut v = Vec::new();
        v.push(Format::Markdown);
        v.push(Format::AsciiDoc);
        v.push(Format::Rst);
        v.push(Format::Typst);
        v.push(Format::Latex);
        v.push(Format::Djot);
        v.push(Format::Org);
        v.push(Format::Textile);
        v.push(Format::Html);
        v.push(Format::DocBook);
        v
    }

    /// Short identifier used in the command line and the web API (e.g. "md", "adoc").
    pub fn id(&self) -> (r: &'static str)
        ensures
            r@ == id_spec(*self),
    {
        match self {
            Format::Markdown => "md",
            Format::AsciiDoc => "adoc",
            Format::Rst => "rst",
            Format::Typst => "typ",
            Format::Latex => "tex",
            Format::Djot => "dj",
            Format::Org => "org",
            Format::Textile => "textile",
            Format::Html => "html",
            Format::DocBook => "dbk",
        }
    }

    /// Human-readable name (e.g. "Markdown", "reStructuredText").
    pub fn name(&self) -> (r: &'static str)
        ensures
            r@ == name_spec(*self),
    {
        match self {
            Format::Markdown => "Markdown",
            Format::AsciiDoc => "AsciiDoc",
            Format::Rst => "reStructuredText",
            Format::Typst => "Typst",
            Format::Latex => "LaTeX",
            Format::Djot => "Djot",
            Format::Org => "Org mode",
            Format::Textile => "Textile",
            Format::Html => "HTML",
            Format::DocBook => "DocBook",
        }
    }

    /// The format that an already lowercased name or extension stands for.
    pub(crate) fn from_lowercase_name(name: &str) -> (r: Option<Format>)
        ensures
            r == format_of_lowercase(name@),
    {
        let s = chars_of(name);
        if eq_lit(&s, "md") || eq_lit(&s, "markdown") {
            Some(Format::Markdown)
        } else if eq_lit(&s, "adoc") || eq_lit(&s, "asciidoc") || eq_lit(&s, "asc") {
            Some(Format::AsciiDoc)
        } else if eq_lit(&s, "rst") || eq_lit(&s, "restructuredtext") {
            Some(Format::Rst)
        } else if eq_lit(&s, "typ") || eq_lit(&s, "typst") {
            Some(Format::Typst)
        } else if eq_lit(&s, "tex") || eq_lit(&s, "latex") {
            Some(Format::Latex)
        } else if eq_lit(&s, "dj") || eq_lit(&s, "djot") {
            Some(Format::Djot)
        } else if eq_lit(&s, "org") || eq_lit(&s, "orgmode") || eq_lit(&s, "org-mode") {
            Some(Format::Org)
        } else if eq_lit(&s, "textile") {
            Some(Format::Textile)
        } else if eq_lit(&s, "html") || eq_lit(&s, "htm") {
            Some(Format::Html)
        } else if eq_lit(&s, "dbk") || eq_lit(&s, "docbook") {
            Some(Format::DocBook)
        } else {
            None
        }
    }

    /// The format that a file extension stands for; the same as `from_name`.
    pub fn from_extension(ext: &str) -> (r: Option<Format>)
        ensures
            r == format_of_lowercase(crate::std_calls::lowercase(ext@)),
    {
        Self::from_name(ext)
    }

    /// The format that a name stands for, compared without regard to case.
    pub fn from_name(name: &str) -> (r: Option<Format>)
        ensures
            r == format_of_lowercase(crate::std_calls::lowercase(name@)),
    {
        let lower = to_lowercase(name);
        Self::from_lowercase_name(lower.as_str())
    }
}

/// A format's identifier names that format.
pub proof fn law_id_names_its_format(f: Format)
    ensures
        format_of_lowercase(id_spec(f)) == Some(f),
{
    reveal_strlit("md");
    reveal_strlit("markdown");
    reveal_strlit("adoc");
    reveal_strlit("asciidoc");
    reveal_strlit("asc");
    reveal_strlit("rst");
    reveal_strlit("restructuredtext");
    reveal_strlit("typ");
    reveal_strlit("typst");
    reveal_strlit("tex");
    reveal_strlit("latex");
    reveal_strlit("dj");
    reveal_strlit("djot");
    reveal_strlit("org");
    reveal_strlit("orgmode");
    reveal_strlit("org-mode");
    reveal_strlit("textile");
    reveal_strlit("html");
    reveal_strlit("htm");
    reveal_strlit("dbk");
    reveal_strlit("docbook");
    let s = id_spec(f);
    assert(s.len() > 0);
    match f {
        Format::Markdown => {},
        Format::AsciiDoc => {
            assert(s[0] == 'a');
        },
        Format::Rst => {
            assert(s[0] == 'r');
        },
        Format::Typst => {
            assert(s[0] == 't');
        },
        Format::Latex => {
            assert(s[0] == 't' && s[1] == 'e');
        },
        Format::Djot => {
            assert(s[0] == 'd' && s[1] == 'j');
        },
        Format::Org => {
            assert(s[0] == 'o');
        },
        Format::Textile => {
            assert(s[0] == 't' && s.len() == 7);
        },
        Format::Html => {
            assert(s[0] == 'h');
        },
        Format::DocBook => {
            assert(s[0] == 'd' && s[1] == 'b');
        },
    }
}

/// Parsing a markup text into a document.
pub trait Parser {
    fn parse(&self, input: &str) -> Result<Document, ParseError>;
}

/// Writing a document as markup text.
pub trait Emitter {
    fn emit(&self, doc: &Document) -> Result<String, EmitError>;
}

} // verus!
