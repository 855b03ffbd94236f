//! The command line: what the arguments ask for, which formats a conversion
//! uses, and the texts the program prints.
use vstd::prelude::*;

use crate::format::{named_format, Format};
use crate::text::{chars_of, push_str, string_of};

verus! {

/// What a command line asks for.
#[derive(Debug)]
pub enum CliCommand {
    Help,
    Version,
    Convert(Invocation),
}

/// A conversion as the command line describes it: the formats named with
/// `--from` and `--to`, and the positional arguments (input and output
/// paths).
#[derive(Debug)]
pub struct Invocation {
    pub from: Option<Format>,
    pub to: Option<Format>,
    pub positional: Vec<String>,
}

/// What reading the arguments from index `i` on gives, with the formats and
/// positional arguments gathered before `i`.
pub enum ArgsOutcome {
    Help,
    Version,
    Run { from: Option<Format>, to: Option<Format>, positional: Seq<Seq<char>> },
    Refused(Seq<char>),
}

/// An argument that names an option: it starts with `-` and is not `-`
/// alone (which stands for standard input).
pub open spec fn is_option(a: Seq<char>) -> bool {
    a.len() > 0 && a[0] == '-' && a != "-"@
}

/// The format given after an option at index `i`, and what the rest of the
/// arguments give after it.
pub open spec fn option_value(args: Seq<Seq<char>>, i: int, missing: Seq<char>) -> Option<
    Result<Format, Seq<char>>,
> {
    if i + 1 >= args.len() {
        Some(Err(missing))
    } else {
        match named_format(args[i + 1]) {
            Some(f) => Some(Ok(f)),
            None => Some(Err("Unknown format: "@ + args[i + 1])),
        }
    }
}

/// The arguments read from index `i` on, left to right: `--help` and
/// `--version` end the reading, `--from` and `--to` take the next argument
/// as a format name, an unknown option refuses the line, and anything else is
/// a positional argument; at the end, more than two positional arguments
/// refuse the line.
pub open spec fn read_args(
    args: Seq<Seq<char>>,
    i: int,
    from: Option<Format>,
    to: Option<Format>,
    positional: Seq<Seq<char>>,
) -> ArgsOutcome
    decreases args.len() - i,
{
    if i < 0 || i >= args.len() {
        if positional.len() > 2 {
            ArgsOutcome::Refused(
                "Unexpected argument: "@ + positional[2]
                    + ". Expected at most <input> and <output>."@,
            )
        } else {
            ArgsOutcome::Run { from, to, positional }
        }
    } else {
        let a = args[i];
        if a == "--help"@ || a == "-h"@ {
            ArgsOutcome::Help
        } else if a == "--version"@ || a == "-V"@ {
            ArgsOutcome::Version
        } else if a == "--from"@ || a == "-f"@ {
            match option_value(args, i, "--from requires a value"@) {
                Some(Ok(f)) => read_args(args, i + 2, Some(f), to, positional),
                Some(Err(m)) => ArgsOutcome::Refused(m),
                None => ArgsOutcome::Refused(seq![]),
            }
        } else if a == "--to"@ || a == "-t"@ {
            match option_value(args, i, "--to requires a value"@) {
                Some(Ok(f)) => read_args(args, i + 2, from, Some(f), positional),
                Some(Err(m)) => ArgsOutcome::Refused(m),
                None => ArgsOutcome::Refused(seq![]),
            }
        } else if is_option(a) {
            ArgsOutcome::Refused("Unknown option: "@ + a + ". See --help for usage."@)
        } else {
            read_args(args, i + 1, from, to, positional.push(a))
        }
    }
}

/// The views of a list of arguments.
pub open spec fn arg_views(v: Seq<String>) -> Seq<Seq<char>> {
    v.map_values(|s: String| s@)
}

/// Whether `a` is one of the two spellings given.
fn is_either(a: &Vec<char>, long: &str, short: &str) -> (b: bool)
    ensures
        b == (a@ == long@ || a@ == short@),
{
    crate::text::eq_lit(a, long) || crate::text::eq_lit(a, short)
}

/// Reads the arguments after the program name. It gives `Help` or `Version`
/// as soon as it meets `--help`/`-h` or `--version`/`-V`, and an error
/// message for a missing or unknown format, an unknown option, or more than
/// two positional arguments.
pub fn parse_args(args: &Vec<String>) -> (r: Result<CliCommand, String>)
    ensures
        match read_args(arg_views(args@), 0, None, None, seq![]) {
            ArgsOutcome::Help => r matches Ok(CliCommand::Help),
            ArgsOutcome::Version => r matches Ok(CliCommand::Version),
            ArgsOutcome::Run { from, to, positional } => r matches Ok(CliCommand::Convert(inv))
                && inv.from == from && inv.to == to && arg_views(inv.positional@) == positional,
            ArgsOutcome::Refused(m) => r matches Err(e) && e@ == m,
        },
{
    let ghost views = arg_views(args@);
    let mut from: Option<Format> = None;
    let mut to: Option<Format> = None;
    let mut positional: Vec<String> = Vec::new();
    let mut i: usize = 0;
    assert(arg_views(positional@) =~= seq![]);
    while i < args.len()
        invariant
            i <= args.len(),
            views == arg_views(args@),
            read_args(views, 0, None, None, seq![]) == read_args(
                views,
                i as int,
                from,
                to,
                arg_views(positional@),
            ),
        decreases args.len() - i,
    {
        let a = chars_of(args[i].as_str());
        assert(views[i as int] == a@);
        if is_either(&a, "--help", "-h") {
            return Ok(CliCommand::Help);
        } else if is_either(&a, "--version", "-V") {
            return Ok(CliCommand::Version);
        } else if is_either(&a, "--from", "-f") || is_either(&a, "--to", "-t") {
            let is_from = is_either(&a, "--from", "-f");
            if i + 1 >= args.len() {
                let m = if is_from {
                    "--from requires a value"
                } else {
                    "--to requires a value"
                };
                return Err(m.to_owned());
            }
            let value = &args[i + 1];
            assert(views[i + 1] == value@);
            match Format::from_name(value.as_str()) {
                None => {
                    let mut m: Vec<char> = Vec::new();
                    push_str(&mut m, "Unknown format: ");
                    push_str(&mut m, value.as_str());
                    return Err(string_of(&m));
                },
                Some(f) => {
                    if is_from {
                        from = Some(f);
                    } else {
                        to = Some(f);
                    }
                },
            }
            i += 2;
        } else {
            if a.len() > 0 && a[0] == '-' && !crate::text::eq_lit(&a, "-") {
                let mut m: Vec<char> = Vec::new();
                push_str(&mut m, "Unknown option: ");
                push_str(&mut m, args[i].as_str());
                push_str(&mut m, ". See --help for usage.");
                return Err(string_of(&m));
            }
            let ghost before = arg_views(positional@);
            positional.push(args[i].clone());
            proof {
                assert(arg_views(positional@) =~= before.push(a@));
            }
            i += 1;
        }
    }
    if positional.len() > 2 {
        let mut m: Vec<char> = Vec::new();
        push_str(&mut m, "Unexpected argument: ");
        push_str(&mut m, positional[2].as_str());
        push_str(&mut m, ". Expected at most <input> and <output>.");
        return Err(string_of(&m));
    }
    Ok(CliCommand::Convert(Invocation { from, to, positional }))
}

/// The format given, or else the one that `extension` stands for.
pub open spec fn chosen_format(given: Option<Format>, extension: Option<Seq<char>>) -> Option<
    Format,
> {
    match given {
        Some(f) => Some(f),
        None => match extension {
            Some(e) => named_format(e),
            None => None,
        },
    }
}

/// The format given, or else the one that the file extension names.
fn choose_format(given: Option<Format>, extension: Option<&str>) -> (r: Option<Format>)
    ensures
        r == chosen_format(
            given,
            match extension {
                Some(e) => Some(e@),
                None => None,
            },
        ),
{
    match given {
        Some(f) => Some(f),
        None => match extension {
            Some(e) => Format::from_extension(e),
            None => None,
        },
    }
}

/// The input format: the one given with `--from`, or else the one the input
/// file's extension names (`None` when reading standard input).
pub fn input_format(given: Option<Format>, extension: Option<&str>) -> (r: Result<Format, String>)
    ensures
        match chosen_format(
            given,
            match extension {
                Some(e) => Some(e@),
                None => None,
            },
        ) {
            Some(f) => r matches Ok(g) && g == f,
            None => r matches Err(m) && m@ == "Cannot determine input format. Use --from to specify."@,
        },
{
    match choose_format(given, extension) {
        Some(f) => Ok(f),
        None => Err("Cannot determine input format. Use --from to specify.".to_owned()),
    }
}

/// The output format: the one given with `--to`, or else the one the output
/// file's extension names (`None` when writing standard output).
pub fn output_format(given: Option<Format>, extension: Option<&str>) -> (r: Result<Format, String>)
    ensures
        match chosen_format(
            given,
            match extension {
                Some(e) => Some(e@),
                None => None,
            },
        ) {
            Some(f) => r matches Ok(g) && g == f,
            None => r matches Err(m) && m@ == "Cannot determine output format. Use --to to specify."@,
        },
{
    match choose_format(given, extension) {
        Some(f) => Ok(f),
        None => Err("Cannot determine output format. Use --to to specify.".to_owned()),
    }
}

/// What `--version` prints: the program's name and version.
pub fn version_text(version: &str) -> (r: String)
    ensures
        r@ == "morph "@ + version@,
{
    let mut m: Vec<char> = Vec::new();
    push_str(&mut m, "morph ");
    push_str(&mut m, version);
    string_of(&m)
}

/// The usage text that follows the program's name and version in `--help`.
pub const HELP_BODY: &'static str = " - universal markup converter

Usage:
  morph <input> <output>          Convert file (formats from extensions)
  morph <input> --to <fmt>        Convert file to stdout
  morph --from <fmt> --to <fmt>   Convert stdin to stdout

Formats:
  md, markdown      Markdown
  adoc, asciidoc    AsciiDoc
  rst               reStructuredText
  typ, typst        Typst
  tex, latex        LaTeX
  dj, djot          Djot
  org, org-mode     Org mode
  textile           Textile
  html, htm         strict HTML
  dbk, docbook      strict DocBook

Options:
  -f, --from <fmt>  Input format (overrides extension detection)
  -t, --to <fmt>    Output format (overrides extension detection)
  -h, --help        Show this help
  -V, --version     Show version";

/// What `--help` prints.
pub fn help_text(version: &str) -> (r: String)
    ensures
        r@ == "morph "@ + version@ + HELP_BODY@,
{
    let mut m: Vec<char> = Vec::new();
    push_str(&mut m, "morph ");
    push_str(&mut m, version);
    push_str(&mut m, HELP_BODY);
    string_of(&m)
}

/// How an I/O failure is reported: with the path concerned where there is
/// one, and the system's description of the failure.
pub fn io_error_message(path: Option<&str>, detail: &str) -> (r: String)
    ensures
        match path {
            Some(p) => r@ == "I/O error on '"@ + p@ + "': "@ + detail@,
            None => r@ == "I/O error: "@ + detail@,
        },
{
    let mut m: Vec<char> = Vec::new();
    match path {
        Some(p) => {
            push_str(&mut m, "I/O error on '");
            push_str(&mut m, p);
            push_str(&mut m, "': ");
        },
        None => push_str(&mut m, "I/O error: "),
    }
    push_str(&mut m, detail);
    string_of(&m)
}

} // verus!
