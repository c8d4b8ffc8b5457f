//! The resolved configuration of one run, and how it follows from the
//! options that were given on the command line.

use vstd::prelude::*;
use crate::strings::push_char;

verus! {

/// How each matched node is written out. Exactly one format is active in a
/// run.
#[derive(Debug, Clone)]
pub enum OutputFormat {
    /// The node and its subtree as HTML.
    Pass,
    /// The text of the node's subtree.
    TextOnly,
    /// The node and its subtree as indented HTML.
    PrettyPrint,
    /// The values of the named attributes of the node, in this order.
    Attributes(Vec<String>),
}

/// The configuration of one run.
#[derive(Debug, Clone)]
pub struct Config {
    pub input_path: String,
    pub output_path: String,
    pub selector: String,
    pub base: Option<String>,
    pub detect_base: bool,
    pub output_format: OutputFormat,
    pub ignore_whitespace: bool,
    pub remove_nodes: Option<Vec<String>>,
}

/// What the command line held, option by option: the value of an option that
/// takes one, the values of an option that may be repeated, and for a flag
/// whether it was present.
#[derive(Debug, Clone)]
pub struct Matches {
    pub filename: Option<String>,
    pub output: Option<String>,
    pub pretty_print: bool,
    pub text_only: bool,
    pub ignore_whitespace: bool,
    pub attribute: Option<Vec<String>>,
    pub base: Option<String>,
    pub detect_base: bool,
    pub remove_nodes: Option<Vec<String>>,
    pub selector: Option<Vec<String>>,
}

/// The tokens of a selector joined with single spaces.
pub open spec fn joined_tokens(tokens: Seq<String>) -> Seq<char>
    decreases tokens.len(),
{
    if tokens.len() == 0 {
        Seq::empty()
    } else if tokens.len() == 1 {
        tokens[0]@
    } else {
        joined_tokens(tokens.drop_last()).push(' ') + tokens.last()@
    }
}

/// The path that stands for an option that names a file: the value given,
/// or `-` for the standard stream.
pub open spec fn is_path_for(path: String, given: Option<String>) -> bool {
    match given {
        Some(p) => path == p,
        None => path@ == "-"@,
    }
}

/// What is wrong with a set of options.
#[derive(Debug, Clone, Copy, PartialEq, Eq)]
pub enum ConfigError {
    /// More than one output format is named.
    ConflictingFormats,
}

impl ConfigError {
    /// The diagnostic for this error.
    pub fn message(&self) -> (r: String)
        ensures
            r@ == "Only one output format can be named"@,
    {
        "Only one output format can be named".to_owned()
    }
}

/// Whether the options name more than one output format. The formats
/// exclude each other, so that is an error.
pub open spec fn names_two_formats(m: Matches) -> bool {
    ||| m.attribute is Some && m.pretty_print
    ||| m.attribute is Some && m.text_only
    ||| m.pretty_print && m.text_only
}

/// The output format that the options ask for, where they name at most one:
/// the one that is named, and with none the node is passed through.
pub open spec fn format_for(m: Matches) -> OutputFormat {
    match m.attribute {
        Some(names) => OutputFormat::Attributes(names),
        None => if m.pretty_print {
            OutputFormat::PrettyPrint
        } else if m.text_only {
            OutputFormat::TextOnly
        } else {
            OutputFormat::Pass
        },
    }
}

/// Whether `c` is the configuration that the options `m` resolve to.
pub open spec fn resolves_to(m: Matches, c: Config) -> bool {
    &&& is_path_for(c.input_path, m.filename)
    &&& is_path_for(c.output_path, m.output)
    &&& match m.selector {
        Some(tokens) => c.selector@ == joined_tokens(tokens@),
        None => c.selector@ == "html"@,
    }
    &&& c.base == m.base
    &&& c.detect_base == m.detect_base
    &&& c.output_format == format_for(m)
    &&& c.ignore_whitespace == m.ignore_whitespace
    &&& c.remove_nodes == m.remove_nodes
}

/// Joins the tokens of a selector with single spaces.
pub fn join_tokens(tokens: &Vec<String>) -> (r: String)
    ensures
        r@ == joined_tokens(tokens@),
{
    let mut out = String::new();
    let mut i: usize = 0;
    assert(tokens@.take(0) == Seq::<String>::empty());
    while i < tokens.len()
        invariant
            i <= tokens.len(),
            out@ == joined_tokens(tokens@.take(i as int)),
        decreases tokens.len() - i,
    {
        assert(tokens@.take(i + 1).drop_last() == tokens@.take(i as int));
        assert(tokens@.take(i + 1).last() == tokens@[i as int]);
        if i > 0 {
            push_char(&mut out, ' ');
        }
        out.append(tokens[i].as_str());
        assert(out@ =~= joined_tokens(tokens@.take(i + 1)));
        i = i + 1;
    }
    assert(tokens@.take(tokens.len() as int) == tokens@);
    out
}

impl Config {
    /// The configuration that the given options resolve to; `None` where
    /// they name more than one output format.
    pub fn from_args(matches: Matches) -> (r: Option<Config>)
        ensures
            match r {
                Some(c) => !names_two_formats(matches) && resolves_to(matches, c),
                None => names_two_formats(matches),
            },
    {
        let named: bool = matches.attribute.is_some();
        if (named && (matches.pretty_print || matches.text_only)) || (matches.pretty_print
            && matches.text_only) {
            return None;
        }
        let selector: String = match &matches.selector {
            Some(tokens) => join_tokens(tokens),
            None => "html".to_owned(),
        };
        let output_format = match matches.attribute {
            Some(names) => OutputFormat::Attributes(names),
            None => if matches.pretty_print {
                OutputFormat::PrettyPrint
            } else if matches.text_only {
                OutputFormat::TextOnly
            } else {
                OutputFormat::Pass
            },
        };
        let input_path: String = match matches.filename {
            Some(p) => p,
            None => "-".to_owned(),
        };
        let output_path: String = match matches.output {
            Some(p) => p,
            None => "-".to_owned(),
        };
        Some(
            Config {
                input_path,
                output_path,
                base: matches.base,
                detect_base: matches.detect_base,
                ignore_whitespace: matches.ignore_whitespace,
                output_format,
                remove_nodes: matches.remove_nodes,
                selector,
            },
        )
    }
}

impl Default for Config {
    /// The configuration of a run without options: standard input to
    /// standard output, the whole document, passed through.
    fn default() -> (c: Config)
        ensures
            c.input_path@ == "-"@,
            c.output_path@ == "-"@,
            c.selector@ == "html"@,
            c.base is None,
            !c.detect_base,
            !c.ignore_whitespace,
            c.output_format is Pass,
            c.remove_nodes is None,
    {
        Config {
            input_path: "-".to_owned(),
            output_path: "-".to_owned(),
            selector: "html".to_owned(),
            base: None,
            detect_base: false,
            ignore_whitespace: false,
            output_format: OutputFormat::Pass,
            remove_nodes: None,
        }
    }
}

/// The configuration of a run, from what its command line held. Options
/// that name more than one output format are an error.
pub fn get_config(matches: Matches) -> (r: Result<Config, ConfigError>)
    ensures
        match r {
            Ok(c) => !names_two_formats(matches) && resolves_to(matches, c),
            Err(e) => names_two_formats(matches) && e == ConfigError::ConflictingFormats,
        },
{
    match Config::from_args(matches) {
        Some(c) => Ok(c),
        None => Err(ConfigError::ConflictingFormats),
    }
}

} // verus!
