//! Which processes are watched: those whose command line or whose window
//! title matches a pattern. Patterns are regular expressions.

use regex::Regex;
use vstd::prelude::*;

verus! {

/// Whether `regex::Regex::new` compiles `pattern`. What makes a pattern
/// valid is the business of the `regex` crate and is not spelled out here.
pub uninterp spec fn regex_valid(pattern: Seq<char>) -> bool;

/// Whether the regular expression that `regex::Regex::new` compiles from
/// `pattern` matches somewhere in `text`, as `regex::Regex::is_match` finds.
/// What a pattern matches is the business of the `regex` crate and is not
/// spelled out here.
pub uninterp spec fn regex_is_match(pattern: Seq<char>, text: Seq<char>) -> bool;

/// What the error that `regex::Regex::new` returns for `pattern` says, as
/// its `Debug` form writes it. The wording is the business of the `regex`
/// crate and is not spelled out here.
pub uninterp spec fn regex_error_text(pattern: Seq<char>) -> Seq<char>;

/// Calls `regex::Regex::new` and, where that fails, takes the `Debug` form
/// of the error. Taken on trust, not proved: whether a pattern compiles, and
/// what the error says, depend on the pattern alone.
#[verifier::external_body]
fn pattern_error(pattern: &str) -> (error: Option<String>)
    ensures
        error is None <==> regex_valid(pattern@),
        error matches Some(text) ==> text@ == regex_error_text(pattern@),
{
    match Regex::new(pattern) {
        Ok(_) => None,
        Err(e) => Some(format!("{:?}", e)),
    }
}

/// Calls `regex::Regex::is_match` on the expression that `regex::Regex::new`
/// compiles from `pattern`. Taken on trust, not proved: whether there is a
/// match depends on the pattern and the text alone. A pattern that does not
/// compile matches nothing.
#[verifier::external_body]
fn pattern_matches(pattern: &str, text: &str) -> (hit: bool)
    ensures
        hit == (regex_valid(pattern@) && regex_is_match(pattern@, text@)),
{
    match Regex::new(pattern) {
        Ok(re) => re.is_match(text),
        Err(_) => false,
    }
}

/// A pattern that compiles.
pub struct Pattern {
    source: String,
}

impl View for Pattern {
    type V = Seq<char>;

    closed spec fn view(&self) -> Seq<char> {
        self.source@
    }
}

impl Pattern {
    /// The pattern with the text `source`, if that compiles; if not, what
    /// the error says.
    pub fn compile(source: &str) -> (r: Result<Pattern, String>)
        ensures
            r is Ok <==> regex_valid(source@),
            r matches Ok(p) ==> p@ == source@,
            r matches Err(text) ==> text@ == regex_error_text(source@),
    {
        match pattern_error(source) {
            None => Ok(Pattern { source: source.to_owned() }),
            Some(text) => Err(text),
        }
    }

    /// The pattern with the text `source`, if that compiles.
    pub fn new(source: &str) -> (pattern: Option<Pattern>)
        ensures
            pattern is Some <==> regex_valid(source@),
            pattern matches Some(p) ==> p@ == source@,
    {
        match Pattern::compile(source) {
            Ok(p) => Some(p),
            Err(_) => None,
        }
    }

    /// The text of the pattern.
    pub fn as_str(&self) -> (source: &str)
        ensures
            source@ == self@,
    {
        self.source.as_str()
    }

    /// Whether the pattern matches somewhere in `text`.
    pub fn is_match(&self, text: &str) -> (hit: bool)
        ensures
            hit == (regex_valid(self@) && regex_is_match(self@, text@)),
    {
        pattern_matches(self.source.as_str(), text)
    }
}

/// Whether `pattern` is there and matches somewhere in `text`.
pub open spec fn rx_matches(pattern: Option<Pattern>, text: Seq<char>) -> bool {
    match pattern {
        Some(p) => regex_valid(p@) && regex_is_match(p@, text),
        None => false,
    }
}

/// Whether the pattern, if there is one, matches somewhere in `text`. No
/// pattern matches nothing.
pub fn matches_rx(text: &str, regex_opt: &Option<Pattern>) -> (hit: bool)
    ensures
        hit == rx_matches(*regex_opt, text@),
{
    match regex_opt {
        Some(re) => re.is_match(text),
        None => false,
    }
}

/// By which of the two patterns a process came to be watched.
#[derive(Clone, Copy, Debug, PartialEq, Eq, Structural)]
pub struct Matched {
    pub by_cmd: bool,
    pub by_title: bool,
}

impl Matched {
    /// The process is watched: one of the patterns matched.
    pub open spec fn any(self) -> bool {
        self.by_cmd || self.by_title
    }

    pub fn is_any(&self) -> (yes: bool)
        ensures
            yes == self.any(),
    {
        self.by_cmd || self.by_title
    }
}

/// Holds the command line against the command pattern and the window title
/// against the title pattern.
pub fn match_sample(
    command: &str,
    title: &str,
    cmd_rx: &Option<Pattern>,
    title_rx: &Option<Pattern>,
) -> (matched: Matched)
    ensures
        matched.by_cmd == rx_matches(*cmd_rx, command@),
        matched.by_title == rx_matches(*title_rx, title@),
{
    Matched { by_cmd: matches_rx(command, cmd_rx), by_title: matches_rx(title, title_rx) }
}

} // verus!
