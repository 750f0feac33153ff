//! Regular expressions, by way of the `regex` crate.
//!
//! A [`Pattern`] is the text of a regular expression that is known to compile.
//! What it matches is the crate's business: the results of its methods are
//! named, as functions of the pattern, the text and the replacement. It is kept
//! as text, and compiled where it is used.
use crate::text::strings;
use regex::Regex;
use vstd::prelude::*;

verus! {

/// The error of a pattern that does not compile.
#[verifier::external_type_specification]
#[verifier::external_body]
pub struct ExRegexError(regex::Error);

/// Whether [`Regex::new`] accepts `pattern`.
pub uninterp spec fn compiles(pattern: Seq<char>) -> bool;

/// The result of [`Regex::replace`].
pub uninterp spec fn replaced(pattern: Seq<char>, text: Seq<char>, by: Seq<char>) -> Seq<char>;

/// The result of [`Regex::replace_all`].
pub uninterp spec fn replaced_all(pattern: Seq<char>, text: Seq<char>, by: Seq<char>) -> Seq<char>;

/// The texts of the matches that [`Regex::find_iter`] gives.
pub uninterp spec fn found(pattern: Seq<char>, text: Seq<char>) -> Seq<Seq<char>>;

/// `Regex::new`: compiles a regular expression. Whether that succeeds is a
/// function of the pattern.
#[verifier::external_body]
fn compile(pattern: &str) -> (r: Result<(), regex::Error>)
    ensures
        r is Ok <==> compiles(pattern@),
{
    Regex::new(pattern).map(|_compiled| ())
}

/// `Regex::replace` with a replacement string: `text` with the leftmost match
/// replaced, `$1` in the replacement standing for the first capture group. The
/// result is a function of the pattern, the text and the replacement.
#[verifier::external_body]
fn replace_first_match(pattern: &str, text: &str, by: &str) -> (r: String)
    requires
        compiles(pattern@),
    ensures
        r@ == replaced(pattern@, text@, by@),
{
    Regex::new(pattern).unwrap().replace(text, by).into_owned()
}

/// `Regex::replace_all` with a replacement string: `text` with every match
/// replaced, from left to right without overlap. The result is a function of
/// the pattern, the text and the replacement.
#[verifier::external_body]
fn replace_every_match(pattern: &str, text: &str, by: &str) -> (r: String)
    requires
        compiles(pattern@),
    ensures
        r@ == replaced_all(pattern@, text@, by@),
{
    Regex::new(pattern).unwrap().replace_all(text, by).into_owned()
}

/// `Regex::find_iter`: the matches in `text`, from left to right without
/// overlap, each as the text it matched. The result is a function of the
/// pattern and the text.
#[verifier::external_body]
fn every_match(pattern: &str, text: &str) -> (r: Vec<String>)
    requires
        compiles(pattern@),
    ensures
        strings(r@) == found(pattern@, text@),
{
    Regex::new(pattern).unwrap().find_iter(text).map(|m| m.as_str().to_string()).collect()
}

/// A pattern that does not compile.
#[derive(Debug)]
pub struct PatternError {
    pub pattern: String,
}

/// A regular expression that compiles.
pub struct Pattern {
    source: String,
}

impl View for Pattern {
    type V = Seq<char>;

    closed spec fn view(&self) -> Seq<char> {
        self.source@
    }
}

impl Pattern {
    #[verifier::type_invariant]
    spec fn valid(self) -> bool {
        compiles(self.source@)
    }

    pub fn new(source: &str) -> (r: Result<Pattern, PatternError>)
        ensures
            match r {
                Ok(p) => compiles(source@) && p@ == source@,
                Err(e) => !compiles(source@) && e.pattern@ == source@,
            },
    {
        match compile(source) {
            Ok(()) => Ok(Pattern { source: source.to_owned() }),
            Err(_) => Err(PatternError { pattern: source.to_owned() }),
        }
    }

    /// `text` with the first match replaced by `by`.
    pub fn replace(&self, text: &str, by: &str) -> (r: String)
        ensures
            r@ == replaced(self@, text@, by@),
    {
        proof {
            use_type_invariant(self);
        }
        replace_first_match(self.source.as_str(), text, by)
    }

    /// `text` with every match replaced by `by`.
    pub fn replace_all(&self, text: &str, by: &str) -> (r: String)
        ensures
            r@ == replaced_all(self@, text@, by@),
    {
        proof {
            use_type_invariant(self);
        }
        replace_every_match(self.source.as_str(), text, by)
    }

    /// The texts of the matches in `text`, in order.
    pub fn find_all(&self, text: &str) -> (r: Vec<String>)
        ensures
            strings(r@) == found(self@, text@),
    {
        proof {
            use_type_invariant(self);
        }
        every_match(self.source.as_str(), text)
    }
}

} // verus!
