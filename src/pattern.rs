//! Regular expressions, kept together with the text they were compiled from.

use vstd::prelude::*;
use vstd::string::*;
use vstd::utf8::*;

verus! {

/// regex::Regex, a compiled regular expression, opaque here.
#[verifier::external_type_specification]
#[verifier::external_body]
pub struct ExRegex(regex::Regex);

/// regex::Error, why a pattern did not compile, opaque here.
#[verifier::external_type_specification]
#[verifier::external_body]
pub struct ExRegexError(regex::Error);

/// Whether the regular expression compiler accepts `pattern`.
pub uninterp spec fn compiles(pattern: Seq<char>) -> bool;

/// The capture groups of the leftmost-first match of `pattern` in `text`:
/// `None` when there is no match, else the byte span of each group in the
/// order of its opening parenthesis (group 0 is the whole match), `None` for
/// a group that took no part in the match.
pub uninterp spec fn captures_of(pattern: Seq<char>, text: Seq<char>) -> Option<
    Seq<Option<(usize, usize)>>,
>;

/// Whether every span in `spans` lies within `bytes`, starts no later than it
/// ends, and starts and ends on character boundaries.
pub open spec fn spans_within(spans: Seq<Option<(usize, usize)>>, bytes: Seq<u8>) -> bool {
    forall|j: int|
        0 <= j < spans.len() ==> match #[trigger] spans[j] {
            Some((s, e)) => {
                &&& s <= e <= bytes.len()
                &&& is_char_boundary(bytes, s as int)
                &&& is_char_boundary(bytes, e as int)
            },
            None => true,
        }
}

/// A compiled regular expression. It is only built by `Pattern::new`, so its
/// regex is always the one compiled from `src`.
#[derive(Debug)]
pub struct Pattern {
    re: regex::Regex,
    src: String,
}

impl View for Pattern {
    type V = Seq<char>;

    closed spec fn view(&self) -> Seq<char> {
        self.src@
    }
}

/// A pattern that the regular expression compiler rejected.
#[derive(Debug)]
pub struct PatternError {
    pub error: regex::Error,
}

/// Relies on regex::Regex::new, which fails exactly on the patterns it does
/// not accept.
#[verifier::external_body]
fn compile(src: &str) -> (r: Result<regex::Regex, regex::Error>)
    ensures
        r is Ok <==> compiles(src@),
{
    regex::Regex::new(src)
}

/// Relies on regex::Regex::captures (and Captures::iter, Match::start,
/// Match::end): the spans of the groups of the leftmost-first match, whose
/// offsets the regex crate documents as ordered and on character boundaries.
/// The regex in `p` is the one compiled from `p@`.
#[verifier::external_body]
pub(crate) fn captures(p: &Pattern, text: &str) -> (r: Option<Vec<Option<(usize, usize)>>>)
    ensures
        match r {
            Some(v) => captures_of(p@, text@) == Some(v@) && spans_within(v@, text.spec_bytes()),
            None => captures_of(p@, text@) is None,
        },
{
    p.re.captures(text).map(|c| c.iter().map(|m| m.map(|m| (m.start(), m.end()))).collect())
}

impl Pattern {
    /// Compiles `src`; fails exactly when the compiler rejects it.
    pub fn new(src: &str) -> (r: Result<Pattern, PatternError>)
        ensures
            r is Ok <==> compiles(src@),
            r matches Ok(p) ==> p@ == src@,
    {
        match compile(src) {
            Ok(re) => Ok(Pattern { re, src: src.to_owned() }),
            Err(error) => Err(PatternError { error }),
        }
    }

    /// The text the pattern was compiled from.
    pub fn as_str(&self) -> (r: &str)
        ensures
            r@ == self@,
    {
        self.src.as_str()
    }
}

} // verus!
