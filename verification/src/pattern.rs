//! Regular expressions, compiled by the `regex` crate.

use vstd::prelude::*;
use crate::text::has_prefix;

verus! {

#[verifier::external_type_specification]
#[verifier::external_body]
pub struct ExRegex(regex::Regex);

#[verifier::external_type_specification]
#[verifier::external_body]
pub struct ExRegexError(regex::Error);

/// The characters that `regex::escape` escapes.
pub open spec fn is_meta_character(c: char) -> bool {
    c == '\\' || c == '.' || c == '+' || c == '*' || c == '?' || c == '(' || c == ')' || c == '|'
        || c == '[' || c == ']' || c == '{' || c == '}' || c == '^' || c == '$' || c == '#' || c
        == '&' || c == '-' || c == '~'
}

/// `regex::escape`: every meta character of `s` preceded by a backslash.
pub open spec fn regex_escape(s: Seq<char>) -> Seq<char>
    decreases s.len(),
{
    if s.len() == 0 {
        Seq::empty()
    } else if is_meta_character(s.last()) {
        regex_escape(s.drop_last()) + seq!['\\', s.last()]
    } else {
        regex_escape(s.drop_last()).push(s.last())
    }
}

/// Whether `c` is one of the characters that `regex::escape` escapes.
fn is_meta(c: char) -> (b: bool)
    ensures
        b == is_meta_character(c),
{
    c == '\\' || c == '.' || c == '+' || c == '*' || c == '?' || c == '(' || c == ')' || c == '|' || c == '['
        || c == ']' || c == '{' || c == '}' || c == '^' || c == '$' || c == '#' || c == '&' || c == '-' || c
        == '~'
}

/// `s` with a backslash before each meta character, the text that
/// `regex::escape` gives: it matches `s` literally.
pub(crate) fn escape(s: &str) -> (r: String)
    ensures
        r@ == regex_escape(s@),
{
    let n = s.unicode_len();
    let backslash = "\\";
    proof {
        reveal_strlit("\\");
        assert(backslash@ =~= seq!['\\']);
    }
    let mut r = String::new();
    let mut i: usize = 0;
    proof {
        assert(s@.take(0) =~= Seq::<char>::empty());
        assert(r@ =~= regex_escape(s@.take(0)));
    }
    while i < n
        invariant
            i <= n,
            n == s@.len(),
            backslash@ == seq!['\\'],
            r@ == regex_escape(s@.take(i as int)),
        decreases n - i,
    {
        let c = s.get_char(i);
        let ghost before = r@;
        let ghost t = s@.take(i + 1);
        proof {
            assert(t.drop_last() =~= s@.take(i as int));
            assert(t.last() == c);
        }
        if is_meta(c) {
            r.append(backslash);
        }
        let one = s.substring_char(i, i + 1);
        r.append(one);
        proof {
            assert(one@ =~= seq![c]);
            if is_meta_character(c) {
                assert(r@ =~= before + seq!['\\', c]);
            } else {
                assert(r@ =~= before.push(c));
            }
        }
        i = i + 1;
    }
    proof {
        assert(s@.take(n as int) =~= s@);
    }
    r
}

/// Calls `Regex::new`. It fails on a pattern with a syntax error and on one
/// whose compiled program goes over the crate's size limit; that size is
/// counted in bytes of the target's data layout, so whether a long pattern
/// compiles differs between targets. Nothing is claimed of the result here.
#[verifier::external_body]
fn regex_new(source: &str) -> (r: Result<regex::Regex, regex::Error>) {
    regex::Regex::new(source)
}

/// What `Regex::replace` returns for the pattern `pattern`, the haystack
/// `text` and the replacement `rep`.
pub uninterp spec fn spec_regex_replace(pattern: Seq<char>, text: Seq<char>, rep: Seq<char>) -> Seq<char>;

/// What `Regex::is_match` returns for the pattern `pattern` and the haystack
/// `text`.
pub uninterp spec fn spec_regex_is_match(pattern: Seq<char>, text: Seq<char>) -> bool;

/// A pattern that did not compile.
#[derive(Debug)]
pub struct PatternError {
    pub error: regex::Error,
}

/// A compiled regular expression together with the pattern it was compiled
/// from. The fields are private and `Pattern::new` is the only constructor,
/// so `regex` is always what `Regex::new` gave for `source`.
pub struct Pattern {
    source: String,
    regex: regex::Regex,
}

impl View for Pattern {
    type V = Seq<char>;

    closed spec fn view(&self) -> Seq<char> {
        self.source@
    }
}

impl Pattern {
    /// Compiles `source`; fails where `Regex::new` refuses it.
    pub fn new(source: &str) -> (r: Result<Pattern, PatternError>)
        ensures
            r matches Ok(p) ==> p@ == source@,
    {
        match regex_new(source) {
            Ok(regex) => Ok(Pattern { source: String::from_str(source), regex }),
            Err(error) => Err(PatternError { error }),
        }
    }

    /// The pattern's source text.
    pub fn as_str(&self) -> (r: &str)
        ensures
            r@ == self@,
    {
        self.source.as_str()
    }
}

/// Calls `Regex::replace` on the pattern's compiled regex: the leftmost-first
/// match of the pattern in `text` is replaced by `rep`. Its result is named
/// by `spec_regex_replace`. The second clause is what the crate's
/// documentation gives for a pattern made of `^` and an escaped literal,
/// replaced by the empty string: `^` matches only at the start of the
/// haystack and an escaped literal matches only itself, so the match is the
/// literal at the start, if `text` starts with it.
#[verifier::external_body]
pub(crate) fn regex_replace(p: &Pattern, text: &str, rep: &str) -> (r: String)
    ensures
        r@ == spec_regex_replace(p@, text@, rep@),
        forall|lit: Seq<char>|
            p@ == seq!['^'] + #[trigger] regex_escape(lit) && rep@.len() == 0 ==> r@ == (if has_prefix(
                text@,
                lit,
            ) {
                text@.skip(lit.len() as int)
            } else {
                text@
            }),
{
    p.regex.replace(text, rep).into_owned()
}

/// Calls `Regex::is_match` on the pattern's compiled regex. Its result is
/// named by `spec_regex_is_match`; nothing more is claimed of it here.
#[verifier::external_body]
pub(crate) fn regex_is_match(p: &Pattern, text: &str) -> (r: bool)
    ensures
        r == spec_regex_is_match(p@, text@),
{
    p.regex.is_match(text)
}

} // verus!
