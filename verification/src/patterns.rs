//! Regular expressions through the `regex` crate: compiling a pattern,
//! listing its matches, replacing them, and escaping literal text.

use vstd::prelude::*;
use vstd::string::*;
use vstd::utf8::*;

verus! {

/// `regex::Regex`, known to Verus as an opaque type.
#[verifier::external_type_specification]
#[verifier::external_body]
pub struct ExRegex(regex::Regex);

/// A compiled regular expression together with the pattern it was compiled
/// from.  Only `compile_regex` builds one.
pub struct CompiledRegex {
    re: regex::Regex,
    source: String,
}

impl View for CompiledRegex {
    type V = Seq<char>;

    closed spec fn view(&self) -> Seq<char> {
        self.source@
    }
}

/// Whether `regex::Regex::new` accepts the pattern.
pub uninterp spec fn regex_parses(pattern: Seq<char>) -> bool;

/// The `(start, end)` byte offsets of the matches that
/// `regex::Regex::find_iter` yields for `pattern` on `text`.
pub uninterp spec fn regex_match_spans(pattern: Seq<char>, text: Seq<char>) -> Seq<(usize, usize)>;

/// What `regex::Regex::replace_all` gives for `pattern` on `text` with the
/// replacement `rep`.
pub uninterp spec fn regex_replace_all(pattern: Seq<char>, text: Seq<char>, rep: Seq<char>) -> Seq<
    char,
>;

/// A span lies within `bytes` and starts and ends on character boundaries.
pub open spec fn span_fits(span: (usize, usize), bytes: Seq<u8>) -> bool {
    &&& span.0 <= span.1 <= bytes.len()
    &&& is_char_boundary(bytes, span.0 as int)
    &&& is_char_boundary(bytes, span.1 as int)
}

/// Spans are in order, do not overlap, and start and end on character
/// boundaries of `bytes`.
pub open spec fn spans_well_formed(spans: Seq<(usize, usize)>, bytes: Seq<u8>) -> bool {
    &&& forall|i: int| 0 <= i < spans.len() ==> span_fits(#[trigger] spans[i], bytes)
    &&& forall|i: int, j: int| 0 <= i < j < spans.len() ==> #[trigger] spans[i].1 <= #[trigger] spans[j].0
}

/// The spans of `pattern` in `text`, or none when the pattern does not compile.
pub open spec fn pattern_spans(pattern: Seq<char>, text: Seq<char>) -> Seq<(usize, usize)> {
    if regex_parses(pattern) {
        regex_match_spans(pattern, text)
    } else {
        Seq::empty()
    }
}

/// `re` is what compiling `pattern` gives.
pub open spec fn compiled_from(re: Option<CompiledRegex>, pattern: Seq<char>) -> bool {
    &&& (re is Some <==> regex_parses(pattern))
    &&& (re matches Some(c) ==> c@ == pattern)
}

/// Compiles `pattern` with `regex::Regex::new`.  Claimed of the outside code:
/// it succeeds exactly when `regex_parses` holds of the pattern, and the
/// result remembers that pattern.
#[verifier::external_body]
pub fn compile_regex(pattern: &str) -> (r: Option<CompiledRegex>)
    ensures
        r is Some <==> regex_parses(pattern@),
        r matches Some(c) ==> c@ == pattern@,
{
    match regex::Regex::new(pattern) {
        Ok(re) => Some(CompiledRegex { re, source: pattern.to_string() }),
        Err(_) => None,
    }
}

/// The matches of `regex::Regex::find_iter`, as byte offsets.  Claimed of the
/// outside code: the spans are `regex_match_spans` of the pattern and the
/// text, and, as the crate documents, they are successive, non-overlapping
/// and fall on UTF-8 character boundaries.
#[verifier::external_body]
pub fn find_spans(re: &CompiledRegex, text: &str) -> (r: Vec<(usize, usize)>)
    ensures
        r@ == regex_match_spans(re@, text@),
        spans_well_formed(r@, text.spec_bytes()),
{
    re.re.find_iter(text).map(|m| (m.start(), m.end())).collect()
}

/// `regex::Regex::replace_all`.  Claimed of the outside code: the result is
/// `regex_replace_all` of the pattern, the text and the replacement.
#[verifier::external_body]
pub fn replace_all(re: &CompiledRegex, text: &str, rep: &str) -> (r: String)
    ensures
        r@ == regex_replace_all(re@, text@, rep@),
{
    re.re.replace_all(text, rep).into_owned()
}

/// The characters that `regex::escape` puts a backslash before.
pub open spec fn is_meta_character(c: char) -> bool {
    c == '\\' || c == '.' || c == '+' || c == '*' || c == '?' || c == '(' || c == ')' || c == '|'
        || c == '[' || c == ']' || c == '{' || c == '}' || c == '^' || c == '$' || c == '#' || c
        == '&' || c == '-' || c == '~'
}

/// `text` with a backslash before every meta character.
pub open spec fn escaped(text: Seq<char>) -> Seq<char>
    decreases text.len(),
{
    if text.len() == 0 {
        Seq::empty()
    } else {
        let c = text.last();
        escaped(text.drop_last()) + if is_meta_character(c) {
            seq!['\\', c]
        } else {
            seq![c]
        }
    }
}

/// `regex::escape`.  Claimed of the outside code: it puts a backslash before
/// each meta character and copies every other character.
#[verifier::external_body]
pub fn escape(text: &str) -> (r: String)
    ensures
        r@ == escaped(text@),
{
    regex::escape(text)
}

/// All spans of `pattern` in `text`, or none when the pattern does not
/// compile.
pub fn spans_of_pattern(re: &Option<CompiledRegex>, text: &str) -> (r: Vec<(usize, usize)>)
    ensures
        r@ == match re {
            Some(c) => regex_match_spans(c@, text@),
            None => Seq::empty(),
        },
        spans_well_formed(r@, text.spec_bytes()),
{
    match re {
        Some(c) => find_spans(c, text),
        None => Vec::new(),
    }
}

} // verus!
