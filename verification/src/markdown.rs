//! Code-block detection and token-aware chunking of markdown text.

use vstd::prelude::*;
use vstd::string::*;
use vstd::utf8::*;

use crate::types::MarkdownChunk;
use crate::patterns::{
    compiled_from, compile_regex, span_fits, spans_of_pattern, spans_well_formed, pattern_spans, CompiledRegex,
};
use crate::text::{
    lemma_inside_char, decode_at, is_white_space, scalar_at, white_space_scalar, width_at, first_in, last_in, lemma_first_in,
    lemma_last_in, lemma_last_in_skip, lemma_first_in_extend, lemma_first_in_prefix, lemma_scalar_at,
    lemma_str_bytes, lemma_boundary_in_tail, lemma_boundary_in_sub, lemma_trim_range, starts_non_white, substr, utf8, trim_offsets, trim_range, trimmed, push_str,
};

verus! {

/// A fenced code block: a line starting with three backticks, through the
/// next three backticks.
pub const CODE_BLOCK_PATTERN: &'static str = "(?ms)^(```[^\\n]*\\n.*?```)";

/// A paragraph break: two or more newlines.
pub const PARAGRAPH_PATTERN: &'static str = "\\n\\n+";

/// The `(start, end)` spans of a list of code blocks.
pub open spec fn spans_of(blocks: Seq<(usize, usize, String)>) -> Seq<(usize, usize)> {
    blocks.map_values(|b: (usize, usize, String)| (b.0, b.1))
}

/// The language tag of the code block that occupies bytes `[s, e)` of `b`:
/// what follows the opening backticks up to the first newline, or nothing.
pub open spec fn fence_language(b: Seq<u8>, s: int, e: int) -> Seq<u8> {
    if s + 3 <= e && b[s] == 0x60 && b[s + 1] == 0x60 && b[s + 2] == 0x60 {
        match first_in(|p: int| b[p] == 0x0a, s + 3, e) {
            Some(nl) => b.subrange(s + 3, nl),
            None => Seq::empty(),
        }
    } else {
        Seq::empty()
    }
}

/// The code blocks described by the match spans `spans` of `text`.
pub open spec fn blocks_match_spans(
    text: Seq<char>,
    spans: Seq<(usize, usize)>,
    blocks: Seq<(usize, usize, String)>,
) -> bool {
    &&& blocks.len() == spans.len()
    &&& forall|i: int|
        0 <= i < blocks.len() ==> {
            &&& (#[trigger] blocks[i]).0 == spans[i].0
            &&& blocks[i].1 == spans[i].1
            &&& utf8(blocks[i].2@) == fence_language(utf8(text), spans[i].0 as int, spans[i].1 as int)
        }
}

/// Builds the code-block list of `text` from the spans that the code-block
/// pattern matched: each span with the language named after its fence.
pub fn code_blocks_from_spans(text: &str, spans: &Vec<(usize, usize)>) -> (r: Vec<(usize, usize, String)>)
    requires
        spans_well_formed(spans@, text.spec_bytes()),
    ensures
        blocks_match_spans(text@, spans@, r@),
        spans_of(r@) == spans@,
{
    let b = text.as_bytes();
    let ghost bs = b@;
    proof {
        lemma_str_bytes(text);
    }
    let mut out: Vec<(usize, usize, String)> = Vec::new();
    let mut i: usize = 0;
    while i < spans.len()
        invariant
            bs == b@,
            bs == text.spec_bytes(),
            bs == utf8(text@),
            valid_utf8(bs),
            spans_well_formed(spans@, bs),
            i <= spans.len(),
            out.len() == i,
            forall|k: int|
                0 <= k < i ==> {
                    &&& (#[trigger] out@[k]).0 == spans@[k].0
                    &&& out@[k].1 == spans@[k].1
                    &&& utf8(out@[k].2@) == fence_language(bs, spans@[k].0 as int, spans@[k].1 as int)
                },
        decreases spans.len() - i,
    {
        let (s, e) = spans[i];
        assert(s <= e <= bs.len());
        let lang = language_of_fence(text, s, e);
        out.push((s, e, lang));
        i = i + 1;
    }
    proof {
        assert(spans_of(out@) =~= spans@);
    }
    out
}

fn language_of_fence(text: &str, s: usize, e: usize) -> (lang: String)
    requires
        s <= e <= text.spec_bytes().len(),
        is_char_boundary(text.spec_bytes(), s as int),
    ensures
        utf8(lang@) == fence_language(text.spec_bytes(), s as int, e as int),
{
    let b = text.as_bytes();
    let ghost bs = b@;
    proof {
        lemma_str_bytes(text);
    }
    if e - s >= 3 && b[s] == 0x60 && b[s + 1] == 0x60 && b[s + 2] == 0x60 {
        let start = s + 3;
        proof {
            lemma_scalar_at(bs, s as int);
            vstd::utf8::is_char_boundary_iff_not_is_continuation_byte(bs, s + 1);
            lemma_scalar_at(bs, s + 1);
            vstd::utf8::is_char_boundary_iff_not_is_continuation_byte(bs, s + 2);
            lemma_scalar_at(bs, s + 2);
        }
        let ghost pred = |p: int| bs[p] == 0x0a;
        let mut p = start;
        while p < e
            invariant
                bs == b@,
                bs == text.spec_bytes(),
                valid_utf8(bs),
                is_char_boundary(bs, start as int),
                start == s + 3,
                bs[s as int] == 0x60 && bs[s + 1] == 0x60 && bs[s + 2] == 0x60,
                start <= p <= e <= bs.len(),
                pred == (|q: int| bs[q] == 0x0a),
                first_in(pred, start as int, p as int) is None,
            decreases e - p,
        {
            proof {
                lemma_first_in_extend(pred, start as int, p as int);
            }
            if b[p] == 0x0a {
                proof {
                    vstd::utf8::is_char_boundary_iff_not_is_continuation_byte(bs, p as int);
                    assert(first_in(pred, start as int, e as int) == Some(p as int)) by {
                        lemma_first_in_prefix(pred, start as int, p as int + 1, e as int);
                    }
                }
                let piece = substr(text, start, p);
                let lang = piece.to_owned();
                proof {
                    lemma_str_bytes(piece);
                    let f = |q: int| text.spec_bytes()[q] == 0x0a;
                    assert(f =~= pred);
                    assert(utf8(lang@) == bs.subrange(start as int, p as int));
                }
                return lang;
            }
            p = p + 1;
        }
        proof {
            let f = |q: int| text.spec_bytes()[q] == 0x0a;
            assert(f =~= pred);
        }
        String::new()
    } else {
        String::new()
    }
}

/// Lists the fenced code blocks of `text`: the byte span of each and the
/// language named after its opening backticks.
pub fn identify_code_blocks(text: &str) -> (blocks: Vec<(usize, usize, String)>)
    ensures
        blocks_match_spans(text@, pattern_spans(CODE_BLOCK_PATTERN@, text@), blocks@),
        spans_of(blocks@) == pattern_spans(CODE_BLOCK_PATTERN@, text@),
{
    let re = compile_regex(CODE_BLOCK_PATTERN);
    let spans = spans_of_pattern(&re, text);
    code_blocks_from_spans(text, &spans)
}


/// `pos` lies inside one of the spans.
pub open spec fn inside_span(pos: int, sp: Seq<(usize, usize)>) -> bool {
    exists|i: int| 0 <= i < sp.len() && #[trigger] sp[i].0 <= pos && pos < sp[i].1
}

/// Whether a byte position lies inside any of the code blocks.
pub fn is_inside_code_block(pos: usize, code_blocks: &[(usize, usize, String)]) -> (r: bool)
    ensures
        r == inside_span(pos as int, spans_of(code_blocks@)),
{
    let ghost sp = spans_of(code_blocks@);
    let mut i: usize = 0;
    while i < code_blocks.len()
        invariant
            sp == spans_of(code_blocks@),
            i <= code_blocks.len(),
            forall|k: int| 0 <= k < i ==> !(#[trigger] sp[k].0 <= pos && pos < sp[k].1),
        decreases code_blocks.len() - i,
    {
        let start = code_blocks[i].0;
        let end = code_blocks[i].1;
        assert(sp[i as int] == (start, end));
        if pos >= start && pos < end {
            assert(sp[i as int].0 <= pos && pos < sp[i as int].1);
            assert(inside_span(pos as int, sp));
            return true;
        }
        i = i + 1;
    }
    false
}

/// The end of the first span that contains `pos`.
pub open spec fn containing_end(pos: int, sp: Seq<(usize, usize)>) -> Option<int> {
    match first_in(|i: int| sp[i].0 <= pos && pos < sp[i].1, 0, sp.len() as int) {
        Some(k) => Some(sp[k].1 as int),
        None => None,
    }
}

/// A newline outside every code block at byte `p`.
pub open spec fn newline_at(b: Seq<u8>, sp: Seq<(usize, usize)>, p: int) -> bool {
    0 <= p < b.len() && b[p] == 0x0a && !inside_span(p, sp)
}

/// A newline that ends a blank line: a paragraph break.
pub open spec fn paragraph_break_at(b: Seq<u8>, sp: Seq<(usize, usize)>, p: int) -> bool {
    newline_at(b, sp, p) && p > 0 && b[p - 1] == 0x0a
}

/// A newline followed by `#`: the start of a header.
pub open spec fn header_break_at(b: Seq<u8>, sp: Seq<(usize, usize)>, p: int) -> bool {
    newline_at(b, sp, p) && p + 1 < b.len() && b[p + 1] == 0x23
}

/// A character outside every code block starts at byte `p`.
pub open spec fn char_outside_at(b: Seq<u8>, sp: Seq<(usize, usize)>, p: int) -> bool {
    0 <= p < b.len() && is_char_boundary(b, p) && !inside_span(p, sp)
}

/// `.`, `!` or `?` followed, before `e`, by white space, both outside every
/// code block: the end of a sentence.
pub open spec fn sentence_break_at(b: Seq<u8>, sp: Seq<(usize, usize)>, e: int, p: int) -> bool {
    &&& char_outside_at(b, sp, p)
    &&& (b[p] == 0x2e || b[p] == 0x21 || b[p] == 0x3f)
    &&& p + 1 < e
    &&& char_outside_at(b, sp, p + 1)
    &&& is_white_space(scalar_at(b, p + 1))
}

/// A `,` or `;` outside every code block: the end of a clause.
pub open spec fn clause_break_at(b: Seq<u8>, sp: Seq<(usize, usize)>, p: int) -> bool {
    char_outside_at(b, sp, p) && (b[p] == 0x2c || b[p] == 0x3b)
}

/// A white-space character outside every code block.
pub open spec fn space_break_at(b: Seq<u8>, sp: Seq<(usize, usize)>, p: int) -> bool {
    char_outside_at(b, sp, p) && !(b[p] == 0x2c || b[p] == 0x3b) && is_white_space(
        scalar_at(b, p),
    )
}

/// `q` is a character boundary of `b`, its end included.
pub open spec fn boundary_at(b: Seq<u8>, q: int) -> bool {
    0 <= q <= b.len() && is_char_boundary(b, q)
}

/// The last character boundary in `[lo, x]`, or `lo` where there is none.
pub open spec fn floor_boundary(b: Seq<u8>, lo: int, x: int) -> int {
    match last_in(|q: int| boundary_at(b, q), lo, x + 1) {
        Some(f) => f,
        None => lo,
    }
}

/// The first character boundary after `p`.
pub open spec fn next_boundary(b: Seq<u8>, p: int) -> int {
    match first_in(|q: int| boundary_at(b, q), p + 1, b.len() as int + 1) {
        Some(f) => f,
        None => b.len() as int,
    }
}

/// Where a chunk that starts at `cs` and aims to end at `te` may end:
/// past the code block that `te` falls into, if any.  Otherwise the search
/// window runs from `cs` to `min(te, len)`, moved back to a character
/// boundary, and the candidate nearest its end wins, of the first kind that
/// has one: after a paragraph break, before a header, after the white space
/// that follows a sentence end, after a clause end, after a white space.
pub open spec fn break_point(b: Seq<u8>, cs: int, te: int, sp: Seq<(usize, usize)>) -> Option<int> {
    let e = floor_boundary(
        b,
        cs,
        if te < b.len() {
            te
        } else {
            b.len() as int
        },
    );
    match containing_end(te, sp) {
        Some(end) => Some(end),
        None => match last_in(|p: int| paragraph_break_at(b, sp, p), cs, e) {
            Some(p) => Some(p + 1),
            None => match last_in(|p: int| header_break_at(b, sp, p), cs, e) {
                Some(p) => Some(p),
                None => match last_in(|p: int| sentence_break_at(b, sp, e, p), cs, e) {
                    Some(p) => Some(p + 1 + width_at(b, p + 1)),
                    None => match last_in(|p: int| clause_break_at(b, sp, p), cs, e) {
                        Some(p) => Some(p + 1),
                        None => match last_in(|p: int| space_break_at(b, sp, p), cs, e) {
                            Some(p) => Some(p + width_at(b, p)),
                            None => None,
                        },
                    },
                },
            },
        },
    }
}

fn containing_block_end(pos: usize, code_blocks: &[(usize, usize, String)]) -> (r: Option<usize>)
    ensures
        r matches Some(x) ==> containing_end(pos as int, spans_of(code_blocks@)) == Some(x as int),
        r is None ==> containing_end(pos as int, spans_of(code_blocks@)) is None,
{
    let ghost sp = spans_of(code_blocks@);
    let ghost pred = |i: int| sp[i].0 <= pos && pos < sp[i].1;
    let mut i: usize = 0;
    while i < code_blocks.len()
        invariant
            sp == spans_of(code_blocks@),
            pred == (|i: int| sp[i].0 <= pos && pos < sp[i].1),
            i <= code_blocks.len(),
            first_in(pred, 0, i as int) is None,
        decreases code_blocks.len() - i,
    {
        proof {
            lemma_first_in_extend(pred, 0, i as int);
        }
        let start = code_blocks[i].0;
        let end = code_blocks[i].1;
        assert(sp[i as int] == (start, end));
        if pos >= start && pos < end {
            proof {
                lemma_first_in_prefix(pred, 0, i + 1, sp.len() as int);
            }
            return Some(end);
        }
        i = i + 1;
    }
    None
}

fn is_boundary(b: &[u8], p: usize) -> (r: bool)
    requires
        valid_utf8(b@),
        p <= b@.len(),
    ensures
        r == is_char_boundary(b@, p as int),
        r == boundary_at(b@, p as int),
{
    proof {
        vstd::utf8::is_char_boundary_start_end_of_seq(b@);
    }
    if p == b.len() {
        true
    } else {
        proof {
            vstd::utf8::is_char_boundary_iff_not_is_continuation_byte(b@, p as int);
        }
        !(0x80 <= b[p] && b[p] <= 0xbf)
    }
}

fn floor_boundary_of(b: &[u8], lo: usize, x: usize) -> (r: usize)
    requires
        valid_utf8(b@),
        lo <= x <= b@.len(),
        is_char_boundary(b@, lo as int),
    ensures
        r == floor_boundary(b@, lo as int, x as int),
        lo <= r <= x,
        is_char_boundary(b@, r as int),
{
    let ghost pred = |q: int| boundary_at(b@, q);
    let mut q = x;
    while !is_boundary(b, q)
        invariant
            valid_utf8(b@),
            lo <= q <= x <= b@.len(),
            is_char_boundary(b@, lo as int),
            pred == (|q: int| boundary_at(b@, q)),
            forall|j: int| q < j <= x ==> !#[trigger] pred(j),
        decreases q,
    {
        assert(q != lo);
        assert(!pred(q as int));
        q = q - 1;
    }
    proof {
        assert(pred(q as int));
        lemma_last_in_skip(pred, lo as int, q + 1, x + 1);
        assert(last_in(pred, lo as int, q + 1) == Some(q as int));
    }
    q
}

fn next_boundary_of(b: &[u8], p: usize) -> (r: usize)
    requires
        valid_utf8(b@),
        p < b@.len(),
    ensures
        r == next_boundary(b@, p as int),
        p < r <= b@.len(),
        is_char_boundary(b@, r as int),
{
    let ghost pred = |q: int| boundary_at(b@, q);
    let n = b.len();
    proof {
        vstd::utf8::is_char_boundary_start_end_of_seq(b@);
    }
    let mut q = p + 1;
    while !is_boundary(b, q)
        invariant
            valid_utf8(b@),
            n == b@.len(),
            is_char_boundary(b@, n as int),
            p + 1 <= q <= n,
            pred == (|q: int| boundary_at(b@, q)),
            first_in(pred, p + 1, q as int) is None,
        decreases n - q,
    {
        proof {
            lemma_first_in_extend(pred, p + 1, q as int);
        }
        q = q + 1;
    }
    proof {
        lemma_first_in_extend(pred, p + 1, q as int);
        lemma_first_in_prefix(pred, p + 1, q + 1, n + 1);
    }
    q
}

/// Finds a safe place to end a chunk of `text` that starts at `start_pos`
/// and aims to end at `target_end`, without splitting a code block.
/// Searching back from `target_end`, the nearest break of the best kind
/// wins; kinds by priority: paragraph > header > sentence > clause > word
/// boundary.
pub fn find_break_point(
    text: &str,
    start_pos: usize,
    target_end: usize,
    code_blocks: &[(usize, usize, String)],
) -> (r: Option<usize>)
    requires
        start_pos <= target_end,
        start_pos <= text.spec_bytes().len(),
        is_char_boundary(text.spec_bytes(), start_pos as int),
    ensures
        r matches Some(x) ==> break_point(text.spec_bytes(), start_pos as int, target_end as int, spans_of(code_blocks@)) == Some(x as int),
        r is None ==> break_point(text.spec_bytes(), start_pos as int, target_end as int, spans_of(code_blocks@)) is None,
{
    let b = text.as_bytes();
    let n = b.len();
    let ghost bs = b@;
    let ghost sp = spans_of(code_blocks@);
    let ghost cs = start_pos as int;
    proof {
        lemma_str_bytes(text);
    }
    if let Some(end) = containing_block_end(target_end, code_blocks) {
        return Some(end);
    }
    let x = if target_end < n {
        target_end
    } else {
        n
    };
    let e = floor_boundary_of(b, start_pos, x);
    let ghost para = |p: int| paragraph_break_at(bs, sp, p);
    let ghost header = |p: int| header_break_at(bs, sp, p);
    let ghost sentence = |p: int| sentence_break_at(bs, sp, e as int, p);
    let ghost clause = |p: int| clause_break_at(bs, sp, p);
    let ghost space = |p: int| space_break_at(bs, sp, p);
    let mut last_para: Option<usize> = None;
    let mut last_header: Option<usize> = None;
    let mut last_sentence: Option<usize> = None;
    let mut last_clause: Option<usize> = None;
    let mut last_space: Option<usize> = None;
    let mut p = start_pos;
    while p < e
        invariant
            bs == b@,
            bs == text.spec_bytes(),
            valid_utf8(bs),
            n == bs.len(),
            sp == spans_of(code_blocks@),
            cs == start_pos,
            start_pos <= p <= e <= n,
            para == (|p: int| paragraph_break_at(bs, sp, p)),
            header == (|p: int| header_break_at(bs, sp, p)),
            sentence == (|p: int| sentence_break_at(bs, sp, e as int, p)),
            clause == (|p: int| clause_break_at(bs, sp, p)),
            space == (|p: int| space_break_at(bs, sp, p)),
            last_para is None <==> last_in(para, cs, p as int) is None,
            last_para matches Some(f) ==> last_in(para, cs, p as int) == Some(f as int),
            last_header is None <==> last_in(header, cs, p as int) is None,
            last_header matches Some(f) ==> last_in(header, cs, p as int) == Some(f as int),
            last_sentence is None <==> last_in(sentence, cs, p as int) is None,
            last_sentence matches Some(f) ==> last_in(sentence, cs, p as int) == Some(f as int),
            last_clause is None <==> last_in(clause, cs, p as int) is None,
            last_clause matches Some(f) ==> last_in(clause, cs, p as int) == Some(f as int),
            last_space is None <==> last_in(space, cs, p as int) is None,
            last_space matches Some(f) ==> last_in(space, cs, p as int) == Some(f as int),
        decreases e - p,
    {
        proof {
            vstd::utf8::is_char_boundary_iff_not_is_continuation_byte(bs, p as int);
        }
        let inside = is_inside_code_block(p, code_blocks);
        let byte = b[p];
        if byte == 0x0a && !inside && p > 0 && b[p - 1] == 0x0a {
            last_para = Some(p);
        }
        if byte == 0x0a && !inside && p + 1 < n && b[p + 1] == 0x23 {
            last_header = Some(p);
        }
        if !(0x80 <= byte && byte <= 0xbf) && !inside {
            if (byte == 0x2e || byte == 0x21 || byte == 0x3f) && p + 1 < e {
                proof {
                    vstd::utf8::is_char_boundary_iff_not_is_continuation_byte(bs, p + 1);
                }
                let next_inside = is_inside_code_block(p + 1, code_blocks);
                let next = b[p + 1];
                if !next_inside && !(0x80 <= next && next <= 0xbf) {
                    let (c, _w) = decode_at(b, p + 1);
                    if white_space_scalar(c) {
                        last_sentence = Some(p);
                    } else {
                        assert(!sentence(p as int));
                    }
                } else {
                    assert(!sentence(p as int));
                }
            } else {
                assert(!sentence(p as int));
            }
            if byte == 0x2c || byte == 0x3b {
                last_clause = Some(p);
                assert(!space(p as int));
            } else {
                assert(!clause(p as int));
                let (c, _w) = decode_at(b, p);
                if white_space_scalar(c) {
                    last_space = Some(p);
                } else {
                    assert(!space(p as int));
                }
            }
        } else {
            assert(!sentence(p as int));
            assert(!clause(p as int));
            assert(!space(p as int));
        }
        p = p + 1;
    }
    proof {
        lemma_last_in(para, cs, e as int);
        lemma_last_in(sentence, cs, e as int);
        lemma_last_in(clause, cs, e as int);
        lemma_last_in(space, cs, e as int);
    }
    if let Some(q) = last_para {
        return Some(q + 1);
    }
    if let Some(q) = last_header {
        return Some(q);
    }
    if let Some(q) = last_sentence {
        let (_c, w) = decode_at(b, q + 1);
        return Some(q + 1 + w);
    }
    if let Some(q) = last_clause {
        return Some(q + 1);
    }
    if let Some(q) = last_space {
        let (_c, w) = decode_at(b, q);
        return Some(q + w);
    }
    None
}


/// What the `cl100k_base` encoder of `tiktoken-rs` makes of `text`, all
/// special tokens allowed: the number of tokens, or `None` where the
/// encoder reports an error.
pub uninterp spec fn cl100k_token_count(text: Seq<char>) -> Option<usize>;

/// Counts the tokens of `text` with the `cl100k_base` encoder of
/// `tiktoken-rs` (`CoreBPE::encode`, every special token allowed), or gives
/// `None` where the encoder reports an error (its backtracking regex engine
/// gives up on some long inputs).  Claimed of the outside code: the result
/// is `cl100k_token_count` of the text; a count is at most the number of
/// bytes, since every token stands for at least one byte, and it is zero
/// exactly for the empty text, since the encoder's pattern matches every
/// character.  The encoder is built once from data inside that crate
/// (`cl100k_base_singleton`); that crate stops the program only if that data
/// fails to load.  Its search for special tokens, a plain alternation of
/// literals, does not fail.
#[verifier::external_body]
pub fn estimate_tokens(text: &str) -> (r: Option<usize>)
    ensures
        r == cl100k_token_count(text@),
        r matches Some(n) ==> n <= text.spec_bytes().len() && (n == 0 <==> text@.len() == 0),
{
    let bpe = tiktoken_rs::cl100k_base_singleton();
    match bpe.encode(text, &bpe.special_tokens()) {
        Ok((tokens, _)) => Some(tokens.len()),
        Err(_) => None,
    }
}

/// Why markdown could not be chunked.
#[derive(Debug, PartialEq, Eq, Structural)]
pub enum ChunkError {
    /// Every paragraph was empty, so no chunk was made.
    NoChunks,
    /// The tokenizer reported an error on a text it was asked to count.
    TokenizerFailed,
}

/// The text of a chunking error.
pub open spec fn chunk_error_text(e: ChunkError) -> Seq<char> {
    match e {
        ChunkError::NoChunks => "No chunks were created from content"@,
        ChunkError::TokenizerFailed => "The tokenizer could not encode the text"@,
    }
}

impl ChunkError {
    /// The error text.
    pub fn message(&self) -> (s: String)
        ensures
            s@ == chunk_error_text(*self),
    {
        let mut s = String::new();
        match self {
            ChunkError::NoChunks => push_str(&mut s, "No chunks were created from content"),
            ChunkError::TokenizerFailed => push_str(&mut s, "The tokenizer could not encode the text"),
        }
        s
    }
}

/// The token count of the text that the bytes `b[lo..hi)` encode.
pub open spec fn tokens_of(b: Seq<u8>, lo: int, hi: int) -> Option<usize> {
    cl100k_token_count(decode_utf8(b.subrange(lo, hi)))
}

/// `x` is a place to cut the bytes after `cs`: past `cs`, within the
/// bytes, on a character boundary.
pub open spec fn valid_cut(b: Seq<u8>, cs: int, x: int) -> bool {
    cs < x <= b.len() && is_char_boundary(b, x)
}

/// A cut at the character boundary at or before `fc`, or at the next one
/// after `cs` where there is none past `cs`.
pub open spec fn boundary_cut(b: Seq<u8>, cs: int, fc: int) -> int {
    let f = floor_boundary(b, cs, fc);
    if f > cs {
        f
    } else {
        next_boundary(b, cs)
    }
}

/// The cut made when no break point serves: `target` bytes ahead (or the
/// end), moved past the code block that it falls into, else back to a
/// character boundary.
pub open spec fn forced_cut(b: Seq<u8>, cs: int, target: usize, sp: Seq<(usize, usize)>) -> int {
    let fc = cs + if target < b.len() - cs {
        target as int
    } else {
        b.len() - cs
    };
    match containing_end(fc, sp) {
        Some(end) => if valid_cut(b, cs, end) {
            end
        } else {
            boundary_cut(b, cs, fc)
        },
        None => boundary_cut(b, cs, fc),
    }
}

/// Three quarters of `target`, the share of the target that the break
/// search looks ahead, in bytes.
pub open spec fn look_ahead(target: usize) -> int {
    target * 3 / 4
}

/// Where the piece of a paragraph that starts at `cs` ends when the rest is
/// over `target` tokens: the break point searched up to `look_ahead(target)`
/// bytes ahead (the end of that window saturating at `usize::MAX`), where it
/// is a place to cut; else the forced cut.
pub open spec fn next_break(b: Seq<u8>, cs: int, target: usize, sp: Seq<(usize, usize)>) -> int {
    let te = if cs + look_ahead(target) > usize::MAX {
        usize::MAX as int
    } else {
        cs + look_ahead(target)
    };
    match break_point(b, cs, te, sp) {
        Some(x) => if valid_cut(b, cs, x) {
            x
        } else {
            forced_cut(b, cs, target, sp)
        },
        None => forced_cut(b, cs, target, sp),
    }
}

/// The pieces that the bytes of a paragraph from `cs` on are cut into:
/// the rest whole once it fits in `target` tokens, else a piece up to the
/// next break and the pieces of what follows; `None` where the tokenizer
/// fails on a rest that it is asked to count.
pub open spec fn split_from(b: Seq<u8>, cs: int, target: usize, sp: Seq<(usize, usize)>) -> Option<
    Seq<Seq<u8>>,
>
    decreases b.len() - cs,
{
    if cs < 0 || cs >= b.len() {
        Some(Seq::empty())
    } else {
        match tokens_of(b, cs, b.len() as int) {
            None => None,
            Some(n) => if n <= target {
                Some(seq![b.subrange(cs, b.len() as int)])
            } else {
                let bp = next_break(b, cs, target, sp);
                if cs < bp <= b.len() {
                    match split_from(b, bp, target, sp) {
                        Some(rest) => Some(seq![b.subrange(cs, bp)] + rest),
                        None => None,
                    }
                } else {
                    None
                }
            },
        }
    }
}

pub open spec fn prepend_pieces(done: Seq<Seq<u8>>, rest: Option<Seq<Seq<u8>>>) -> Option<
    Seq<Seq<u8>>,
> {
    match rest {
        Some(r) => Some(done + r),
        None => None,
    }
}

fn forced_cut_of(b: &[u8], cs: usize, target: usize, code_blocks: &[(usize, usize, String)]) -> (r: usize)
    requires
        valid_utf8(b@),
        cs < b@.len(),
        is_char_boundary(b@, cs as int),
    ensures
        r == forced_cut(b@, cs as int, target, spans_of(code_blocks@)),
        valid_cut(b@, cs as int, r as int),
{
    let n = b.len();
    let fc = cs + if target < n - cs {
        target
    } else {
        n - cs
    };
    if let Some(end) = containing_block_end(fc, code_blocks) {
        if cs < end && end <= n && is_boundary(b, end) {
            return end;
        }
    }
    let f = floor_boundary_of(b, cs, fc);
    if f > cs {
        f
    } else {
        next_boundary_of(b, cs)
    }
}

/// Where the piece that starts at `cs` ends: `next_break`.
fn next_cut(para: &str, cs: usize, target: usize, code_blocks: &[(usize, usize, String)]) -> (r: usize)
    requires
        cs < para.spec_bytes().len(),
        is_char_boundary(para.spec_bytes(), cs as int),
    ensures
        r == next_break(para.spec_bytes(), cs as int, target, spans_of(code_blocks@)),
        valid_cut(para.spec_bytes(), cs as int, r as int),
{
    let b = para.as_bytes();
    let n = b.len();
    proof {
        lemma_str_bytes(para);
    }
    let ahead = ((target as u128) * 3 / 4) as usize;
    let target_end = if ahead > usize::MAX - cs {
        usize::MAX
    } else {
        cs + ahead
    };
    match find_break_point(para, cs, target_end, code_blocks) {
        Some(x) => {
            if cs < x && x <= n && is_boundary(b, x) {
                x
            } else {
                forced_cut_of(b, cs, target, code_blocks)
            }
        },
        None => forced_cut_of(b, cs, target, code_blocks),
    }
}

/// Splits a paragraph that is over `target_tokens` into pieces; fails only
/// where the tokenizer does.
pub fn split_large_paragraph(
    para: &str,
    target_tokens: usize,
    code_blocks: &[(usize, usize, String)],
) -> (r: Result<Vec<String>, ChunkError>)
    ensures
        match split_from(para.spec_bytes(), 0, target_tokens, spans_of(code_blocks@)) {
            Some(ps) => r matches Ok(pieces) && pieces.len() == ps.len() && (forall|i: int|
                0 <= i < ps.len() ==> utf8(#[trigger] pieces@[i]@) == ps[i]) && forall|i: int|
                0 <= i < ps.len() ==> #[trigger] piece_within_target(ps, 0, i, target_tokens, spans_of(code_blocks@)),
            None => r == Err::<Vec<String>, ChunkError>(ChunkError::TokenizerFailed),
        },
{
    let b = para.as_bytes();
    let n = b.len();
    let ghost bs = b@;
    let ghost sp = spans_of(code_blocks@);
    proof {
        lemma_str_bytes(para);
    }
    let mut chunks: Vec<String> = Vec::new();
    let ghost mut done: Seq<Seq<u8>> = Seq::empty();
    let mut current_start: usize = 0;
    while current_start < n
        invariant
            bs == b@,
            bs == para.spec_bytes(),
            valid_utf8(bs),
            n == bs.len(),
            sp == spans_of(code_blocks@),
            current_start <= n,
            is_char_boundary(bs, current_start as int),
            is_char_boundary(bs, n as int),
            chunks.len() == done.len(),
            forall|i: int| 0 <= i < done.len() ==> utf8(#[trigger] chunks@[i]@) == done[i],
            split_from(bs, 0, target_tokens, sp) == prepend_pieces(
                done,
                split_from(bs, current_start as int, target_tokens, sp),
            ),
        decreases n - current_start,
    {
        let remaining = substr(para, current_start, n);
        let remaining_tokens = match estimate_tokens(remaining) {
            Some(t) => t,
            None => {
                return Err(ChunkError::TokenizerFailed);
            },
        };
        if remaining_tokens <= target_tokens {
            let piece = remaining.to_owned();
            proof {
                lemma_str_bytes(remaining);
                done = done.push(bs.subrange(current_start as int, n as int));
                assert(done =~= done.drop_last() + seq![bs.subrange(current_start as int, n as int)]);
            }
            chunks.push(piece);
            proof {
                assert forall|i: int| 0 <= i < done.len() implies utf8(#[trigger] chunks@[i]@) == done[i] by {}
                assert(split_from(bs, 0, target_tokens, sp) == Some(done));
                lemma_split_piece_sizes(bs, 0, target_tokens, sp);
            }
            return Ok(chunks);
        }
        let break_point = next_cut(para, current_start, target_tokens, code_blocks);
        let piece_str = substr(para, current_start, break_point);
        let piece = piece_str.to_owned();
        proof {
            lemma_str_bytes(piece_str);
            let old_done = done;
            done = done.push(bs.subrange(current_start as int, break_point as int));
            assert(split_from(bs, current_start as int, target_tokens, sp) == prepend_pieces(
                seq![bs.subrange(current_start as int, break_point as int)],
                split_from(bs, break_point as int, target_tokens, sp),
            ));
            match split_from(bs, break_point as int, target_tokens, sp) {
                Some(rest) => {
                    assert(old_done + (seq![bs.subrange(current_start as int, break_point as int)]
                        + rest) =~= done + rest);
                },
                None => {},
            }
        }
        chunks.push(piece);
        current_start = break_point;
    }
    proof {
        assert(done + Seq::<Seq<u8>>::empty() =~= done);
        lemma_split_piece_sizes(bs, 0, target_tokens, sp);
    }
    Ok(chunks)
}


/// Where the `i`-th piece between the matches `sp` of a text of `len` bytes
/// starts and ends.
pub open spec fn piece_bounds(sp: Seq<(usize, usize)>, len: int, i: int) -> (int, int) {
    (
        if i == 0 {
            0
        } else {
            sp[i - 1].1 as int
        },
        if i == sp.len() {
            len
        } else {
            sp[i].0 as int
        },
    )
}

/// Two spans share a byte.
pub open spec fn overlaps(a: (usize, usize), c: (usize, usize)) -> bool {
    c.0 < a.1 && a.0 < c.1
}

/// `a` shares a byte with one of the spans `csp`.
pub open spec fn overlaps_any(a: (usize, usize), csp: Seq<(usize, usize)>) -> bool {
    exists|i: int| 0 <= i < csp.len() && overlaps(a, #[trigger] csp[i])
}

/// The paragraph breaks `psp` that share no byte with a code block `csp`:
/// a blank line inside a code block does not end a paragraph.
pub open spec fn kept_separators(psp: Seq<(usize, usize)>, csp: Seq<(usize, usize)>) -> Seq<
    (usize, usize),
>
    decreases psp.len(),
{
    if psp.len() == 0 {
        Seq::empty()
    } else {
        let rest = kept_separators(psp.drop_last(), csp);
        if overlaps_any(psp.last(), csp) {
            rest
        } else {
            rest.push(psp.last())
        }
    }
}

/// The paragraph breaks of `text`.
pub open spec fn separators_of(text: Seq<char>) -> Seq<(usize, usize)> {
    kept_separators(pattern_spans(PARAGRAPH_PATTERN@, text), pattern_spans(CODE_BLOCK_PATTERN@, text))
}

/// The byte range of the `i`-th paragraph of `text`: the piece between two
/// breaks, without its leading and trailing white space.
pub open spec fn paragraph_bounds(text: Seq<char>, i: int) -> (int, int) {
    let b = utf8(text);
    let pb = piece_bounds(separators_of(text), b.len() as int, i);
    let t = trim_range(b.subrange(pb.0, pb.1));
    (pb.0 + t.0, pb.0 + t.1)
}

/// The paragraphs of `text`: the pieces between its paragraph breaks, each
/// trimmed.
pub open spec fn paragraphs_of(text: Seq<char>) -> Seq<Seq<char>> {
    let b = utf8(text);
    let sp = separators_of(text);
    Seq::new(
        sp.len() + 1,
        |i: int|
            trimmed(
                decode_utf8(
                    b.subrange(piece_bounds(sp, b.len() as int, i).0, piece_bounds(sp, b.len() as int, i).1),
                ),
            ),
    )
}

/// The part of `span` within `[x, y)`, counted from `x`.
pub open spec fn clip_span(span: (usize, usize), x: int, y: int) -> (usize, usize) {
    (
        ((if span.0 < x {
            x
        } else {
            span.0 as int
        }) - x) as usize,
        ((if span.1 > y {
            y
        } else {
            span.1 as int
        }) - x) as usize,
    )
}

/// The spans that share a byte with `[x, y)`, cut to it and counted from
/// `x`.
pub open spec fn spans_within(sp: Seq<(usize, usize)>, x: int, y: int) -> Seq<(usize, usize)>
    decreases sp.len(),
{
    if sp.len() == 0 {
        Seq::empty()
    } else {
        let rest = spans_within(sp.drop_last(), x, y);
        if (sp.last().0 as int) < y && x < (sp.last().1 as int) {
            rest.push(clip_span(sp.last(), x, y))
        } else {
            rest
        }
    }
}

/// The code-block spans of each paragraph of `text`, counted from the
/// paragraph's first byte.
pub open spec fn paragraph_spans(text: Seq<char>) -> Seq<Seq<(usize, usize)>> {
    Seq::new(
        separators_of(text).len() + 1,
        |i: int|
            spans_within(
                pattern_spans(CODE_BLOCK_PATTERN@, text),
                paragraph_bounds(text, i).0,
                paragraph_bounds(text, i).1,
            ),
    )
}

fn overlaps_code(s: (usize, usize), csp: &Vec<(usize, usize)>) -> (r: bool)
    ensures
        r == overlaps_any(s, csp@),
{
    let mut i: usize = 0;
    while i < csp.len()
        invariant
            i <= csp.len(),
            forall|k: int| 0 <= k < i ==> !overlaps(s, #[trigger] csp@[k]),
        decreases csp.len() - i,
    {
        let c = csp[i];
        if c.0 < s.1 && s.0 < c.1 {
            assert(overlaps(s, csp@[i as int]));
            return true;
        }
        i = i + 1;
    }
    false
}

fn keep_separators(psp: &Vec<(usize, usize)>, csp: &Vec<(usize, usize)>) -> (r: Vec<(usize, usize)>)
    ensures
        r@ == kept_separators(psp@, csp@),
{
    let mut out: Vec<(usize, usize)> = Vec::new();
    let mut i: usize = 0;
    while i < psp.len()
        invariant
            i <= psp.len(),
            out@ == kept_separators(psp@.take(i as int), csp@),
        decreases psp.len() - i,
    {
        let s = psp[i];
        proof {
            assert(psp@.take(i + 1).drop_last() =~= psp@.take(i as int));
            assert(psp@.take(i + 1).last() == s);
        }
        if !overlaps_code(s, csp) {
            out.push(s);
        }
        i = i + 1;
    }
    proof {
        assert(psp@.take(psp.len() as int) =~= psp@);
    }
    out
}

/// The kept breaks are breaks of `psp`, in order, so they stay well formed.
proof fn lemma_kept_well_formed(psp: Seq<(usize, usize)>, csp: Seq<(usize, usize)>, bytes: Seq<u8>)
    requires
        spans_well_formed(psp, bytes),
    ensures
        spans_well_formed(kept_separators(psp, csp), bytes),
        forall|k: int|
            0 <= k < kept_separators(psp, csp).len() ==> exists|i: int|
                0 <= i < psp.len() && #[trigger] kept_separators(psp, csp)[k] == psp[i],
    decreases psp.len(),
{
    if psp.len() > 0 {
        let pre = psp.drop_last();
        assert forall|i: int| 0 <= i < pre.len() implies span_fits(#[trigger] pre[i], bytes) by {
            assert(pre[i] == psp[i]);
        }
        assert forall|i: int, j: int| 0 <= i < j < pre.len() implies #[trigger] pre[i].1
            <= #[trigger] pre[j].0 by {
            assert(pre[i] == psp[i] && pre[j] == psp[j]);
        }
        lemma_kept_well_formed(pre, csp, bytes);
        let k0 = kept_separators(pre, csp);
        let last = psp.last();
        if !overlaps_any(last, csp) {
            let k1 = k0.push(last);
            assert forall|k: int| 0 <= k < k1.len() implies exists|i: int|
                0 <= i < psp.len() && #[trigger] k1[k] == psp[i] by {
                if k < k0.len() {
                    let i = choose|i: int| 0 <= i < pre.len() && #[trigger] k0[k] == pre[i];
                    assert(k1[k] == psp[i]);
                } else {
                    assert(k1[k] == psp[psp.len() - 1]);
                }
            }
            assert forall|i: int, j: int| 0 <= i < j < k1.len() implies #[trigger] k1[i].1
                <= #[trigger] k1[j].0 by {
                if j < k0.len() {
                    assert(k1[i] == k0[i] && k1[j] == k0[j]);
                } else {
                    let m = choose|m: int| 0 <= m < pre.len() && #[trigger] k0[i] == pre[m];
                    assert(k1[i] == psp[m]);
                    assert(k1[j] == psp[psp.len() - 1]);
                }
            }
            assert forall|i: int| 0 <= i < k1.len() implies span_fits(#[trigger] k1[i], bytes) by {
                if i < k0.len() {
                    assert(k1[i] == k0[i]);
                } else {
                    assert(k1[i] == psp[psp.len() - 1]);
                }
            }
        } else {
            assert forall|k: int| 0 <= k < k0.len() implies exists|i: int|
                0 <= i < psp.len() && #[trigger] k0[k] == psp[i] by {
                let i = choose|i: int| 0 <= i < pre.len() && #[trigger] k0[k] == pre[i];
                assert(k0[k] == psp[i]);
            }
        }
    }
}

/// Clips the code blocks to `[x, y)`, counted from `x`.
fn blocks_within(code_blocks: &Vec<(usize, usize, String)>, x: usize, y: usize) -> (r: Vec<
    (usize, usize, String),
>)
    requires
        x <= y,
    ensures
        spans_of(r@) == spans_within(spans_of(code_blocks@), x as int, y as int),
{
    let ghost sp = spans_of(code_blocks@);
    let mut out: Vec<(usize, usize, String)> = Vec::new();
    let mut i: usize = 0;
    while i < code_blocks.len()
        invariant
            x <= y,
            sp == spans_of(code_blocks@),
            i <= code_blocks.len(),
            spans_of(out@) == spans_within(sp.take(i as int), x as int, y as int),
        decreases code_blocks.len() - i,
    {
        let s = code_blocks[i].0;
        let e = code_blocks[i].1;
        proof {
            assert(sp.take(i + 1).drop_last() =~= sp.take(i as int));
            assert(sp.take(i + 1).last() == (s, e));
        }
        if s < y && x < e {
            let cs = if s < x {
                x
            } else {
                s
            };
            let ce = if e > y {
                y
            } else {
                e
            };
            let ghost prev = out@;
            out.push((cs - x, ce - x, String::new()));
            proof {
                assert(spans_of(out@) =~= spans_of(prev).push(clip_span((s, e), x as int, y as int)));
            }
        }
        i = i + 1;
    }
    proof {
        assert(sp.take(code_blocks.len() as int) =~= sp);
    }
    out
}

/// One paragraph, with its code-block spans `psp`, folded into the chunks
/// made so far and the text being gathered: appended when the result still
/// fits in `target` tokens; otherwise the gathered text is closed as a
/// chunk, and the paragraph either starts the next one or, when it alone is
/// over the target, is split into chunks of its own.  `None` where the
/// tokenizer fails.
pub open spec fn chunk_step(
    chunks: Seq<Seq<char>>,
    current: Seq<char>,
    para: Seq<char>,
    psp: Seq<(usize, usize)>,
    target: usize,
) -> Option<(Seq<Seq<char>>, Seq<char>)> {
    if para.len() == 0 {
        Some((chunks, current))
    } else {
        let potential = if current.len() == 0 {
            para
        } else {
            current + seq!['\n', '\n'] + para
        };
        match cl100k_token_count(potential) {
            None => None,
            Some(n) => if n <= target {
                Some((chunks, potential))
            } else {
                let closed = if current.len() > 0 {
                    chunks.push(current)
                } else {
                    chunks
                };
                match cl100k_token_count(para) {
                    None => None,
                    Some(m) => if m > target {
                        match split_from(utf8(para), 0, target, psp) {
                            Some(ps) => Some(
                                (closed + ps.map_values(|p: Seq<u8>| decode_utf8(p)), Seq::empty()),
                            ),
                            None => None,
                        }
                    } else {
                        Some((closed, para))
                    },
                }
            },
        }
    }
}

/// The paragraphs `paras`, with their code-block spans `pspans`, folded in
/// order.
pub open spec fn chunk_fold(
    paras: Seq<Seq<char>>,
    pspans: Seq<Seq<(usize, usize)>>,
    target: usize,
) -> Option<(Seq<Seq<char>>, Seq<char>)>
    decreases paras.len(),
{
    if paras.len() == 0 {
        Some((Seq::empty(), Seq::empty()))
    } else {
        match chunk_fold(paras.drop_last(), pspans, target) {
            Some((chunks, current)) => chunk_step(
                chunks,
                current,
                paras.last(),
                pspans[paras.len() - 1],
                target,
            ),
            None => None,
        }
    }
}

/// The chunks of a fold state, the text being gathered included.
pub open spec fn state_texts(chunks: Seq<Seq<char>>, current: Seq<char>) -> Seq<Seq<char>> {
    if current.len() > 0 {
        chunks.push(current)
    } else {
        chunks
    }
}

/// The chunk texts that `chunk_markdown` makes of `content`.
pub open spec fn chunk_plan(content: Seq<char>, target: usize) -> Result<Seq<Seq<char>>, ChunkError> {
    match chunk_fold(paragraphs_of(content), paragraph_spans(content), target) {
        None => Err(ChunkError::TokenizerFailed),
        Some((chunks, current)) => {
            let all = state_texts(chunks, current);
            if exists|i: int| 0 <= i < all.len() && (#[trigger] cl100k_token_count(all[i])) is None {
                Err(ChunkError::TokenizerFailed)
            } else if all.len() == 0 {
                Err(ChunkError::NoChunks)
            } else {
                Ok(all)
            }
        },
    }
}

/// A chunk carries `text`, whether the code-block pattern matches in it, and
/// its token count.
pub open spec fn chunk_describes(chunk: MarkdownChunk, text: Seq<char>) -> bool {
    &&& chunk.content@ == text
    &&& chunk.contains_code == (pattern_spans(CODE_BLOCK_PATTERN@, text).len() > 0)
    &&& cl100k_token_count(text) == Some(chunk.token_count)
    &&& chunk.token_count <= utf8(text).len()
}

pub open spec fn chunks_describe(chunks: Seq<MarkdownChunk>, texts: Seq<Seq<char>>) -> bool {
    &&& chunks.len() == texts.len()
    &&& forall|i: int| 0 <= i < texts.len() ==> chunk_describes(#[trigger] chunks[i], texts[i])
}

/// The characters of each string.
pub open spec fn views(v: Seq<String>) -> Seq<Seq<char>> {
    v.map_values(|s: String| s@)
}

fn make_chunk(text: String, code_re: &Option<CompiledRegex>) -> (r: Option<MarkdownChunk>)
    requires
        compiled_from(*code_re, CODE_BLOCK_PATTERN@),
    ensures
        match r {
            Some(chunk) => chunk_describes(chunk, text@),
            None => cl100k_token_count(text@) is None,
        },
{
    let contains_code = spans_of_pattern(code_re, text.as_str()).len() > 0;
    let view = text.as_str();
    proof {
        lemma_str_bytes(view);
    }
    match estimate_tokens(view) {
        Some(token_count) => Some(MarkdownChunk::new(text, contains_code, token_count)),
        None => None,
    }
}

/// Folds one paragraph, with its code-block spans, into the chunk texts and
/// the text being gathered.
fn add_paragraph(
    texts: &mut Vec<String>,
    current_text: &mut String,
    para: &str,
    para_blocks: &Vec<(usize, usize, String)>,
    target_tokens: usize,
) -> (r: Result<(), ChunkError>)
    ensures
        match chunk_step(views(old(texts)@), old(current_text)@, para@, spans_of(para_blocks@), target_tokens) {
            Some((texts2, current2)) => r is Ok && views(final(texts)@) == texts2
                && final(current_text)@ == current2,
            None => r == Err::<(), ChunkError>(ChunkError::TokenizerFailed),
        },
{
    if para.is_empty() {
        return Ok(());
    }
    let mut potential = current_text.clone();
    if !current_text.as_str().is_empty() {
        proof {
            reveal_strlit("\n\n");
        }
        push_str(&mut potential, "\n\n");
    }
    push_str(&mut potential, para);
    proof {
        reveal_strlit("\n\n");
        if current_text@.len() == 0 {
            assert(potential@ =~= para@);
        } else {
            assert(potential@ =~= current_text@ + seq!['\n', '\n'] + para@);
        }
    }
    let potential_tokens = match estimate_tokens(potential.as_str()) {
        Some(t) => t,
        None => {
            return Err(ChunkError::TokenizerFailed);
        },
    };
    if potential_tokens <= target_tokens {
        *current_text = potential;
        return Ok(());
    }
    if !current_text.as_str().is_empty() {
        let closed = current_text.clone();
        let ghost prev = texts@;
        texts.push(closed);
        *current_text = String::new();
        proof {
            assert(views(texts@) =~= views(prev).push(old(current_text)@));
        }
    }
    let para_tokens = match estimate_tokens(para) {
        Some(t) => t,
        None => {
            return Err(ChunkError::TokenizerFailed);
        },
    };
    if para_tokens > target_tokens {
        let pieces = match split_large_paragraph(para, target_tokens, para_blocks.as_slice()) {
            Ok(pieces) => pieces,
            Err(e) => {
                proof {
                    lemma_str_bytes(para);
                }
                return Err(e);
            },
        };
        let ghost sp = spans_of(para_blocks@);
        proof {
            lemma_str_bytes(para);
        }
        let ghost ps = split_from(utf8(para@), 0, target_tokens, sp).unwrap();
        let ghost base = views(texts@);
        let mut k: usize = 0;
        while k < pieces.len()
            invariant
                ps.len() == pieces.len(),
                forall|i: int| 0 <= i < ps.len() ==> utf8(#[trigger] pieces@[i]@) == ps[i],
                k <= pieces.len(),
                views(texts@) == base + ps.map_values(|p: Seq<u8>| decode_utf8(p)).take(k as int),
            decreases pieces.len() - k,
        {
            let piece = pieces[k].clone();
            let ghost prev = texts@;
            texts.push(piece);
            proof {
                vstd::utf8::encode_utf8_decode_utf8(pieces@[k as int]@);
                let m = ps.map_values(|p: Seq<u8>| decode_utf8(p));
                assert(m[k as int] == pieces@[k as int]@);
                assert(m.take(k + 1) =~= m.take(k as int).push(m[k as int]));
                assert(views(texts@) =~= views(prev).push(m[k as int]));
            }
            k = k + 1;
        }
        proof {
            let m = ps.map_values(|p: Seq<u8>| decode_utf8(p));
            assert(m.take(m.len() as int) =~= m);
            assert(current_text@ =~= Seq::<char>::empty());
        }
        Ok(())
    } else {
        *current_text = para.to_owned();
        Ok(())
    }
}

/// The `i`-th paragraph of `content` with its byte range.
fn paragraph_at<'a>(content: &'a str, seps: &Vec<(usize, usize)>, i: usize) -> (r: (&'a str, usize, usize))
    requires
        seps@ == separators_of(content@),
        spans_well_formed(seps@, content.spec_bytes()),
        i <= seps.len(),
    ensures
        r.0@ == paragraphs_of(content@)[i as int],
        r.1 as int == paragraph_bounds(content@, i as int).0,
        r.2 as int == paragraph_bounds(content@, i as int).1,
        r.1 <= r.2,
{
    proof {
        lemma_str_bytes(content);
    }
    let lo = if i == 0 {
        0
    } else {
        seps[i - 1].1
    };
    let hi = if i == seps.len() {
        content.as_bytes().len()
    } else {
        seps[i].0
    };
    proof {
        if i > 0 && i < seps.len() {
            assert(seps@[i - 1].1 <= seps@[i as int].0);
        }
        if i < seps.len() {
            assert(span_fits(seps@[i as int], content.spec_bytes()));
        }
        if i > 0 {
            assert(span_fits(seps@[i - 1], content.spec_bytes()));
        }
        let b = utf8(content@);
        let sp = separators_of(content@);
        assert(piece_bounds(sp, b.len() as int, i as int) == (lo as int, hi as int));
    }
    let piece = substr(content, lo, hi);
    let (t0, t1) = trim_offsets(piece);
    let para = substr(piece, t0, t1);
    proof {
        lemma_str_bytes(piece);
        let b = utf8(content@);
        assert(paragraphs_of(content@)[i as int] == trimmed(decode_utf8(b.subrange(lo as int, hi as int))));
    }
    (para, lo + t0, lo + t1)
}

proof fn lemma_fold_step(
    paras: Seq<Seq<char>>,
    pspans: Seq<Seq<(usize, usize)>>,
    k: int,
    target: usize,
)
    requires
        0 <= k < paras.len(),
    ensures
        chunk_fold(paras.take(k + 1), pspans, target) == match chunk_fold(paras.take(k), pspans, target) {
            Some((chunks, current)) => chunk_step(chunks, current, paras[k], pspans[k], target),
            None => None,
        },
{
    assert(paras.take(k + 1).drop_last() =~= paras.take(k));
    assert(paras.take(k + 1).last() == paras[k]);
}

proof fn lemma_fold_stuck(paras: Seq<Seq<char>>, pspans: Seq<Seq<(usize, usize)>>, k: int, target: usize)
    requires
        0 <= k <= paras.len(),
        chunk_fold(paras.take(k), pspans, target) is None,
    ensures
        chunk_fold(paras, pspans, target) is None,
    decreases paras.len() - k,
{
    if k == paras.len() {
        assert(paras.take(k) =~= paras);
    } else {
        lemma_fold_step(paras, pspans, k, target);
        lemma_fold_stuck(paras, pspans, k + 1, target);
    }
}

/// Chunks markdown content into segments of about `target_tokens` tokens:
/// paragraphs (a blank line inside a code block does not end one) are
/// gathered while they fit, and a paragraph over the target is split at the
/// best break points, never inside one of its code blocks.  Fails only where
/// the tokenizer does, or where every paragraph is empty.
pub fn chunk_markdown(content: &str, target_tokens: usize) -> (r: Result<Vec<MarkdownChunk>, ChunkError>)
    ensures
        match chunk_plan(content@, target_tokens) {
            Ok(texts) => r matches Ok(chunks) && chunks_describe(chunks@, texts),
            Err(e) => r == Err::<Vec<MarkdownChunk>, ChunkError>(e),
        },
{
    let code_re = compile_regex(CODE_BLOCK_PATTERN);
    let code_spans = spans_of_pattern(&code_re, content);
    let code_blocks = code_blocks_from_spans(content, &code_spans);
    let para_re = compile_regex(PARAGRAPH_PATTERN);
    let para_spans = spans_of_pattern(&para_re, content);
    let seps = keep_separators(&para_spans, &code_spans);
    proof {
        lemma_kept_well_formed(para_spans@, code_spans@, content.spec_bytes());
    }
    let ghost paras = paragraphs_of(content@);
    let ghost pspans = paragraph_spans(content@);
    let ghost sp = pattern_spans(CODE_BLOCK_PATTERN@, content@);
    let mut texts: Vec<String> = Vec::new();
    let mut current_text = String::new();
    let n = seps.len();
    let mut i: usize = 0;
    proof {
        assert(paras.take(0) =~= Seq::<Seq<char>>::empty());
        assert(views(texts@) =~= Seq::<Seq<char>>::empty());
    }
    while i < n
        invariant
            compiled_from(code_re, CODE_BLOCK_PATTERN@),
            seps@ == separators_of(content@),
            spans_well_formed(seps@, content.spec_bytes()),
            paras == paragraphs_of(content@),
            pspans == paragraph_spans(content@),
            paras.len() == n + 1,
            pspans.len() == n + 1,
            n == seps.len(),
            sp == pattern_spans(CODE_BLOCK_PATTERN@, content@),
            spans_of(code_blocks@) == sp,
            i <= n,
            chunk_fold(paras.take(i as int), pspans, target_tokens) == Some((views(texts@), current_text@)),
        decreases n - i,
    {
        let (para, x, y) = paragraph_at(content, &seps, i);
        let para_blocks = blocks_within(&code_blocks, x, y);
        proof {
            lemma_fold_step(paras, pspans, i as int, target_tokens);
        }
        match add_paragraph(&mut texts, &mut current_text, para, &para_blocks, target_tokens) {
            Ok(()) => {},
            Err(e) => {
                proof {
                    lemma_fold_stuck(paras, pspans, i + 1, target_tokens);
                }
                return Err(e);
            },
        }
        i = i + 1;
    }
    let (para, x, y) = paragraph_at(content, &seps, n);
    let para_blocks = blocks_within(&code_blocks, x, y);
    proof {
        lemma_fold_step(paras, pspans, n as int, target_tokens);
    }
    match add_paragraph(&mut texts, &mut current_text, para, &para_blocks, target_tokens) {
        Ok(()) => {},
        Err(e) => {
            proof {
                lemma_fold_stuck(paras, pspans, n + 1, target_tokens);
            }
            return Err(e);
        },
    }
    proof {
        assert(paras.take(n + 1) =~= paras);
    }
    let ghost folded = views(texts@);
    let ghost gathered = current_text@;
    if !current_text.as_str().is_empty() {
        let ghost prev = texts@;
        texts.push(current_text);
        proof {
            assert(views(texts@) =~= views(prev).push(gathered));
        }
    }
    let ghost all = views(texts@);
    assert(all == state_texts(folded, gathered));
    let mut chunks: Vec<MarkdownChunk> = Vec::new();
    let mut k: usize = 0;
    while k < texts.len()
        invariant
            compiled_from(code_re, CODE_BLOCK_PATTERN@),
            all == views(texts@),
            k <= texts.len(),
            chunks_describe(chunks@, all.take(k as int)),
            forall|j: int| 0 <= j < k ==> (#[trigger] cl100k_token_count(all[j])) is Some,
            chunk_fold(paragraphs_of(content@), paragraph_spans(content@), target_tokens) == Some(
                (folded, gathered),
            ),
            all == state_texts(folded, gathered),
        decreases texts.len() - k,
    {
        let text = texts[k].clone();
        match make_chunk(text, &code_re) {
            Some(chunk) => {
                let ghost prev = chunks@;
                chunks.push(chunk);
                proof {
                    assert(all[k as int] == texts@[k as int]@);
                    assert forall|j: int| 0 <= j < k + 1 implies chunk_describes(
                        #[trigger] chunks@[j],
                        all.take(k + 1)[j],
                    ) by {
                        if j < k {
                            assert(chunks@[j] == prev[j]);
                            assert(all.take(k + 1)[j] == all.take(k as int)[j]);
                        }
                    }
                }
            },
            None => {
                proof {
                    assert(all[k as int] == texts@[k as int]@);
                    assert(0 <= k < all.len() && cl100k_token_count(all[k as int]) is None);
                }
                return Err(ChunkError::TokenizerFailed);
            },
        }
        k = k + 1;
    }
    proof {
        assert(all.take(all.len() as int) =~= all);
    }
    if chunks.len() == 0 {
        return Err(ChunkError::NoChunks);
    }
    Ok(chunks)
}


/// `text` tokenizes to at most `target` tokens.
pub open spec fn fits(text: Seq<char>, target: usize) -> bool {
    cl100k_token_count(text) matches Some(n) && n <= target
}

proof fn lemma_boundary_cut_valid(b: Seq<u8>, cs: int, fc: int)
    requires
        valid_utf8(b),
        0 <= cs < b.len(),
        is_char_boundary(b, cs),
        cs <= fc <= b.len(),
    ensures
        valid_cut(b, cs, boundary_cut(b, cs, fc)),
{
    let pred = |q: int| boundary_at(b, q);
    vstd::utf8::is_char_boundary_start_end_of_seq(b);
    lemma_last_in(pred, cs, fc + 1);
    lemma_first_in(pred, cs + 1, b.len() as int + 1);
    assert(pred(cs));
    assert(pred(b.len() as int));
}

/// The next break of a piece that starts on a character boundary before the
/// end is a place to cut: a piece always moves forward.
pub proof fn lemma_next_break_valid(b: Seq<u8>, cs: int, target: usize, sp: Seq<(usize, usize)>)
    requires
        valid_utf8(b),
        0 <= cs < b.len(),
        is_char_boundary(b, cs),
    ensures
        valid_cut(b, cs, next_break(b, cs, target, sp)),
{
    let fc = cs + if target < b.len() - cs {
        target as int
    } else {
        b.len() - cs
    };
    lemma_boundary_cut_valid(b, cs, fc);
}

/// Splitting a paragraph neither loses nor adds text: every piece is
/// non-empty valid UTF-8, and the pieces put back together are the bytes
/// from `cs` to the end.
pub proof fn lemma_split_preserves_text(b: Seq<u8>, cs: int, target: usize, sp: Seq<(usize, usize)>)
    requires
        valid_utf8(b),
        0 <= cs <= b.len(),
        is_char_boundary(b, cs),
        split_from(b, cs, target, sp) is Some,
    ensures
        split_from(b, cs, target, sp).unwrap().flatten() == b.subrange(cs, b.len() as int),
        forall|i: int|
            0 <= i < split_from(b, cs, target, sp).unwrap().len() ==> {
                &&& (#[trigger] split_from(b, cs, target, sp).unwrap()[i]).len() > 0
                &&& valid_utf8(split_from(b, cs, target, sp).unwrap()[i])
            },
    decreases b.len() - cs,
{
    let ps = split_from(b, cs, target, sp).unwrap();
    vstd::utf8::valid_utf8_split(b, cs);
    if cs >= b.len() {
        assert(b.subrange(cs, b.len() as int) =~= Seq::<u8>::empty());
    } else if tokens_of(b, cs, b.len() as int).unwrap() <= target {
        ps.lemma_flatten_one_element();
    } else {
        let bp = next_break(b, cs, target, sp);
        lemma_next_break_valid(b, cs, target, sp);
        let rest = split_from(b, bp, target, sp).unwrap();
        lemma_split_preserves_text(b, bp, target, sp);
        let piece = b.subrange(cs, bp);
        assert(ps.first() == piece);
        assert(ps.drop_first() =~= rest);
        assert(piece + b.subrange(bp, b.len() as int) =~= b.subrange(cs, b.len() as int));
        let t = b.subrange(cs, b.len() as int);
        lemma_boundary_in_tail(b, cs, bp);
        vstd::utf8::valid_utf8_split(t, bp - cs);
        assert(t.subrange(0, bp - cs) =~= piece);
        assert forall|i: int| 0 <= i < ps.len() implies {
            &&& (#[trigger] ps[i]).len() > 0
            &&& valid_utf8(ps[i])
        } by {
            if i > 0 {
                assert(ps[i] == rest[i - 1]);
            }
        }
    }
}

proof fn lemma_decode_nonempty(b: Seq<u8>)
    requires
        valid_utf8(b),
        b.len() > 0,
    ensures
        decode_utf8(b).len() > 0,
{
    vstd::utf8::decode_utf8_encode_utf8(b);
    if decode_utf8(b).len() == 0 {
        assert(encode_utf8(decode_utf8(b)) =~= Seq::<u8>::empty());
    }
}

/// What every state of the chunk fold keeps: no chunk text is empty, and
/// nothing has been gathered exactly while every paragraph so far was empty.
pub proof fn lemma_fold_state(paras: Seq<Seq<char>>, pspans: Seq<Seq<(usize, usize)>>, target: usize)
    ensures
        chunk_fold(paras, pspans, target) matches Some((chunks, current)) ==> {
            &&& forall|i: int| 0 <= i < chunks.len() ==> (#[trigger] chunks[i]).len() > 0
            &&& (chunks.len() == 0 && current.len() == 0) <==> forall|j: int|
                0 <= j < paras.len() ==> (#[trigger] paras[j]).len() == 0
        },
    decreases paras.len(),
{
    if paras.len() > 0 {
        let prefix = paras.drop_last();
        lemma_fold_state(prefix, pspans, target);
        if let Some((chunks0, current0)) = chunk_fold(prefix, pspans, target) {
            let para = paras.last();
            assert(forall|j: int| 0 <= j < prefix.len() ==> prefix[j] == paras[j]);
            if para.len() > 0 {
                let potential = if current0.len() == 0 {
                    para
                } else {
                    current0 + seq!['\n', '\n'] + para
                };
                let psp = pspans[paras.len() - 1];
                if !fits(potential, target) && cl100k_token_count(potential) is Some && !fits(para, target) && cl100k_token_count(para) is Some {
                    let b = utf8(para);
                    vstd::utf8::encode_utf8_valid_utf8(para);
                    if let Some(ps) = split_from(b, 0, target, psp) {
                        lemma_split_preserves_text(b, 0, target, psp);
                        vstd::utf8::encode_utf8_decode_utf8(para);
                        let closed = if current0.len() > 0 {
                            chunks0.push(current0)
                        } else {
                            chunks0
                        };
                        let m = ps.map_values(|p: Seq<u8>| decode_utf8(p));
                        assert forall|i: int| 0 <= i < m.len() implies (#[trigger] m[i]).len() > 0 by {
                            lemma_decode_nonempty(ps[i]);
                        }
                        assert((closed + m).len() > 0) by {
                            if ps.len() == 0 {
                                assert(ps.flatten() =~= Seq::<u8>::empty());
                                assert(b.subrange(0, b.len() as int) =~= b);
                                if b.len() == 0 {
                                    assert(para =~= decode_utf8(b));
                                }
                            }
                        }
                        assert forall|i: int| 0 <= i < (closed + m).len() implies (#[trigger] (
                        closed + m)[i]).len() > 0 by {
                            if i >= closed.len() {
                                assert((closed + m)[i] == m[i - closed.len()]);
                            }
                        }
                    }
                }
            }
        }
    }
}

/// `chunk_markdown` reports that no chunk was made exactly when every
/// paragraph is empty, and otherwise every chunk it makes is non-empty.
pub proof fn lemma_chunk_plan_nonempty(content: Seq<char>, target: usize)
    ensures
        (chunk_plan(content, target) == Err::<Seq<Seq<char>>, ChunkError>(ChunkError::NoChunks))
            <==> (chunk_fold(
            paragraphs_of(content),
            paragraph_spans(content),
            target,
        ) is Some && forall|j: int|
            0 <= j < paragraphs_of(content).len() ==> (#[trigger] paragraphs_of(content)[j]).len()
                == 0),
        chunk_plan(content, target) matches Ok(texts) ==> texts.len() > 0 && forall|i: int|
            0 <= i < texts.len() ==> (#[trigger] texts[i]).len() > 0,
{
    let paras = paragraphs_of(content);
    let pspans = paragraph_spans(content);
    lemma_fold_state(paras, pspans, target);
    if let Some((chunks, current)) = chunk_fold(paras, pspans, target) {
        if current.len() > 0 {
            let all = chunks.push(current);
            assert forall|i: int| 0 <= i < all.len() implies (#[trigger] all[i]).len() > 0 by {
                if i < chunks.len() {
                    assert(all[i] == chunks[i]);
                }
            }
        }
    }
}


proof fn lemma_fold_fits(paras: Seq<Seq<char>>, pspans: Seq<Seq<(usize, usize)>>, target: usize)
    requires
        forall|j: int|
            0 <= j < paras.len() ==> (#[trigger] paras[j]).len() == 0 || fits(paras[j], target),
    ensures
        chunk_fold(paras, pspans, target) matches Some((chunks, current)) ==> (current.len() == 0
            || fits(current, target)) && forall|i: int|
            0 <= i < chunks.len() ==> fits(#[trigger] chunks[i], target),
    decreases paras.len(),
{
    if paras.len() > 0 {
        let prefix = paras.drop_last();
        assert forall|j: int| 0 <= j < prefix.len() implies (#[trigger] prefix[j]).len() == 0
            || fits(prefix[j], target) by {
            assert(prefix[j] == paras[j]);
        }
        lemma_fold_fits(prefix, pspans, target);
        if let Some((chunks0, current0)) = chunk_fold(prefix, pspans, target) {
        assert(paras.last() == paras[paras.len() - 1]);
        if current0.len() > 0 {
            let closed = chunks0.push(current0);
            assert forall|i: int| 0 <= i < closed.len() implies fits(#[trigger] closed[i], target) by {
                if i < chunks0.len() {
                    assert(closed[i] == chunks0[i]);
                }
            }
        }
        }
    }
}

/// When no paragraph on its own is over the token target, every chunk that
/// chunking makes fits in the target.
pub proof fn lemma_chunks_fit_when_paragraphs_fit(content: Seq<char>, target: usize)
    requires
        forall|j: int|
            0 <= j < paragraphs_of(content).len() ==> (#[trigger] paragraphs_of(content)[j]).len()
                == 0 || fits(paragraphs_of(content)[j], target),
    ensures
        chunk_plan(content, target) matches Ok(texts) ==> forall|i: int|
            0 <= i < texts.len() ==> fits(#[trigger] texts[i], target),
{
    let paras = paragraphs_of(content);
    let pspans = paragraph_spans(content);
    lemma_fold_fits(paras, pspans, target);
    if let Some((chunks, current)) = chunk_fold(paras, pspans, target) {
        if current.len() > 0 {
            let all = chunks.push(current);
            assert forall|i: int| 0 <= i < all.len() implies fits(#[trigger] all[i], target) by {
                if i < chunks.len() {
                    assert(all[i] == chunks[i]);
                }
            }
        }
    }
}


/// Texts joined with a blank line between each two.
pub open spec fn join_with_blank_lines(texts: Seq<Seq<char>>) -> Seq<char>
    decreases texts.len(),
{
    if texts.len() == 0 {
        Seq::empty()
    } else if texts.len() == 1 {
        texts[0]
    } else {
        join_with_blank_lines(texts.drop_last()) + seq!['\n', '\n'] + texts.last()
    }
}

/// The paragraphs that are not empty, in order.
pub open spec fn nonempty_paragraphs(paras: Seq<Seq<char>>) -> Seq<Seq<char>>
    decreases paras.len(),
{
    if paras.len() == 0 {
        Seq::empty()
    } else {
        nonempty_paragraphs(paras.drop_last()) + if paras.last().len() > 0 {
            seq![paras.last()]
        } else {
            Seq::empty()
        }
    }
}

proof fn lemma_join_push(texts: Seq<Seq<char>>, t: Seq<char>)
    ensures
        join_with_blank_lines(texts.push(t)) == if texts.len() == 0 {
            t
        } else {
            join_with_blank_lines(texts) + seq!['\n', '\n'] + t
        },
{
    assert(texts.push(t).drop_last() =~= texts);
    if texts.len() == 0 {
        assert(texts.push(t)[0] == t);
    }
}

proof fn lemma_fold_rejoins(paras: Seq<Seq<char>>, pspans: Seq<Seq<(usize, usize)>>, target: usize)
    requires
        forall|j: int|
            0 <= j < paras.len() ==> (#[trigger] paras[j]).len() == 0 || fits(paras[j], target),
    ensures
        chunk_fold(paras, pspans, target) matches Some((chunks, current)) ==> join_with_blank_lines(
            state_texts(chunks, current),
        ) == join_with_blank_lines(nonempty_paragraphs(paras)) && (state_texts(chunks, current).len()
            == 0 <==> nonempty_paragraphs(paras).len() == 0),
    decreases paras.len(),
{
    if paras.len() > 0 {
        let prefix = paras.drop_last();
        assert forall|j: int| 0 <= j < prefix.len() implies (#[trigger] prefix[j]).len() == 0
            || fits(prefix[j], target) by {
            assert(prefix[j] == paras[j]);
        }
        lemma_fold_rejoins(prefix, pspans, target);
        lemma_fold_fits(prefix, pspans, target);
        if let Some((chunks0, current0)) = chunk_fold(prefix, pspans, target) {
        let para = paras.last();
        assert(para == paras[paras.len() - 1]);
        let before = state_texts(chunks0, current0);
        let np0 = nonempty_paragraphs(prefix);
        if para.len() == 0 {
            assert(nonempty_paragraphs(paras) =~= np0);
        } else {
            assert(nonempty_paragraphs(paras) =~= np0.push(para));
            lemma_join_push(np0, para);
            let potential = if current0.len() == 0 {
                para
            } else {
                current0 + seq!['\n', '\n'] + para
            };
            if fits(potential, target) {
                if current0.len() > 0 {
                    lemma_join_push(chunks0, current0);
                    lemma_join_push(chunks0, potential);
                    assert(join_with_blank_lines(chunks0.push(potential)) =~= join_with_blank_lines(
                        chunks0.push(current0),
                    ) + seq!['\n', '\n'] + para);
                } else {
                    lemma_join_push(chunks0, para);
                }
            } else {
                lemma_join_push(before, para);
                if current0.len() > 0 {
                    assert(state_texts(chunks0.push(current0), para) == before.push(para));
                } else {
                    assert(state_texts(chunks0, para) == before.push(para));
                }
            }
        }
        }
    }
}

/// When no paragraph on its own is over the token target, no text is lost
/// or added: the chunks, joined with a blank line between each two, give
/// the non-empty paragraphs joined the same way.
pub proof fn lemma_chunks_rejoin_to_paragraphs(content: Seq<char>, target: usize)
    requires
        forall|j: int|
            0 <= j < paragraphs_of(content).len() ==> (#[trigger] paragraphs_of(content)[j]).len()
                == 0 || fits(paragraphs_of(content)[j], target),
    ensures
        chunk_plan(content, target) matches Ok(texts) ==> join_with_blank_lines(texts)
            == join_with_blank_lines(nonempty_paragraphs(paragraphs_of(content))),
{
    let paras = paragraphs_of(content);
    let pspans = paragraph_spans(content);
    lemma_fold_rejoins(paras, pspans, target);
}


/// `texts` is made of `paras` cut into runs of consecutive paragraphs, each
/// run joined with blank lines.
pub open spec fn groups_paragraphs(texts: Seq<Seq<char>>, paras: Seq<Seq<char>>) -> bool
    decreases paras.len(),
{
    if texts.len() == 0 {
        paras.len() == 0
    } else {
        exists|k: int|
            1 <= k <= paras.len() && texts.last() == join_with_blank_lines(
                #[trigger] paras.subrange(paras.len() - k, paras.len() as int),
            ) && groups_paragraphs(texts.drop_last(), paras.subrange(0, paras.len() - k))
    }
}

proof fn lemma_group_extend(texts: Seq<Seq<char>>, paras: Seq<Seq<char>>, t: Seq<char>, p: Seq<char>)
    requires
        texts.len() > 0,
        groups_paragraphs(texts, paras),
        t == texts.last() + seq!['\n', '\n'] + p,
    ensures
        groups_paragraphs(texts.drop_last().push(t), paras.push(p)),
{
    let k = choose|k: int|
        1 <= k <= paras.len() && texts.last() == join_with_blank_lines(
            #[trigger] paras.subrange(paras.len() - k, paras.len() as int),
        ) && groups_paragraphs(texts.drop_last(), paras.subrange(0, paras.len() - k));
    let n = paras.len() as int;
    let np = paras.push(p);
    let run = paras.subrange(n - k, n);
    assert(np.subrange(np.len() - (k + 1), np.len() as int) =~= run.push(p));
    lemma_join_push(run, p);
    assert(np.subrange(0, np.len() - (k + 1)) =~= paras.subrange(0, n - k));
    let nt = texts.drop_last().push(t);
    assert(nt.drop_last() =~= texts.drop_last());
    assert(nt.last() == join_with_blank_lines(np.subrange(np.len() - (k + 1), np.len() as int)));
}

proof fn lemma_group_new(texts: Seq<Seq<char>>, paras: Seq<Seq<char>>, p: Seq<char>)
    requires
        groups_paragraphs(texts, paras),
    ensures
        groups_paragraphs(texts.push(p), paras.push(p)),
{
    let np = paras.push(p);
    let n = paras.len() as int;
    assert(np.subrange(n, n + 1) =~= seq![p]);
    assert(join_with_blank_lines(seq![p]) == p);
    assert(np.subrange(0, n) =~= paras);
    assert(texts.push(p).drop_last() =~= texts);
    assert(texts.push(p).last() == join_with_blank_lines(np.subrange(np.len() - 1, np.len() as int)));
}

proof fn lemma_fold_groups(paras: Seq<Seq<char>>, pspans: Seq<Seq<(usize, usize)>>, target: usize)
    requires
        forall|j: int|
            0 <= j < paras.len() ==> (#[trigger] paras[j]).len() == 0 || fits(paras[j], target),
    ensures
        chunk_fold(paras, pspans, target) matches Some((chunks, current)) ==> groups_paragraphs(
            state_texts(chunks, current),
            nonempty_paragraphs(paras),
        ),
    decreases paras.len(),
{
    if paras.len() == 0 {
        assert(state_texts(Seq::empty(), Seq::empty()) =~= Seq::<Seq<char>>::empty());
    } else {
        let prefix = paras.drop_last();
        assert forall|j: int| 0 <= j < prefix.len() implies (#[trigger] prefix[j]).len() == 0
            || fits(prefix[j], target) by {
            assert(prefix[j] == paras[j]);
        }
        lemma_fold_groups(prefix, pspans, target);
        lemma_fold_fits(prefix, pspans, target);
        if let Some((chunks0, current0)) = chunk_fold(prefix, pspans, target) {
        let para = paras.last();
        assert(para == paras[paras.len() - 1]);
        let before = state_texts(chunks0, current0);
        let np0 = nonempty_paragraphs(prefix);
        if para.len() == 0 {
            assert(nonempty_paragraphs(paras) =~= np0);
        } else {
            assert(nonempty_paragraphs(paras) =~= np0.push(para));
            let potential = if current0.len() == 0 {
                para
            } else {
                current0 + seq!['\n', '\n'] + para
            };
            if fits(potential, target) {
                if current0.len() > 0 {
                    assert(before == chunks0.push(current0));
                    assert(before.drop_last() =~= chunks0);
                    lemma_group_extend(before, np0, potential, para);
                    assert(state_texts(chunks0, potential) == before.drop_last().push(potential));
                } else {
                    lemma_group_new(before, np0, para);
                }
            } else {
                lemma_group_new(before, np0, para);
                if current0.len() > 0 {
                    assert(state_texts(chunks0.push(current0), para) == before.push(para));
                } else {
                    assert(state_texts(chunks0, para) == before.push(para));
                }
            }
        }
        }
    }
}

/// When no paragraph on its own is over the token target, chunks begin and
/// end only at paragraph breaks: each chunk is a run of consecutive
/// non-empty paragraphs joined with blank lines, and the runs, in order,
/// take up every non-empty paragraph once.
pub proof fn lemma_chunks_are_whole_paragraphs(content: Seq<char>, target: usize)
    requires
        forall|j: int|
            0 <= j < paragraphs_of(content).len() ==> (#[trigger] paragraphs_of(content)[j]).len()
                == 0 || fits(paragraphs_of(content)[j], target),
    ensures
        chunk_plan(content, target) matches Ok(texts) ==> groups_paragraphs(
            texts,
            nonempty_paragraphs(paragraphs_of(content)),
        ),
{
    let paras = paragraphs_of(content);
    let pspans = paragraph_spans(content);
    lemma_fold_groups(paras, pspans, target);
}


/// `texts` is made of `paras` in order: each text is either a run of
/// consecutive paragraphs joined with blank lines, or one of consecutive
/// pieces that, put together, give one paragraph.
pub open spec fn covers_paragraphs(texts: Seq<Seq<char>>, paras: Seq<Seq<char>>) -> bool
    decreases paras.len(),
{
    if texts.len() == 0 {
        paras.len() == 0
    } else {
        ||| exists|k: int|
            1 <= k <= paras.len() && texts.last() == join_with_blank_lines(
                #[trigger] paras.subrange(paras.len() - k, paras.len() as int),
            ) && covers_paragraphs(texts.drop_last(), paras.subrange(0, paras.len() - k))
        ||| exists|m: int|
            1 <= m <= texts.len() && paras.len() >= 1 && (#[trigger] texts.subrange(
                texts.len() - m,
                texts.len() as int,
            )).flatten() == paras.last() && covers_paragraphs(
                texts.subrange(0, texts.len() - m),
                paras.drop_last(),
            )
    }
}

/// The fold state: the chunks cover the paragraphs before `j`, and the text
/// being gathered is the run of the paragraphs from `j` on.
pub open spec fn state_covers(
    chunks: Seq<Seq<char>>,
    current: Seq<char>,
    paras: Seq<Seq<char>>,
    j: int,
) -> bool {
    &&& 0 <= j <= paras.len()
    &&& covers_paragraphs(chunks, paras.subrange(0, j))
    &&& current.len() == 0 ==> j == paras.len()
    &&& current.len() > 0 ==> j < paras.len() && current == join_with_blank_lines(
        paras.subrange(j, paras.len() as int),
    )
}

proof fn lemma_cover_run(texts: Seq<Seq<char>>, paras: Seq<Seq<char>>, j: int)
    requires
        0 <= j < paras.len(),
        covers_paragraphs(texts, paras.subrange(0, j)),
    ensures
        covers_paragraphs(texts.push(join_with_blank_lines(paras.subrange(j, paras.len() as int))), paras),
{
    let t = texts.push(join_with_blank_lines(paras.subrange(j, paras.len() as int)));
    let k = paras.len() - j;
    assert(t.drop_last() =~= texts);
    assert(paras.subrange(0, paras.len() - k) =~= paras.subrange(0, j));
    assert(t.last() == join_with_blank_lines(paras.subrange(paras.len() - k, paras.len() as int)));
}

proof fn lemma_decode_flatten(ps: Seq<Seq<u8>>)
    requires
        forall|i: int| 0 <= i < ps.len() ==> valid_utf8(#[trigger] ps[i]),
    ensures
        valid_utf8(ps.flatten()),
        decode_utf8(ps.flatten()) == ps.map_values(|p: Seq<u8>| decode_utf8(p)).flatten(),
    decreases ps.len(),
{
    let m = ps.map_values(|p: Seq<u8>| decode_utf8(p));
    if ps.len() == 0 {
        assert(m.flatten() =~= Seq::<char>::empty());
        assert(ps.flatten() =~= Seq::<u8>::empty());
        assert(decode_utf8(Seq::<u8>::empty()) =~= Seq::<char>::empty());
    } else {
        let rest = ps.drop_first();
        assert forall|i: int| 0 <= i < rest.len() implies valid_utf8(#[trigger] rest[i]) by {
            assert(rest[i] == ps[i + 1]);
        }
        lemma_decode_flatten(rest);
        assert(m.drop_first() =~= rest.map_values(|p: Seq<u8>| decode_utf8(p)));
        let a = decode_utf8(ps[0]);
        let b = decode_utf8(rest.flatten());
        vstd::utf8::decode_utf8_encode_utf8(ps[0]);
        vstd::utf8::decode_utf8_encode_utf8(rest.flatten());
        crate::text::lemma_utf8_concat(a, b);
        vstd::utf8::encode_utf8_valid_utf8(a + b);
        vstd::utf8::encode_utf8_decode_utf8(a + b);
        assert(ps.flatten() == ps[0] + rest.flatten());
        assert(m.flatten() == m[0] + m.drop_first().flatten());
    }
}

#[verifier::rlimit(40)]
proof fn lemma_fold_covers(paras: Seq<Seq<char>>, pspans: Seq<Seq<(usize, usize)>>, target: usize) -> (j: int)
    ensures
        chunk_fold(paras, pspans, target) matches Some((chunks, current)) ==> state_covers(
            chunks,
            current,
            nonempty_paragraphs(paras),
            j,
        ),
    decreases paras.len(),
{
    let np = nonempty_paragraphs(paras);
    if paras.len() == 0 {
        assert(np.subrange(0, 0) =~= Seq::<Seq<char>>::empty());
        assert(state_covers(Seq::empty(), Seq::empty(), np, 0));
        0
    } else {
        let prefix = paras.drop_last();
        let j = lemma_fold_covers(prefix, pspans, target);
        if let Some((chunks0, current0)) = chunk_fold(prefix, pspans, target) {
            let np0 = nonempty_paragraphs(prefix);
            let para = paras.last();
            let n = np0.len() as int;
            if para.len() == 0 {
                assert(np =~= np0);
                assert(state_covers(chunks0, current0, np, j));
                assert(chunk_fold(paras, pspans, target) == Some((chunks0, current0)));
                j
            } else {
                assert(np =~= np0.push(para));
                assert(np.subrange(0, j) =~= np0.subrange(0, j));
                assert(np.subrange(0, n) =~= np0);
                // the chunks that close the gathered text
                let closed = if current0.len() > 0 {
                    chunks0.push(current0)
                } else {
                    chunks0
                };
                if current0.len() > 0 {
                    lemma_cover_run(chunks0, np0, j);
                } else {
                    assert(np0.subrange(0, j) =~= np0);
                }
                assert(covers_paragraphs(closed, np0));
                let potential = if current0.len() == 0 {
                    para
                } else {
                    current0 + seq!['\n', '\n'] + para
                };
                if fits(potential, target) {
                    if current0.len() > 0 {
                        let run = np0.subrange(j, n);
                        assert(np.subrange(j, n + 1) =~= run.push(para));
                        lemma_join_push(run, para);
                        assert(state_covers(chunks0, potential, np, j));
                        assert(chunk_fold(paras, pspans, target) == Some((chunks0, potential)));
                        j
                    } else {
                        assert(np.subrange(n, n + 1) =~= seq![para]);
                        assert(state_covers(chunks0, potential, np, n));
                        assert(chunk_fold(paras, pspans, target) == Some((chunks0, potential)));
                        n
                    }
                } else if cl100k_token_count(potential) is Some && cl100k_token_count(para) is Some && !fits(
                    para,
                    target,
                ) {
                    let psp = pspans[paras.len() - 1];
                    let b = utf8(para);
                    vstd::utf8::encode_utf8_valid_utf8(para);
                    if let Some(ps) = split_from(b, 0, target, psp) {
                        lemma_split_preserves_text(b, 0, target, psp);
                        assert(b.subrange(0, b.len() as int) =~= b);
                        lemma_decode_flatten(ps);
                        vstd::utf8::encode_utf8_decode_utf8(para);
                        let pieces = ps.map_values(|p: Seq<u8>| decode_utf8(p));
                        assert(pieces.flatten() == para);
                        if ps.len() == 0 {
                            assert(ps.flatten() =~= Seq::<u8>::empty());
                            assert(para =~= decode_utf8(b));
                        }
                        let texts = closed + pieces;
                        let mlen = pieces.len() as int;
                        assert(texts.subrange(texts.len() - mlen, texts.len() as int) =~= pieces);
                        assert(texts.subrange(0, texts.len() - mlen) =~= closed);
                        assert(np.drop_last() =~= np0);
                        assert(covers_paragraphs(texts, np));
                        assert(np.subrange(0, n + 1) =~= np);
                        assert(state_covers(texts, Seq::empty(), np, n + 1));
                        assert(chunk_fold(paras, pspans, target) == Some((texts, Seq::<char>::empty())));
                        n + 1
                    } else {
                        0
                    }
                } else if cl100k_token_count(potential) is Some && cl100k_token_count(para) is Some {
                    assert(np.subrange(n, n + 1) =~= seq![para]);
                    assert(state_covers(closed, para, np, n));
                    assert(chunk_fold(paras, pspans, target) == Some((closed, para)));
                    n
                } else {
                    0
                }
            }
        } else {
            0
        }
    }
}

/// Whatever the token target, chunking keeps every non-empty paragraph, in
/// order: each chunk is either a run of whole consecutive paragraphs joined
/// with blank lines, or one of consecutive pieces that, put together, give
/// one paragraph.
pub proof fn lemma_chunks_cover_paragraphs(content: Seq<char>, target: usize)
    ensures
        chunk_plan(content, target) matches Ok(texts) ==> covers_paragraphs(
            texts,
            nonempty_paragraphs(paragraphs_of(content)),
        ),
{
    let paras = paragraphs_of(content);
    let pspans = paragraph_spans(content);
    let j = lemma_fold_covers(paras, pspans, target);
    if let Some((chunks, current)) = chunk_fold(paras, pspans, target) {
        let np = nonempty_paragraphs(paras);
        if current.len() > 0 {
            lemma_cover_run(chunks, np, j);
        } else {
            assert(np.subrange(0, j) =~= np);
        }
    }
}




/// A cut at `x` falls strictly inside none of the spans.
pub open spec fn cut_avoids(sp: Seq<(usize, usize)>, x: int) -> bool {
    forall|k: int| 0 <= k < sp.len() ==> !(sp[k].0 < x && x < #[trigger] sp[k].1)
}

proof fn lemma_containing_end(pos: int, sp: Seq<(usize, usize)>)
    ensures
        match containing_end(pos, sp) {
            Some(e) => exists|k: int|
                0 <= k < sp.len() && sp[k].0 <= pos && pos < sp[k].1 && e == #[trigger] sp[k].1 as int,
            None => !inside_span(pos, sp),
        },
{
    let pred = |i: int| sp[i].0 <= pos && pos < sp[i].1;
    lemma_first_in(pred, 0, sp.len() as int);
    match first_in(pred, 0, sp.len() as int) {
        Some(k) => {
            assert(pred(k));
        },
        None => {
            if inside_span(pos, sp) {
                let k = choose|k: int| 0 <= k < sp.len() && #[trigger] sp[k].0 <= pos && pos < sp[k].1;
                assert(pred(k));
            }
        },
    }
}

proof fn lemma_span_end_avoids(sp: Seq<(usize, usize)>, b: Seq<u8>, k0: int)
    requires
        spans_well_formed(sp, b),
        0 <= k0 < sp.len(),
    ensures
        cut_avoids(sp, sp[k0].1 as int),
{
    assert(span_fits(sp[k0], b));
    assert forall|k: int| 0 <= k < sp.len() implies !(sp[k].0 < sp[k0].1 && sp[k0].1 < #[trigger] sp[k].1) by {
        if k < k0 {
            assert(sp[k].1 <= sp[k0].0);
        } else if k > k0 {
            assert(sp[k0].1 <= sp[k].0);
        }
    }
}

proof fn lemma_outside_avoids(sp: Seq<(usize, usize)>, p: int)
    requires
        !inside_span(p, sp),
    ensures
        cut_avoids(sp, p),
        cut_avoids(sp, p + 1),
{
    assert forall|k: int| 0 <= k < sp.len() implies !(sp[k].0 < p + 1 && p + 1 < #[trigger] sp[k].1) by {
        if sp[k].0 <= p && p < sp[k].1 {
            assert(inside_span(p, sp));
        }
    }
    assert forall|k: int| 0 <= k < sp.len() implies !(sp[k].0 < p && p < #[trigger] sp[k].1) by {
        if sp[k].0 <= p && p < sp[k].1 {
            assert(inside_span(p, sp));
        }
    }
}

proof fn lemma_width_cut_avoids(b: Seq<u8>, sp: Seq<(usize, usize)>, p: int)
    requires
        valid_utf8(b),
        spans_well_formed(sp, b),
        char_outside_at(b, sp, p),
    ensures
        cut_avoids(sp, p + width_at(b, p)),
{
    lemma_scalar_at(b, p);
    let q = p + width_at(b, p);
    assert forall|k: int| 0 <= k < sp.len() implies !(sp[k].0 < q && q < #[trigger] sp[k].1) by {
        assert(span_fits(sp[k], b));
        if sp[k].0 < q && q < sp[k].1 {
            if sp[k].0 <= p {
                assert(inside_span(p, sp));
            } else {
                lemma_inside_char(b, p, sp[k].0 as int);
            }
        }
    }
}

/// Every break point that the search finds falls strictly inside no code
/// block.
pub proof fn lemma_break_point_avoids(b: Seq<u8>, cs: int, te: int, sp: Seq<(usize, usize)>)
    requires
        valid_utf8(b),
        spans_well_formed(sp, b),
    ensures
        break_point(b, cs, te, sp) matches Some(x) ==> cut_avoids(sp, x),
{
    let x0 = if te < b.len() {
        te
    } else {
        b.len() as int
    };
    let e = floor_boundary(b, cs, x0);
    lemma_containing_end(te, sp);
    if let Some(end) = containing_end(te, sp) {
        let k0 = choose|k: int|
            0 <= k < sp.len() && sp[k].0 <= te && te < sp[k].1 && end == #[trigger] sp[k].1 as int;
        lemma_span_end_avoids(sp, b, k0);
    } else {
        let pa = |p: int| paragraph_break_at(b, sp, p);
        let he = |p: int| header_break_at(b, sp, p);
        let se = |p: int| sentence_break_at(b, sp, e, p);
        let cl = |p: int| clause_break_at(b, sp, p);
        let spc = |p: int| space_break_at(b, sp, p);
        lemma_last_in(pa, cs, e);
        lemma_last_in(he, cs, e);
        lemma_last_in(se, cs, e);
        lemma_last_in(cl, cs, e);
        lemma_last_in(spc, cs, e);
        if let Some(p) = last_in(pa, cs, e) {
            lemma_outside_avoids(sp, p);
        } else if let Some(p) = last_in(he, cs, e) {
            lemma_outside_avoids(sp, p);
        } else if let Some(p) = last_in(se, cs, e) {
            lemma_width_cut_avoids(b, sp, p + 1);
        } else if let Some(p) = last_in(cl, cs, e) {
            lemma_outside_avoids(sp, p);
        } else if let Some(p) = last_in(spc, cs, e) {
            lemma_width_cut_avoids(b, sp, p);
        }
    }
}

proof fn lemma_boundary_cut_avoids(b: Seq<u8>, cs: int, fc: int, sp: Seq<(usize, usize)>)
    requires
        valid_utf8(b),
        0 <= cs < b.len(),
        is_char_boundary(b, cs),
        cs <= fc <= b.len(),
        spans_well_formed(sp, b),
        !inside_span(fc, sp),
        cut_avoids(sp, cs),
    ensures
        cut_avoids(sp, boundary_cut(b, cs, fc)),
{
    let pred = |q: int| boundary_at(b, q);
    vstd::utf8::is_char_boundary_start_end_of_seq(b);
    lemma_last_in(pred, cs, fc + 1);
    lemma_first_in(pred, cs + 1, b.len() as int + 1);
    assert(pred(cs));
    assert(pred(b.len() as int));
    let f = floor_boundary(b, cs, fc);
    let r = boundary_cut(b, cs, fc);
    assert forall|k: int| 0 <= k < sp.len() implies !(sp[k].0 < r && r < #[trigger] sp[k].1) by {
        assert(span_fits(sp[k], b));
        let s = sp[k].0 as int;
        let e = sp[k].1 as int;
        if s < r && r < e {
            if fc < e && s <= fc {
                assert(inside_span(fc, sp));
            }
            assert(pred(e));
            if f <= cs {
                if s > cs {
                    assert(pred(s));
                }
                assert(!(s < cs && cs < e));
            }
        }
    }
}

proof fn lemma_forced_cut_avoids(b: Seq<u8>, cs: int, target: usize, sp: Seq<(usize, usize)>)
    requires
        valid_utf8(b),
        0 <= cs < b.len(),
        is_char_boundary(b, cs),
        spans_well_formed(sp, b),
        cut_avoids(sp, cs),
    ensures
        cut_avoids(sp, forced_cut(b, cs, target, sp)),
{
    let fc = cs + if target < b.len() - cs {
        target as int
    } else {
        b.len() - cs
    };
    lemma_containing_end(fc, sp);
    if let Some(end) = containing_end(fc, sp) {
        let k0 = choose|k: int|
            0 <= k < sp.len() && sp[k].0 <= fc && fc < sp[k].1 && end == #[trigger] sp[k].1 as int;
        lemma_span_end_avoids(sp, b, k0);
        assert(span_fits(sp[k0], b));
    } else {
        lemma_boundary_cut_avoids(b, cs, fc, sp);
    }
}

/// Where a piece starts on a character boundary that falls strictly inside
/// no code block, its next break falls strictly inside none either.
pub proof fn lemma_next_break_avoids(b: Seq<u8>, cs: int, target: usize, sp: Seq<(usize, usize)>)
    requires
        valid_utf8(b),
        0 <= cs < b.len(),
        is_char_boundary(b, cs),
        spans_well_formed(sp, b),
        cut_avoids(sp, cs),
    ensures
        cut_avoids(sp, next_break(b, cs, target, sp)),
{
    let te = if cs + look_ahead(target) > usize::MAX {
        usize::MAX as int
    } else {
        cs + look_ahead(target)
    };
    lemma_break_point_avoids(b, cs, te, sp);
    lemma_forced_cut_avoids(b, cs, target, sp);
}

/// Where the `i`-th of the pieces `ps` starts when the first starts at `cs`.
pub open spec fn piece_start(ps: Seq<Seq<u8>>, cs: int, i: int) -> int {
    cs + ps.take(i).flatten().len()
}

/// Splitting a paragraph never cuts inside a code block: no place where
/// one piece ends and the next begins, nor the two ends, falls strictly
/// inside one of the spans.
pub proof fn lemma_split_keeps_spans_whole(b: Seq<u8>, cs: int, target: usize, sp: Seq<(usize, usize)>)
    requires
        valid_utf8(b),
        0 <= cs <= b.len(),
        is_char_boundary(b, cs),
        spans_well_formed(sp, b),
        cut_avoids(sp, cs),
    ensures
        split_from(b, cs, target, sp) matches Some(ps) ==> forall|i: int|
            0 <= i <= ps.len() ==> cut_avoids(sp, #[trigger] piece_start(ps, cs, i)),
    decreases b.len() - cs,
{
    if let Some(ps) = split_from(b, cs, target, sp) {
        assert(ps.take(0) =~= Seq::<Seq<u8>>::empty());
        assert(piece_start(ps, cs, 0) == cs);
        if cs < b.len() {
            if tokens_of(b, cs, b.len() as int).unwrap() <= target {
                assert(ps.take(1) =~= ps);
                ps.lemma_flatten_one_element();
                assert(piece_start(ps, cs, 1) == b.len());
                assert forall|k: int| 0 <= k < sp.len() implies !(sp[k].0 < b.len() && b.len() < #[trigger] sp[k].1) by {
                    assert(span_fits(sp[k], b));
                }
            } else {
                let bp = next_break(b, cs, target, sp);
                lemma_next_break_valid(b, cs, target, sp);
                lemma_next_break_avoids(b, cs, target, sp);
                lemma_split_keeps_spans_whole(b, bp, target, sp);
                let rest = split_from(b, bp, target, sp).unwrap();
                let piece = b.subrange(cs, bp);
                assert(ps == seq![piece] + rest);
                assert forall|i: int| 0 <= i <= ps.len() implies cut_avoids(sp, #[trigger] piece_start(ps, cs, i)) by {
                    if i > 0 {
                        let t = ps.take(i);
                        assert(t.first() == piece);
                        assert(t.drop_first() =~= rest.take(i - 1));
                        assert(t.flatten() == piece + rest.take(i - 1).flatten());
                        assert(piece_start(ps, cs, i) == piece_start(rest, bp, i - 1));
                    }
                }
            }
        }
    }
}

/// A paragraph is always split: `split_from` fails only where the tokenizer
/// fails on a rest of the paragraph that starts on a character boundary.
pub proof fn lemma_split_total(b: Seq<u8>, cs: int, target: usize, sp: Seq<(usize, usize)>)
    requires
        valid_utf8(b),
        0 <= cs <= b.len(),
        is_char_boundary(b, cs),
        forall|q: int|
            cs <= q < b.len() && is_char_boundary(b, q) ==> (#[trigger] tokens_of(b, q, b.len() as int)) is Some,
    ensures
        split_from(b, cs, target, sp) is Some,
    decreases b.len() - cs,
{
    if cs < b.len() {
        assert(tokens_of(b, cs, b.len() as int) is Some);
        if !(tokens_of(b, cs, b.len() as int).unwrap() <= target) {
            lemma_next_break_valid(b, cs, target, sp);
            let bp = next_break(b, cs, target, sp);
            lemma_split_total(b, bp, target, sp);
        }
    }
}

/// A blank line inside a code block never ends a paragraph: no kept break
/// shares a byte with a code block.
pub proof fn lemma_kept_separators_avoid_code(psp: Seq<(usize, usize)>, csp: Seq<(usize, usize)>)
    ensures
        forall|k: int|
            0 <= k < kept_separators(psp, csp).len() ==> !overlaps_any(#[trigger] kept_separators(psp, csp)[k], csp),
    decreases psp.len(),
{
    if psp.len() > 0 {
        lemma_kept_separators_avoid_code(psp.drop_last(), csp);
        let k0 = kept_separators(psp.drop_last(), csp);
        if !overlaps_any(psp.last(), csp) {
            let k1 = k0.push(psp.last());
            assert forall|k: int| 0 <= k < k1.len() implies !overlaps_any(#[trigger] k1[k], csp) by {
                if k < k0.len() {
                    assert(k1[k] == k0[k]);
                }
            }
        }
    }
}


proof fn lemma_spans_within_wf(sp: Seq<(usize, usize)>, b: Seq<u8>, x: int, y: int)
    requires
        valid_utf8(b),
        spans_well_formed(sp, b),
        0 <= x <= y <= b.len(),
        is_char_boundary(b, x),
        is_char_boundary(b, y),
    ensures
        spans_well_formed(spans_within(sp, x, y), b.subrange(x, y)),
        sp.len() > 0 ==> forall|k: int|
            0 <= k < spans_within(sp, x, y).len() ==> (#[trigger] spans_within(sp, x, y)[k]).1 + x
                <= sp.last().1,
    decreases sp.len(),
{
    if sp.len() > 0 {
        let pre = sp.drop_last();
        assert forall|i: int| 0 <= i < pre.len() implies span_fits(#[trigger] pre[i], b) by {
            assert(pre[i] == sp[i]);
        }
        assert forall|i: int, j: int| 0 <= i < j < pre.len() implies #[trigger] pre[i].1
            <= #[trigger] pre[j].0 by {
            assert(pre[i] == sp[i] && pre[j] == sp[j]);
        }
        lemma_spans_within_wf(pre, b, x, y);
        let w0 = spans_within(pre, x, y);
        let last = sp.last();
        assert(last == sp[sp.len() - 1]);
        assert(span_fits(last, b));
        if pre.len() > 0 {
            assert(pre.last() == sp[sp.len() - 2]);
            assert(sp[sp.len() - 2].1 <= sp[sp.len() - 1].0);
            assert(span_fits(sp[sp.len() - 2], b));
        } else {
            assert(w0.len() == 0);
        }
        let sub = b.subrange(x, y);
        if (last.0 as int) < y && x < (last.1 as int) {
            let c = clip_span(last, x, y);
            let w1 = w0.push(c);
            assert(spans_within(sp, x, y) == w1);
            let cs = if (last.0 as int) < x {
                x
            } else {
                last.0 as int
            };
            let ce = if (last.1 as int) > y {
                y
            } else {
                last.1 as int
            };
            lemma_boundary_in_sub(b, x, y, cs);
            lemma_boundary_in_sub(b, x, y, ce);
            assert(span_fits(c, sub));
            assert forall|i: int, j: int| 0 <= i < j < w1.len() implies #[trigger] w1[i].1
                <= #[trigger] w1[j].0 by {
                if j < w0.len() {
                    assert(w1[i] == w0[i] && w1[j] == w0[j]);
                } else {
                    assert(w1[i] == w0[i]);
                    assert(w0[i].1 + x <= pre.last().1);
                }
            }
            assert forall|i: int| 0 <= i < w1.len() implies span_fits(#[trigger] w1[i], sub) by {
                if i < w0.len() {
                    assert(w1[i] == w0[i]);
                }
            }
            assert forall|k: int| 0 <= k < w1.len() implies (#[trigger] w1[k]).1 + x <= sp.last().1 by {
                if k < w0.len() {
                    assert(w1[k] == w0[k]);
                }
            }
        } else {
            assert(spans_within(sp, x, y) == w0);
            assert forall|k: int| 0 <= k < w0.len() implies (#[trigger] w0[k]).1 + x <= sp.last().1 by {
            }
        }
    }
}

/// Where the spans that the regular-expression crate reports for `content`
/// are well formed, as the trusted `find_spans` states of every text, each
/// paragraph's code-block spans are well formed on its bytes, and splitting
/// the paragraph never cuts inside one of its code blocks.
pub proof fn lemma_paragraph_split_keeps_code_blocks(content: Seq<char>, i: int, target: usize)
    requires
        spans_well_formed(pattern_spans(PARAGRAPH_PATTERN@, content), utf8(content)),
        spans_well_formed(pattern_spans(CODE_BLOCK_PATTERN@, content), utf8(content)),
        0 <= i < paragraphs_of(content).len(),
    ensures
        spans_well_formed(paragraph_spans(content)[i], utf8(paragraphs_of(content)[i])),
        split_from(utf8(paragraphs_of(content)[i]), 0, target, paragraph_spans(content)[i]) matches Some(
            ps,
        ) ==> forall|j: int|
            0 <= j <= ps.len() ==> cut_avoids(paragraph_spans(content)[i], #[trigger] piece_start(ps, 0, j)),
{
    let b = utf8(content);
    vstd::utf8::encode_utf8_valid_utf8(content);
    vstd::utf8::is_char_boundary_start_end_of_seq(b);
    let psp = pattern_spans(PARAGRAPH_PATTERN@, content);
    let csp = pattern_spans(CODE_BLOCK_PATTERN@, content);
    lemma_kept_well_formed(psp, csp, b);
    let seps = separators_of(content);
    let pb = piece_bounds(seps, b.len() as int, i);
    let lo = pb.0;
    let hi = pb.1;
    if i > 0 && i < seps.len() {
        assert(seps[i - 1].1 <= seps[i].0);
    }
    if i < seps.len() {
        assert(span_fits(seps[i], b));
    }
    if i > 0 {
        assert(span_fits(seps[i - 1], b));
    }
    let sub = b.subrange(lo, hi);
    lemma_boundary_in_sub(b, lo, hi, lo);
    lemma_trim_range(sub);
    let t0 = trim_range(sub).0;
    let t1 = trim_range(sub).1;
    let x = lo + t0;
    let y = lo + t1;
    lemma_boundary_in_sub(b, lo, hi, x);
    lemma_boundary_in_sub(b, lo, hi, y);
    assert(paragraph_bounds(content, i) == (x, y));
    vstd::utf8::decode_utf8_encode_utf8(sub);
    let para = paragraphs_of(content)[i];
    assert(para == trimmed(decode_utf8(sub)));
    assert(sub.subrange(t0, t1) =~= b.subrange(x, y));
    lemma_boundary_in_sub(b, x, y, x);
    vstd::utf8::decode_utf8_encode_utf8(b.subrange(x, y));
    assert(utf8(para) == b.subrange(x, y));
    lemma_spans_within_wf(csp, b, x, y);
    let pspan = paragraph_spans(content)[i];
    assert(pspan == spans_within(csp, x, y));
    let pbytes = utf8(para);
    assert(cut_avoids(pspan, 0));
    vstd::utf8::is_char_boundary_start_end_of_seq(pbytes);
    lemma_split_keeps_spans_whole(pbytes, 0, target, pspan);
}


proof fn lemma_fold_total(paras: Seq<Seq<char>>, pspans: Seq<Seq<(usize, usize)>>, target: usize)
    requires
        forall|t: Seq<char>| (#[trigger] cl100k_token_count(t)) is Some,
    ensures
        chunk_fold(paras, pspans, target) is Some,
    decreases paras.len(),
{
    if paras.len() > 0 {
        lemma_fold_total(paras.drop_last(), pspans, target);
        let para = paras.last();
        let b = utf8(para);
        vstd::utf8::encode_utf8_valid_utf8(para);
        vstd::utf8::is_char_boundary_start_end_of_seq(b);
        assert forall|q: int| 0 <= q < b.len() && is_char_boundary(b, q) implies (#[trigger] tokens_of(
            b,
            q,
            b.len() as int,
        )) is Some by {
            assert(cl100k_token_count(decode_utf8(b.subrange(q, b.len() as int))) is Some);
        }
        lemma_split_total(b, 0, target, pspans[paras.len() - 1]);
    }
}

/// Chunking fails only where the tokenizer does: were every text countable,
/// `chunk_markdown` would give chunks, or report that every paragraph is
/// empty.
pub proof fn lemma_chunking_fails_only_on_tokenizer(content: Seq<char>, target: usize)
    requires
        forall|t: Seq<char>| (#[trigger] cl100k_token_count(t)) is Some,
    ensures
        chunk_plan(content, target) != Err::<Seq<Seq<char>>, ChunkError>(ChunkError::TokenizerFailed),
{
    lemma_fold_total(paragraphs_of(content), paragraph_spans(content), target);
}


/// Where the spans that the regular-expression crate reports for `content`
/// are well formed, each code block lies within one paragraph: between two
/// consecutive paragraph breaks, or a break and an end of the text.
pub proof fn lemma_code_block_in_one_paragraph(content: Seq<char>, k: int)
    requires
        spans_well_formed(pattern_spans(PARAGRAPH_PATTERN@, content), utf8(content)),
        spans_well_formed(pattern_spans(CODE_BLOCK_PATTERN@, content), utf8(content)),
        0 <= k < pattern_spans(CODE_BLOCK_PATTERN@, content).len(),
    ensures
        exists|i: int|
            0 <= i <= separators_of(content).len() && #[trigger] piece_bounds(
                separators_of(content),
                utf8(content).len() as int,
                i,
            ).0 <= pattern_spans(CODE_BLOCK_PATTERN@, content)[k].0 && pattern_spans(
                CODE_BLOCK_PATTERN@,
                content,
            )[k].1 <= piece_bounds(separators_of(content), utf8(content).len() as int, i).1,
{
    let b = utf8(content);
    let psp = pattern_spans(PARAGRAPH_PATTERN@, content);
    let csp = pattern_spans(CODE_BLOCK_PATTERN@, content);
    let seps = separators_of(content);
    lemma_kept_well_formed(psp, csp, b);
    lemma_kept_separators_avoid_code(psp, csp);
    let s = csp[k].0 as int;
    let e = csp[k].1 as int;
    assert(span_fits(csp[k], b));
    let pred = |j: int| (seps[j].1 as int) > s;
    lemma_first_in(pred, 0, seps.len() as int);
    let i = match first_in(pred, 0, seps.len() as int) {
        Some(j) => j,
        None => seps.len() as int,
    };
    if i > 0 {
        assert(!pred(i - 1));
    }
    if i < seps.len() {
        assert(pred(i));
        assert(!overlaps_any(seps[i], csp));
        assert(!overlaps(seps[i], csp[k]));
    }
    let pb = piece_bounds(seps, b.len() as int, i);
    assert(pb.0 <= s && e <= pb.1);
}


/// Where each piece of a split lies: piece `i` is the bytes from
/// `piece_start(i)` to `piece_start(i + 1)`, every such place is a character
/// boundary, and the last is the end.
proof fn lemma_split_pieces_located(b: Seq<u8>, cs: int, target: usize, sp: Seq<(usize, usize)>)
    requires
        valid_utf8(b),
        0 <= cs <= b.len(),
        is_char_boundary(b, cs),
    ensures
        split_from(b, cs, target, sp) matches Some(ps) ==> {
            &&& forall|i: int|
                0 <= i <= ps.len() ==> cs <= #[trigger] piece_start(ps, cs, i) <= b.len() && is_char_boundary(
                    b,
                    piece_start(ps, cs, i),
                )
            &&& piece_start(ps, cs, ps.len() as int) == b.len()
            &&& forall|i: int|
                0 <= i < ps.len() ==> #[trigger] ps[i] == b.subrange(piece_start(ps, cs, i), piece_start(ps, cs, i + 1))
        },
    decreases b.len() - cs,
{
    vstd::utf8::is_char_boundary_start_end_of_seq(b);
    if let Some(ps) = split_from(b, cs, target, sp) {
        assert(ps.take(0) =~= Seq::<Seq<u8>>::empty());
        if cs >= b.len() {
            assert(ps.len() == 0);
        } else if tokens_of(b, cs, b.len() as int).unwrap() <= target {
            assert(ps.take(1) =~= ps);
            ps.lemma_flatten_one_element();
            assert forall|i: int| 0 <= i <= ps.len() implies cs <= #[trigger] piece_start(ps, cs, i) <= b.len()
                && is_char_boundary(b, piece_start(ps, cs, i)) by {
                if i == 1 {
                    assert(piece_start(ps, cs, 1) == b.len());
                }
            }
            assert(piece_start(ps, cs, 1) == b.len());
            assert(piece_start(ps, cs, 0) == cs);
            assert(ps[0] == b.subrange(cs, b.len() as int));
        } else {
            let bp = next_break(b, cs, target, sp);
            lemma_next_break_valid(b, cs, target, sp);
            lemma_split_pieces_located(b, bp, target, sp);
            let rest = split_from(b, bp, target, sp).unwrap();
            let piece = b.subrange(cs, bp);
            assert(ps == seq![piece] + rest);
            assert forall|i: int| 1 <= i <= ps.len() implies #[trigger] piece_start(ps, cs, i) == piece_start(
                rest,
                bp,
                i - 1,
            ) by {
                let t = ps.take(i);
                assert(t.first() == piece);
                assert(t.drop_first() =~= rest.take(i - 1));
                assert(t.flatten() == piece + rest.take(i - 1).flatten());
            }
            assert forall|i: int| 0 <= i <= ps.len() implies cs <= #[trigger] piece_start(ps, cs, i) <= b.len()
                && is_char_boundary(b, piece_start(ps, cs, i)) by {
                if i >= 1 {
                    assert(piece_start(ps, cs, i) == piece_start(rest, bp, i - 1));
                }
            }
            assert(piece_start(ps, cs, ps.len() as int) == piece_start(rest, bp, rest.len() as int));
            assert forall|i: int| 0 <= i < ps.len() implies #[trigger] ps[i] == b.subrange(
                piece_start(ps, cs, i),
                piece_start(ps, cs, i + 1),
            ) by {
                assert(piece_start(ps, cs, i + 1) == piece_start(rest, bp, i));
                if i >= 1 {
                    assert(piece_start(ps, cs, i) == piece_start(rest, bp, i - 1));
                    assert(ps[i] == rest[i - 1]);
                } else {
                    assert(rest.take(0) =~= Seq::<Seq<u8>>::empty());
                    assert(piece_start(rest, bp, 0) == bp);
                    assert(piece_start(ps, cs, 0) == cs);
                }
            }
        }
    }
}

/// The next piece starts where this one ends.
proof fn lemma_piece_start_step(ps: Seq<Seq<u8>>, cs: int, j: int)
    requires
        0 <= j < ps.len(),
    ensures
        piece_start(ps, cs, j + 1) == piece_start(ps, cs, j) + ps[j].len(),
{
    assert(ps.take(j + 1) =~= ps.take(j).push(ps[j]));
    ps.take(j).lemma_flatten_push(ps[j]);
}

/// `small` occurs in `big` as a contiguous run.
pub open spec fn occurs_in(small: Seq<char>, big: Seq<char>) -> bool {
    exists|a: int| 0 <= a && a + small.len() <= big.len() && #[trigger] big.subrange(a, a + small.len()) == small
}

/// One of the texts holds `small` whole.
pub open spec fn held_by_one(texts: Seq<Seq<char>>, small: Seq<char>) -> bool {
    exists|c: int| 0 <= c < texts.len() && occurs_in(small, #[trigger] texts[c])
}

pub proof fn lemma_occurs_within(small: Seq<char>, big: Seq<char>, pre: Seq<char>, post: Seq<char>)
    requires
        occurs_in(small, big),
    ensures
        occurs_in(small, pre + big + post),
{
    let a = choose|a: int| 0 <= a && a + small.len() <= big.len() && #[trigger] big.subrange(a, a + small.len()) == small;
    let whole = pre + big + post;
    assert(whole.subrange(pre.len() + a, pre.len() + a + small.len()) =~= small);
}

proof fn lemma_held_push(texts: Seq<Seq<char>>, t: Seq<char>, small: Seq<char>)
    requires
        held_by_one(texts, small) || occurs_in(small, t),
    ensures
        held_by_one(texts.push(t), small),
{
    let n = texts.push(t);
    if held_by_one(texts, small) {
        let c = choose|c: int| 0 <= c < texts.len() && occurs_in(small, #[trigger] texts[c]);
        assert(n[c] == texts[c]);
    } else {
        assert(n[texts.len() as int] == t);
    }
}

proof fn lemma_held_concat(texts: Seq<Seq<char>>, more: Seq<Seq<char>>, small: Seq<char>)
    requires
        held_by_one(texts, small) || held_by_one(more, small),
    ensures
        held_by_one(texts + more, small),
{
    let n = texts + more;
    if held_by_one(texts, small) {
        let c = choose|c: int| 0 <= c < texts.len() && occurs_in(small, #[trigger] texts[c]);
        assert(n[c] == texts[c]);
    } else {
        let c = choose|c: int| 0 <= c < more.len() && occurs_in(small, #[trigger] more[c]);
        assert(n[texts.len() + c] == more[c]);
    }
}

/// A fold step loses no text already held whole.
proof fn lemma_step_keeps_held(
    chunks: Seq<Seq<char>>,
    current: Seq<char>,
    para: Seq<char>,
    psp: Seq<(usize, usize)>,
    target: usize,
    small: Seq<char>,
)
    requires
        held_by_one(state_texts(chunks, current), small),
    ensures
        chunk_step(chunks, current, para, psp, target) matches Some((c2, cur2)) ==> held_by_one(
            state_texts(c2, cur2),
            small,
        ),
{
    if para.len() > 0 {
        let closed = if current.len() > 0 {
            chunks.push(current)
        } else {
            chunks
        };
        // closing the gathered text keeps what it held
        assert(state_texts(chunks, current) == closed);
        // appending the paragraph to the gathered text keeps what it held
        let potential = if current.len() == 0 {
            para
        } else {
            current + seq!['\n', '\n'] + para
        };
        if current.len() > 0 && !held_by_one(chunks, small) {
            let c = choose|c: int| 0 <= c < closed.len() && occurs_in(small, #[trigger] closed[c]);
            assert(c == chunks.len());
            lemma_occurs_within(small, current, Seq::empty(), seq!['\n', '\n'] + para);
            assert(Seq::<char>::empty() + current + (seq!['\n', '\n'] + para) =~= potential);
        }
        lemma_held_push(chunks, potential, small);
        // starting the next text with the paragraph, or adding its pieces
        lemma_held_push(closed, para, small);
        if let Some(ps) = split_from(utf8(para), 0, target, psp) {
            lemma_held_concat(closed, ps.map_values(|p: Seq<u8>| decode_utf8(p)), small);
        }
    }
}

proof fn lemma_fold_keeps_held(
    paras: Seq<Seq<char>>,
    pspans: Seq<Seq<(usize, usize)>>,
    target: usize,
    k: int,
    small: Seq<char>,
)
    requires
        0 <= k <= paras.len(),
        chunk_fold(paras.take(k), pspans, target) matches Some((c, cur)) && held_by_one(state_texts(c, cur), small),
    ensures
        chunk_fold(paras, pspans, target) matches Some((c, cur)) ==> held_by_one(state_texts(c, cur), small),
    decreases paras.len() - k,
{
    if k == paras.len() {
        assert(paras.take(k) =~= paras);
    } else {
        lemma_fold_step(paras, pspans, k, target);
        let (c, cur) = chunk_fold(paras.take(k), pspans, target).unwrap();
        lemma_step_keeps_held(c, cur, paras[k], pspans[k], target, small);
        if chunk_fold(paras.take(k + 1), pspans, target) is Some {
            lemma_fold_keeps_held(paras, pspans, target, k + 1, small);
        } else {
            lemma_fold_stuck(paras, pspans, k + 1, target);
        }
    }
}

/// The characters that the bytes `[q, r)` encode occur in those that the
/// bytes `[p, t)` encode, all four places being character boundaries.
proof fn lemma_decode_occurs(b: Seq<u8>, p: int, q: int, r: int, t: int)
    requires
        valid_utf8(b),
        0 <= p <= q <= r <= t <= b.len(),
        is_char_boundary(b, p),
        is_char_boundary(b, q),
        is_char_boundary(b, r),
        is_char_boundary(b, t),
    ensures
        occurs_in(decode_utf8(b.subrange(q, r)), decode_utf8(b.subrange(p, t))),
{
    lemma_boundary_in_sub(b, p, q, p);
    lemma_boundary_in_sub(b, q, r, q);
    lemma_boundary_in_sub(b, r, t, r);
    let x = decode_utf8(b.subrange(p, q));
    let y = decode_utf8(b.subrange(q, r));
    let z = decode_utf8(b.subrange(r, t));
    vstd::utf8::decode_utf8_encode_utf8(b.subrange(p, q));
    vstd::utf8::decode_utf8_encode_utf8(b.subrange(q, r));
    vstd::utf8::decode_utf8_encode_utf8(b.subrange(r, t));
    crate::text::lemma_utf8_concat(x, y);
    crate::text::lemma_utf8_concat(x + y, z);
    assert(b.subrange(p, q) + b.subrange(q, r) + b.subrange(r, t) =~= b.subrange(p, t));
    vstd::utf8::encode_utf8_decode_utf8(x + y + z);
    assert(decode_utf8(b.subrange(p, t)) == x + y + z);
    assert((x + y + z).subrange(x.len() as int, (x.len() + y.len()) as int) =~= y);
}

/// Where a split never cuts strictly inside `[a, z)`, one piece holds the
/// characters of those bytes whole.
proof fn lemma_piece_holds(b: Seq<u8>, target: usize, sp: Seq<(usize, usize)>, a: int, z: int)
    requires
        valid_utf8(b),
        0 <= a < z <= b.len(),
        is_char_boundary(b, a),
        is_char_boundary(b, z),
        split_from(b, 0, target, sp) matches Some(ps) && forall|j: int|
            0 <= j <= ps.len() ==> !(a < #[trigger] piece_start(ps, 0, j) && piece_start(ps, 0, j) < z),
    ensures
        split_from(b, 0, target, sp) matches Some(ps) && held_by_one(
            ps.map_values(|p: Seq<u8>| decode_utf8(p)),
            decode_utf8(b.subrange(a, z)),
        ),
{
    let ps = split_from(b, 0, target, sp).unwrap();
    vstd::utf8::is_char_boundary_start_end_of_seq(b);
    lemma_split_pieces_located(b, 0, target, sp);
    assert(ps.take(0) =~= Seq::<Seq<u8>>::empty());
    let pred = |j: int| piece_start(ps, 0, j + 1) > a;
    lemma_first_in(pred, 0, ps.len() as int);
    if ps.len() == 0 {
        assert(piece_start(ps, 0, 0) == 0);
    }
    assert(pred(ps.len() - 1));
    let j = first_in(pred, 0, ps.len() as int).unwrap();
    if j > 0 {
        assert(!pred(j - 1));
    }
    let lo = piece_start(ps, 0, j);
    let hi = piece_start(ps, 0, j + 1);
    assert(lo <= a);
    assert(!(a < hi && hi < z));
    assert(ps[j] == b.subrange(lo, hi));
    lemma_decode_occurs(b, lo, a, z, hi);
    let m = ps.map_values(|p: Seq<u8>| decode_utf8(p));
    assert(m[j] == decode_utf8(b.subrange(lo, hi)));
}


proof fn lemma_spans_within_has(sp: Seq<(usize, usize)>, x: int, y: int, k: int)
    requires
        0 <= k < sp.len(),
        (sp[k].0 as int) < y,
        x < (sp[k].1 as int),
    ensures
        exists|idx: int|
            0 <= idx < spans_within(sp, x, y).len() && #[trigger] spans_within(sp, x, y)[idx] == clip_span(
                sp[k],
                x,
                y,
            ),
    decreases sp.len(),
{
    let pre = sp.drop_last();
    let w = spans_within(sp, x, y);
    let w0 = spans_within(pre, x, y);
    if k == sp.len() - 1 {
        assert(w == w0.push(clip_span(sp.last(), x, y)));
        assert(w[w.len() - 1] == clip_span(sp[k], x, y));
    } else {
        assert(pre[k] == sp[k]);
        lemma_spans_within_has(pre, x, y, k);
        let idx = choose|idx: int| 0 <= idx < w0.len() && #[trigger] w0[idx] == clip_span(pre[k], x, y);
        if (sp.last().0 as int) < y && x < (sp.last().1 as int) {
            assert(w == w0.push(clip_span(sp.last(), x, y)));
            assert(w[idx] == w0[idx]);
        } else {
            assert(w == w0);
        }
    }
}

/// The byte range of paragraph `i`, and its bytes and code-block spans.
proof fn lemma_paragraph_bytes(content: Seq<char>, i: int)
    requires
        spans_well_formed(pattern_spans(PARAGRAPH_PATTERN@, content), utf8(content)),
        spans_well_formed(pattern_spans(CODE_BLOCK_PATTERN@, content), utf8(content)),
        0 <= i < paragraphs_of(content).len(),
    ensures
        ({
            let b = utf8(content);
            let pb = piece_bounds(separators_of(content), b.len() as int, i);
            let x = paragraph_bounds(content, i).0;
            let y = paragraph_bounds(content, i).1;
            &&& 0 <= pb.0 <= x <= y <= pb.1 <= b.len()
            &&& is_char_boundary(b, pb.0) && is_char_boundary(b, pb.1)
            &&& is_char_boundary(b, x) && is_char_boundary(b, y)
            &&& x == pb.0 + trim_range(b.subrange(pb.0, pb.1)).0
            &&& y == pb.0 + trim_range(b.subrange(pb.0, pb.1)).1
            &&& utf8(paragraphs_of(content)[i]) == b.subrange(x, y)
            &&& paragraphs_of(content)[i] == decode_utf8(b.subrange(x, y))
            &&& paragraph_spans(content)[i] == spans_within(pattern_spans(CODE_BLOCK_PATTERN@, content), x, y)
        }),
{
    let b = utf8(content);
    vstd::utf8::encode_utf8_valid_utf8(content);
    vstd::utf8::is_char_boundary_start_end_of_seq(b);
    let psp = pattern_spans(PARAGRAPH_PATTERN@, content);
    let csp = pattern_spans(CODE_BLOCK_PATTERN@, content);
    lemma_kept_well_formed(psp, csp, b);
    let seps = separators_of(content);
    let pb = piece_bounds(seps, b.len() as int, i);
    let lo = pb.0;
    let hi = pb.1;
    if i > 0 && i < seps.len() {
        assert(seps[i - 1].1 <= seps[i].0);
    }
    if i < seps.len() {
        assert(span_fits(seps[i], b));
    }
    if i > 0 {
        assert(span_fits(seps[i - 1], b));
    }
    let sub = b.subrange(lo, hi);
    lemma_boundary_in_sub(b, lo, hi, lo);
    lemma_trim_range(sub);
    let t0 = trim_range(sub).0;
    let t1 = trim_range(sub).1;
    let x = lo + t0;
    let y = lo + t1;
    lemma_boundary_in_sub(b, lo, hi, x);
    lemma_boundary_in_sub(b, lo, hi, y);
    assert(paragraph_bounds(content, i) == (x, y));
    vstd::utf8::decode_utf8_encode_utf8(sub);
    let para = paragraphs_of(content)[i];
    assert(para == trimmed(decode_utf8(sub)));
    assert(sub.subrange(t0, t1) =~= b.subrange(x, y));
    lemma_boundary_in_sub(b, x, y, x);
    vstd::utf8::decode_utf8_encode_utf8(b.subrange(x, y));
    assert(utf8(para) == b.subrange(x, y));
}

proof fn lemma_step_establishes_held(
    chunks: Seq<Seq<char>>,
    current: Seq<char>,
    para: Seq<char>,
    psp: Seq<(usize, usize)>,
    target: usize,
    small: Seq<char>,
)
    requires
        small.len() > 0,
        occurs_in(small, para),
        split_from(utf8(para), 0, target, psp) matches Some(ps) ==> held_by_one(
            ps.map_values(|p: Seq<u8>| decode_utf8(p)),
            small,
        ),
    ensures
        chunk_step(chunks, current, para, psp, target) matches Some((c2, cur2)) ==> held_by_one(
            state_texts(c2, cur2),
            small,
        ),
{
    assert(para.len() > 0);
    let potential = if current.len() == 0 {
        para
    } else {
        current + seq!['\n', '\n'] + para
    };
    let pre = if current.len() == 0 {
        Seq::<char>::empty()
    } else {
        current + seq!['\n', '\n']
    };
    lemma_occurs_within(small, para, pre, Seq::empty());
    assert(pre + para + Seq::<char>::empty() =~= potential);
    lemma_held_push(chunks, potential, small);
    let closed = if current.len() > 0 {
        chunks.push(current)
    } else {
        chunks
    };
    lemma_held_push(closed, para, small);
    if let Some(ps) = split_from(utf8(para), 0, target, psp) {
        lemma_held_concat(closed, ps.map_values(|p: Seq<u8>| decode_utf8(p)), small);
    }
}

/// A code block that starts and ends with a backtick, lying within the
/// `i`-th piece between paragraph breaks, lies within the trimmed paragraph,
/// and its text occurs in the paragraph's.
proof fn lemma_block_in_paragraph(content: Seq<char>, k: int, i: int)
    requires
        spans_well_formed(pattern_spans(PARAGRAPH_PATTERN@, content), utf8(content)),
        spans_well_formed(pattern_spans(CODE_BLOCK_PATTERN@, content), utf8(content)),
        0 <= k < pattern_spans(CODE_BLOCK_PATTERN@, content).len(),
        pattern_spans(CODE_BLOCK_PATTERN@, content)[k].0 < pattern_spans(CODE_BLOCK_PATTERN@, content)[k].1,
        utf8(content)[pattern_spans(CODE_BLOCK_PATTERN@, content)[k].0 as int] == 0x60,
        utf8(content)[pattern_spans(CODE_BLOCK_PATTERN@, content)[k].1 - 1] == 0x60,
        0 <= i <= separators_of(content).len(),
        piece_bounds(separators_of(content), utf8(content).len() as int, i).0
            <= pattern_spans(CODE_BLOCK_PATTERN@, content)[k].0,
        pattern_spans(CODE_BLOCK_PATTERN@, content)[k].1 <= piece_bounds(
            separators_of(content),
            utf8(content).len() as int,
            i,
        ).1,
    ensures
        paragraph_bounds(content, i).0 <= pattern_spans(CODE_BLOCK_PATTERN@, content)[k].0,
        pattern_spans(CODE_BLOCK_PATTERN@, content)[k].1 <= paragraph_bounds(content, i).1,
        occurs_in(
            decode_utf8(
                utf8(content).subrange(
                    pattern_spans(CODE_BLOCK_PATTERN@, content)[k].0 as int,
                    pattern_spans(CODE_BLOCK_PATTERN@, content)[k].1 as int,
                ),
            ),
            paragraphs_of(content)[i],
        ),
        decode_utf8(
            utf8(content).subrange(
                pattern_spans(CODE_BLOCK_PATTERN@, content)[k].0 as int,
                pattern_spans(CODE_BLOCK_PATTERN@, content)[k].1 as int,
            ),
        ).len() > 0,
{
    let b = utf8(content);
    vstd::utf8::encode_utf8_valid_utf8(content);
    let csp = pattern_spans(CODE_BLOCK_PATTERN@, content);
    let s = csp[k].0 as int;
    let e = csp[k].1 as int;
    assert(span_fits(csp[k], b));
    let seps = separators_of(content);
    lemma_paragraph_bytes(content, i);
    let pb = piece_bounds(seps, b.len() as int, i);
    let lo = pb.0;
    let hi = pb.1;
    let x = paragraph_bounds(content, i).0;
    let y = paragraph_bounds(content, i).1;
    let sub = b.subrange(lo, hi);
    lemma_boundary_in_sub(b, lo, hi, s);
    vstd::utf8::is_char_boundary_iff_not_is_continuation_byte(b, e - 1);
    lemma_boundary_in_sub(b, lo, hi, e - 1);
    assert(sub[s - lo] == 0x60 && sub[e - 1 - lo] == 0x60);
    lemma_scalar_at(sub, s - lo);
    lemma_scalar_at(sub, e - 1 - lo);
    let pred = |q: int| starts_non_white(sub, q);
    assert(pred(s - lo));
    assert(pred(e - 1 - lo));
    lemma_first_in(pred, 0, sub.len() as int);
    lemma_last_in(pred, 0, sub.len() as int);
    let l = last_in(pred, 0, sub.len() as int).unwrap();
    lemma_scalar_at(sub, l);
    assert(x <= s && e <= y);
    lemma_decode_occurs(b, x, s, e, y);
    lemma_boundary_in_sub(b, lo, hi, e);
    lemma_boundary_in_sub(b, s, e, s);
    lemma_decode_nonempty(b.subrange(s, e));
}

/// A split of the paragraph that holds a code block keeps the block's text
/// whole in one piece.
proof fn lemma_block_in_one_piece(content: Seq<char>, target: usize, k: int, i: int)
    requires
        spans_well_formed(pattern_spans(PARAGRAPH_PATTERN@, content), utf8(content)),
        spans_well_formed(pattern_spans(CODE_BLOCK_PATTERN@, content), utf8(content)),
        0 <= k < pattern_spans(CODE_BLOCK_PATTERN@, content).len(),
        pattern_spans(CODE_BLOCK_PATTERN@, content)[k].0 < pattern_spans(CODE_BLOCK_PATTERN@, content)[k].1,
        0 <= i < paragraphs_of(content).len(),
        paragraph_bounds(content, i).0 <= pattern_spans(CODE_BLOCK_PATTERN@, content)[k].0,
        pattern_spans(CODE_BLOCK_PATTERN@, content)[k].1 <= paragraph_bounds(content, i).1,
    ensures
        split_from(utf8(paragraphs_of(content)[i]), 0, target, paragraph_spans(content)[i]) matches Some(
            ps,
        ) ==> held_by_one(
            ps.map_values(|p: Seq<u8>| decode_utf8(p)),
            decode_utf8(
                utf8(content).subrange(
                    pattern_spans(CODE_BLOCK_PATTERN@, content)[k].0 as int,
                    pattern_spans(CODE_BLOCK_PATTERN@, content)[k].1 as int,
                ),
            ),
        ),
{
    let b = utf8(content);
    vstd::utf8::encode_utf8_valid_utf8(content);
    let csp = pattern_spans(CODE_BLOCK_PATTERN@, content);
    let s = csp[k].0 as int;
    let e = csp[k].1 as int;
    assert(span_fits(csp[k], b));
    lemma_paragraph_bytes(content, i);
    let x = paragraph_bounds(content, i).0;
    let y = paragraph_bounds(content, i).1;
    lemma_spans_within_has(csp, x, y, k);
    let pspan = paragraph_spans(content)[i];
    let idx = choose|idx: int| 0 <= idx < pspan.len() && #[trigger] pspan[idx] == clip_span(csp[k], x, y);
    assert(pspan[idx] == ((s - x) as usize, (e - x) as usize));
    lemma_paragraph_split_keeps_code_blocks(content, i, target);
    let pbytes = utf8(paragraphs_of(content)[i]);
    if let Some(ps) = split_from(pbytes, 0, target, pspan) {
        assert forall|j: int| 0 <= j <= ps.len() implies !(s - x < #[trigger] piece_start(ps, 0, j)
            && piece_start(ps, 0, j) < e - x) by {
            assert(cut_avoids(pspan, piece_start(ps, 0, j)));
            assert(!(pspan[idx].0 < piece_start(ps, 0, j) && piece_start(ps, 0, j) < pspan[idx].1));
        }
        lemma_boundary_in_sub(b, x, y, s);
        lemma_boundary_in_sub(b, x, y, e);
        lemma_piece_holds(pbytes, target, pspan, s - x, e - x);
        assert(pbytes.subrange(s - x, e - x) =~= b.subrange(s, e));
    }
}

/// Where the spans that the regular-expression crate reports for `content`
/// are well formed, as the trusted `find_spans` states of every text, a code
/// block that starts and ends with a backtick, as the code-block pattern's
/// matches do, is never split: one chunk holds its text whole.
pub proof fn lemma_code_block_in_one_chunk(content: Seq<char>, target: usize, k: int)
    requires
        spans_well_formed(pattern_spans(PARAGRAPH_PATTERN@, content), utf8(content)),
        spans_well_formed(pattern_spans(CODE_BLOCK_PATTERN@, content), utf8(content)),
        0 <= k < pattern_spans(CODE_BLOCK_PATTERN@, content).len(),
        pattern_spans(CODE_BLOCK_PATTERN@, content)[k].0 < pattern_spans(CODE_BLOCK_PATTERN@, content)[k].1,
        utf8(content)[pattern_spans(CODE_BLOCK_PATTERN@, content)[k].0 as int] == 0x60,
        utf8(content)[pattern_spans(CODE_BLOCK_PATTERN@, content)[k].1 - 1] == 0x60,
    ensures
        chunk_plan(content, target) matches Ok(texts) ==> held_by_one(
            texts,
            decode_utf8(
                utf8(content).subrange(
                    pattern_spans(CODE_BLOCK_PATTERN@, content)[k].0 as int,
                    pattern_spans(CODE_BLOCK_PATTERN@, content)[k].1 as int,
                ),
            ),
        ),
{
    let b = utf8(content);
    let csp = pattern_spans(CODE_BLOCK_PATTERN@, content);
    let blk = decode_utf8(b.subrange(csp[k].0 as int, csp[k].1 as int));
    lemma_code_block_in_one_paragraph(content, k);
    let seps = separators_of(content);
    let i = choose|i: int|
        0 <= i <= seps.len() && #[trigger] piece_bounds(seps, b.len() as int, i).0 <= csp[k].0 && csp[k].1
            <= piece_bounds(seps, b.len() as int, i).1;
    let paras = paragraphs_of(content);
    let pspans = paragraph_spans(content);
    lemma_block_in_paragraph(content, k, i);
    lemma_block_in_one_piece(content, target, k, i);
    if let Ok(texts) = chunk_plan(content, target) {
        if chunk_fold(paras.take(i), pspans, target) is None {
            lemma_fold_stuck(paras, pspans, i, target);
        }
        let (c0, cur0) = chunk_fold(paras.take(i), pspans, target).unwrap();
        lemma_fold_step(paras, pspans, i, target);
        lemma_step_establishes_held(c0, cur0, paras[i], pspans[i], target, blk);
        if chunk_fold(paras.take(i + 1), pspans, target) is None {
            lemma_fold_stuck(paras, pspans, i + 1, target);
        }
        lemma_fold_keeps_held(paras, pspans, target, i + 1, blk);
    }
}


/// A cut after the character at `p` that starts before the boundary `e`
/// lies at or before `e`.
proof fn lemma_char_end_within(b: Seq<u8>, p: int, e: int)
    requires
        valid_utf8(b),
        0 <= p < e <= b.len(),
        is_char_boundary(b, p),
        is_char_boundary(b, e),
    ensures
        p + width_at(b, p) <= e,
{
    lemma_scalar_at(b, p);
    if p + width_at(b, p) > e {
        lemma_inside_char(b, p, e);
    }
}

/// The next break lies at most `target` bytes ahead, unless it is the end of
/// a code block or the end of the next character.
proof fn lemma_next_break_size(b: Seq<u8>, cs: int, target: usize, sp: Seq<(usize, usize)>)
    requires
        valid_utf8(b),
        b.len() <= usize::MAX,
        0 <= cs < b.len(),
        is_char_boundary(b, cs),
    ensures
        ({
            let x = next_break(b, cs, target, sp);
            ||| x - cs <= target
            ||| exists|k: int| 0 <= k < sp.len() && x == #[trigger] sp[k].1
            ||| x == next_boundary(b, cs)
        }),
{
    let te = if cs + look_ahead(target) > usize::MAX {
        usize::MAX as int
    } else {
        cs + look_ahead(target)
    };
    let x0 = if te < b.len() {
        te
    } else {
        b.len() as int
    };
    let e = floor_boundary(b, cs, x0);
    let bpred = |q: int| boundary_at(b, q);
    lemma_last_in(bpred, cs, x0 + 1);
    assert(bpred(cs));
    assert(cs <= e <= x0);
    assert(is_char_boundary(b, e));
    assert(e - cs <= target);
    lemma_containing_end(te, sp);
    if containing_end(te, sp) is None {
        let pa = |p: int| paragraph_break_at(b, sp, p);
        let he = |p: int| header_break_at(b, sp, p);
        let se = |p: int| sentence_break_at(b, sp, e, p);
        let cl = |p: int| clause_break_at(b, sp, p);
        let spc = |p: int| space_break_at(b, sp, p);
        lemma_last_in(pa, cs, e);
        lemma_last_in(he, cs, e);
        lemma_last_in(se, cs, e);
        lemma_last_in(cl, cs, e);
        lemma_last_in(spc, cs, e);
        if let Some(p) = last_in(pa, cs, e) {
        } else if let Some(p) = last_in(he, cs, e) {
        } else if let Some(p) = last_in(se, cs, e) {
            lemma_char_end_within(b, p + 1, e);
        } else if let Some(p) = last_in(cl, cs, e) {
        } else if let Some(p) = last_in(spc, cs, e) {
            lemma_char_end_within(b, p, e);
        }
    }
    let fc = cs + if target < b.len() - cs {
        target as int
    } else {
        b.len() - cs
    };
    lemma_containing_end(fc, sp);
    lemma_last_in(bpred, cs, fc + 1);
}

/// The piece that starts at a character boundary and ends at the next one
/// is that one character.
proof fn lemma_one_char(b: Seq<u8>, p: int)
    requires
        valid_utf8(b),
        0 <= p < b.len(),
        is_char_boundary(b, p),
    ensures
        next_boundary(b, p) == p + width_at(b, p),
        decode_utf8(b.subrange(p, next_boundary(b, p))).len() == 1,
{
    lemma_scalar_at(b, p);
    let w = width_at(b, p);
    let pred = |q: int| boundary_at(b, q);
    lemma_first_in(pred, p + 1, b.len() as int + 1);
    assert(pred(p + w));
    if let Some(f) = first_in(pred, p + 1, b.len() as int + 1) {
        if f < p + w {
            lemma_inside_char(b, p, f);
        }
    }
    let t = b.subrange(p, p + w);
    lemma_boundary_in_sub(b, p, p + w, p);
    assert(t[0] == b[p]);
    assert(b.subrange(p, b.len() as int)[0] == b[p]);
    assert(length_of_first_scalar(t) == w);
    assert(pop_first_scalar(t) =~= Seq::<u8>::empty());
    assert(decode_utf8(Seq::<u8>::empty()) =~= Seq::<char>::empty());
}

/// Piece `i` of a split that starts at `cs` is at most `target` bytes long
/// (so at most `target` tokens), or a single character, or runs to the end
/// of a code block, or fits in `target` tokens.
pub open spec fn piece_within_target(
    ps: Seq<Seq<u8>>,
    cs: int,
    i: int,
    target: usize,
    sp: Seq<(usize, usize)>,
) -> bool {
    ||| ps[i].len() <= target
    ||| decode_utf8(ps[i]).len() == 1
    ||| exists|k: int| 0 <= k < sp.len() && piece_start(ps, cs, i + 1) == #[trigger] sp[k].1
    ||| fits(decode_utf8(ps[i]), target)
}

/// Each piece that a split cuts off is at most `target` bytes long, so at
/// most `target` tokens, unless it runs to the end of a code block or is a
/// single character; the last piece fits in the target.
pub proof fn lemma_split_piece_sizes(b: Seq<u8>, cs: int, target: usize, sp: Seq<(usize, usize)>)
    requires
        valid_utf8(b),
        b.len() <= usize::MAX,
        0 <= cs <= b.len(),
        is_char_boundary(b, cs),
    ensures
        split_from(b, cs, target, sp) matches Some(ps) ==> forall|j: int|
            0 <= j < ps.len() ==> #[trigger] piece_within_target(ps, cs, j, target, sp),
    decreases b.len() - cs,
{
    lemma_split_pieces_located(b, cs, target, sp);
    if let Some(ps) = split_from(b, cs, target, sp) {
        assert(ps.take(0) =~= Seq::<Seq<u8>>::empty());
        assert(piece_start(ps, cs, 0) == cs);
        if cs < b.len() {
            if tokens_of(b, cs, b.len() as int).unwrap() <= target {
                assert(ps.len() == 1);
                assert(ps[0] == b.subrange(cs, b.len() as int));
                assert(piece_within_target(ps, cs, 0, target, sp));
            } else {
                let bp = next_break(b, cs, target, sp);
                lemma_next_break_valid(b, cs, target, sp);
                lemma_next_break_size(b, cs, target, sp);
                lemma_one_char(b, cs);
                lemma_split_piece_sizes(b, bp, target, sp);
                lemma_split_pieces_located(b, bp, target, sp);
                let rest = split_from(b, bp, target, sp).unwrap();
                let piece = b.subrange(cs, bp);
                assert(ps == seq![piece] + rest);
                assert forall|i: int| 1 <= i <= ps.len() implies #[trigger] piece_start(ps, cs, i)
                    == piece_start(rest, bp, i - 1) by {
                    let t = ps.take(i);
                    assert(t.first() == piece);
                    assert(t.drop_first() =~= rest.take(i - 1));
                    assert(t.flatten() == piece + rest.take(i - 1).flatten());
                }
                assert(rest.take(0) =~= Seq::<Seq<u8>>::empty());
                assert forall|j: int| 0 <= j < ps.len() implies #[trigger] piece_within_target(
                    ps,
                    cs,
                    j,
                    target,
                    sp,
                ) by {
                    assert(piece_start(ps, cs, j + 1) == piece_start(rest, bp, j));
                    if j == 0 {
                        assert(piece_start(rest, bp, 0) == bp);
                        assert(ps[0] == piece);
                    } else {
                        assert(ps[j] == rest[j - 1]);
                        assert(piece_within_target(rest, bp, j - 1, target, sp));
                    }
                }
            }
        }
    }
}


/// `t` is a piece of paragraph `i` that runs, from some byte on, to the end
/// of one of the paragraph's code blocks.
pub open spec fn ends_code_block(
    paras: Seq<Seq<char>>,
    pspans: Seq<Seq<(usize, usize)>>,
    t: Seq<char>,
) -> bool {
    exists|i: int, k: int, a: int|
        0 <= i < paras.len() && 0 <= k < pspans[i].len() && 0 <= a <= pspans[i][k].1 <= utf8(paras[i]).len()
            && t == #[trigger] decode_utf8(utf8(paras[i]).subrange(a, pspans[i][k].1 as int))
}

/// What a chunk text may be under the target: within it where the
/// tokenizer counts it, a single character, or a piece that runs to the end
/// of a code block.
pub open spec fn chunk_within_target(
    paras: Seq<Seq<char>>,
    pspans: Seq<Seq<(usize, usize)>>,
    t: Seq<char>,
    target: usize,
) -> bool {
    ||| (cl100k_token_count(t) matches Some(n) ==> n <= target)
    ||| t.len() == 1
    ||| ends_code_block(paras, pspans, t)
}

proof fn lemma_fold_sizes(paras: Seq<Seq<char>>, pspans: Seq<Seq<(usize, usize)>>, target: usize, m: int)
    requires
        0 <= m <= paras.len(),
        forall|t: Seq<char>| #[trigger] cl100k_token_count(t) matches Some(n) ==> n <= utf8(t).len(),
        forall|i: int| 0 <= i < paras.len() ==> utf8(#[trigger] paras[i]).len() <= usize::MAX,
    ensures
        chunk_fold(paras.take(m), pspans, target) matches Some((c, cur)) ==> (forall|j: int|
            0 <= j < c.len() ==> chunk_within_target(paras, pspans, #[trigger] c[j], target)) && (cur.len()
            == 0 || fits(cur, target)),
    decreases m,
{
    if m == 0 {
        assert(paras.take(0) =~= Seq::<Seq<char>>::empty());
    } else {
        let k = m - 1;
        lemma_fold_sizes(paras, pspans, target, k);
        lemma_fold_step(paras, pspans, k, target);
        if let Some((c0, cur0)) = chunk_fold(paras.take(k), pspans, target) {
            let para = paras[k];
            let closed = if cur0.len() > 0 {
                c0.push(cur0)
            } else {
                c0
            };
            assert forall|j: int| 0 <= j < closed.len() implies chunk_within_target(
                paras,
                pspans,
                #[trigger] closed[j],
                target,
            ) by {
                if j < c0.len() {
                    assert(closed[j] == c0[j]);
                }
            }
            let pb = utf8(para);
            let psp = pspans[k];
            vstd::utf8::encode_utf8_valid_utf8(para);
            vstd::utf8::is_char_boundary_start_end_of_seq(pb);
            if let Some(ps) = split_from(pb, 0, target, psp) {
                lemma_split_piece_sizes(pb, 0, target, psp);
                lemma_split_pieces_located(pb, 0, target, psp);
                lemma_split_preserves_text(pb, 0, target, psp);
                let pieces = ps.map_values(|p: Seq<u8>| decode_utf8(p));
                assert forall|j: int| 0 <= j < pieces.len() implies chunk_within_target(
                    paras,
                    pspans,
                    #[trigger] pieces[j],
                    target,
                ) by {
                    assert(piece_within_target(ps, 0, j, target, psp));
                    assert(pieces[j] == decode_utf8(ps[j]));
                    vstd::utf8::decode_utf8_encode_utf8(ps[j]);
                    assert(utf8(pieces[j]) == ps[j]);
                    if ps[j].len() <= target {
                        if let Some(n) = cl100k_token_count(pieces[j]) {
                            assert(n <= utf8(pieces[j]).len());
                        }
                    }
                    if exists|q: int| 0 <= q < psp.len() && piece_start(ps, 0, j + 1) == #[trigger] psp[q].1 {
                        let q = choose|q: int| 0 <= q < psp.len() && piece_start(ps, 0, j + 1) == #[trigger] psp[q].1;
                        let a = piece_start(ps, 0, j);
                        lemma_piece_start_step(ps, 0, j);
                        assert(0 <= a <= piece_start(ps, 0, j + 1) <= pb.len());
                        assert(ps[j] == pb.subrange(a, psp[q].1 as int));
                        assert(0 <= k < paras.len() && 0 <= q < pspans[k].len());
                        assert(pieces[j] == decode_utf8(utf8(paras[k]).subrange(a, pspans[k][q].1 as int)));
                    }
                }
                let all = closed + pieces;
                assert forall|j: int| 0 <= j < all.len() implies chunk_within_target(
                    paras,
                    pspans,
                    #[trigger] all[j],
                    target,
                ) by {
                    if j < closed.len() {
                        assert(all[j] == closed[j]);
                    } else {
                        assert(all[j] == pieces[j - closed.len()]);
                    }
                }
            }
        }
    }
}

/// Where each count of the tokenizer is at most the number of bytes of its
/// text, as the trusted `estimate_tokens` states of every text it counts,
/// and the spans that the regular-expression crate reports are well formed,
/// as `find_spans` states, every chunk fits in the target unless it is a
/// single character or a piece of a paragraph that runs to the end of one
/// of the paragraph's code blocks.
pub proof fn lemma_chunks_within_target(content: Seq<char>, target: usize)
    requires
        forall|t: Seq<char>| #[trigger] cl100k_token_count(t) matches Some(n) ==> n <= utf8(t).len(),
        utf8(content).len() <= usize::MAX,
        spans_well_formed(pattern_spans(PARAGRAPH_PATTERN@, content), utf8(content)),
        spans_well_formed(pattern_spans(CODE_BLOCK_PATTERN@, content), utf8(content)),
    ensures
        chunk_plan(content, target) matches Ok(texts) ==> forall|c: int|
            0 <= c < texts.len() ==> {
                ||| fits(#[trigger] texts[c], target)
                ||| texts[c].len() == 1
                ||| ends_code_block(paragraphs_of(content), paragraph_spans(content), texts[c])
            },
{
    let paras = paragraphs_of(content);
    let pspans = paragraph_spans(content);
    assert forall|i: int| 0 <= i < paras.len() implies utf8(#[trigger] paras[i]).len() <= usize::MAX by {
        lemma_paragraph_bytes(content, i);
    }
    lemma_fold_sizes(paras, pspans, target, paras.len() as int);
    assert(paras.take(paras.len() as int) =~= paras);
    if let Ok(texts) = chunk_plan(content, target) {
        let (c, cur) = chunk_fold(paras, pspans, target).unwrap();
        assert forall|j: int| 0 <= j < texts.len() implies {
            ||| fits(#[trigger] texts[j], target)
            ||| texts[j].len() == 1
            ||| ends_code_block(paras, pspans, texts[j])
        } by {
            assert(cl100k_token_count(texts[j]) is Some);
            if j < c.len() {
                assert(texts[j] == c[j]);
                assert(chunk_within_target(paras, pspans, c[j], target));
            }
        }
    }
}


/// Where the break-point search finds a place to cut, the piece ends
/// there: the forced cut serves only when the search finds none.
pub proof fn lemma_next_break_prefers_break_point(b: Seq<u8>, cs: int, target: usize, sp: Seq<(usize, usize)>)
    requires
        cs + look_ahead(target) <= usize::MAX,
        break_point(b, cs, cs + look_ahead(target), sp) matches Some(x) && valid_cut(b, cs, x),
    ensures
        next_break(b, cs, target, sp) == break_point(b, cs, cs + look_ahead(target), sp).unwrap(),
{
}

/// In a window of plain words (ASCII, no newline, no `.`, `!`, `?`, `,`
/// or `;`, no code block), the piece ends right after the last space of the
/// window: a split cuts between words, not inside one.
pub proof fn lemma_cut_after_last_space(b: Seq<u8>, cs: int, target: usize, sp: Seq<(usize, usize)>, q: int)
    requires
        valid_utf8(b),
        0 <= cs <= q < b.len(),
        is_char_boundary(b, cs),
        q < cs + look_ahead(target),
        cs + look_ahead(target) <= usize::MAX,
        b[q] == 0x20,
        forall|r: int| cs <= r < b.len() && r <= cs + look_ahead(target) ==> #[trigger] b[r] < 0x80,
        forall|r: int|
            cs <= r < b.len() && r < cs + look_ahead(target) ==> !inside_span(r, sp) && #[trigger] b[r]
                != 0x0a && b[r] != 0x2c && b[r] != 0x3b && b[r] != 0x2e && b[r] != 0x21 && b[r] != 0x3f,
        forall|r: int| q < r < b.len() && r < cs + look_ahead(target) ==> #[trigger] b[r] > 0x20,
        !inside_span(cs + look_ahead(target), sp),
    ensures
        next_break(b, cs, target, sp) == q + 1,
{
    let te = cs + look_ahead(target);
    let x0 = if te < b.len() {
        te
    } else {
        b.len() as int
    };
    vstd::utf8::is_char_boundary_start_end_of_seq(b);
    let bpred = |r: int| boundary_at(b, r);
    if x0 < b.len() {
        assert(b[x0] < 0x80);
        vstd::utf8::is_char_boundary_iff_not_is_continuation_byte(b, x0);
    }
    assert(bpred(x0));
    let e = floor_boundary(b, cs, x0);
    assert(e == x0);
    lemma_containing_end(te, sp);
    let pa = |p: int| paragraph_break_at(b, sp, p);
    let he = |p: int| header_break_at(b, sp, p);
    let se = |p: int| sentence_break_at(b, sp, e, p);
    let cl = |p: int| clause_break_at(b, sp, p);
    let spc = |p: int| space_break_at(b, sp, p);
    lemma_last_in(pa, cs, e);
    lemma_last_in(he, cs, e);
    lemma_last_in(se, cs, e);
    lemma_last_in(cl, cs, e);
    lemma_last_in(spc, cs, e);
    if let Some(k) = last_in(pa, cs, e) {
        assert(b[k] != 0x0a);
    }
    if let Some(k) = last_in(he, cs, e) {
        assert(b[k] != 0x0a);
    }
    if let Some(k) = last_in(se, cs, e) {
        assert(b[k] != 0x2e);
    }
    if let Some(k) = last_in(cl, cs, e) {
        assert(b[k] != 0x2c);
    }
    vstd::utf8::is_char_boundary_iff_not_is_continuation_byte(b, q);
    lemma_scalar_at(b, q);
    assert(spc(q));
    assert forall|r: int| q < r < e implies !#[trigger] spc(r) by {
        if spc(r) {
            assert(b[r] > 0x20 && b[r] < 0x80);
            lemma_scalar_at(b, r);
        }
    }
    assert(last_in(spc, cs, e) == Some(q));
    assert(break_point(b, cs, te, sp) == Some(q + 1));
}

/// A `.`, `!` or `?` outside every code block, followed by white space
/// within the search window, ends a sentence: where the window holds no
/// paragraph break or header, the break comes right after the white space
/// that follows such a mark, at or after this one.
pub proof fn lemma_sentence_end_breaks(b: Seq<u8>, cs: int, te: int, sp: Seq<(usize, usize)>, p: int)
    requires
        valid_utf8(b),
        0 <= cs <= p,
        p + 1 < b.len(),
        is_char_boundary(b, cs),
        b[p] == 0x2e || b[p] == 0x21 || b[p] == 0x3f,
        !inside_span(p, sp),
        !inside_span(p + 1, sp),
        is_char_boundary(b, p + 1),
        is_white_space(scalar_at(b, p + 1)),
        p + 1 + width_at(b, p + 1) <= te,
        !inside_span(te, sp),
        forall|q: int|
            cs <= q < b.len() && q < te && #[trigger] b[q] == 0x0a && !inside_span(q, sp) ==> !(q > 0 && b[q
                - 1] == 0x0a) && !(q + 1 < b.len() && b[q + 1] == 0x23),
    ensures
        exists|q: int|
            p <= q < b.len() - 1 && (b[q] == 0x2e || b[q] == 0x21 || b[q] == 0x3f) && break_point(b, cs, te, sp)
                == Some(q + 1 + #[trigger] width_at(b, q + 1)),
{
    let x0 = if te < b.len() {
        te
    } else {
        b.len() as int
    };
    lemma_scalar_at(b, p + 1);
    let f = p + 1 + width_at(b, p + 1);
    let bpred = |r: int| boundary_at(b, r);
    assert(bpred(f));
    lemma_last_in(bpred, cs, x0 + 1);
    let e = floor_boundary(b, cs, x0);
    assert(e >= f);
    vstd::utf8::is_char_boundary_iff_not_is_continuation_byte(b, p);
    lemma_containing_end(te, sp);
    let pa = |r: int| paragraph_break_at(b, sp, r);
    let he = |r: int| header_break_at(b, sp, r);
    let se = |r: int| sentence_break_at(b, sp, e, r);
    lemma_last_in(pa, cs, e);
    lemma_last_in(he, cs, e);
    lemma_last_in(se, cs, e);
    if let Some(k) = last_in(pa, cs, e) {
        assert(b[k] == 0x0a);
    }
    if let Some(k) = last_in(he, cs, e) {
        assert(b[k] == 0x0a);
    }
    assert(se(p));
    let q = last_in(se, cs, e).unwrap();
    assert(p <= q);
    assert(break_point(b, cs, te, sp) == Some(q + 1 + width_at(b, q + 1)));
}


/// The break search looks ahead three quarters of the target, in bytes.
pub proof fn lemma_look_ahead_is_three_quarters(target: usize)
    ensures
        4 * look_ahead(target) <= 3 * target < 4 * look_ahead(target) + 4,
{
}

/// A blank line outside every code block within the search window wins
/// over every other break: the break comes right after the newline that
/// ends such a blank line, at or after this one.
pub proof fn lemma_paragraph_break_wins(b: Seq<u8>, cs: int, te: int, sp: Seq<(usize, usize)>, p: int)
    requires
        valid_utf8(b),
        0 <= cs <= p,
        0 < p,
        p + 1 <= te,
        p + 1 <= b.len(),
        is_char_boundary(b, cs),
        b[p] == 0x0a,
        b[p - 1] == 0x0a,
        !inside_span(p, sp),
        !inside_span(te, sp),
    ensures
        exists|q: int|
            p <= q < b.len() && 0 < q && b[q] == 0x0a && b[q - 1] == 0x0a && !inside_span(q, sp) && #[trigger] break_point(
                b,
                cs,
                te,
                sp,
            ) == Some(q + 1),
{
    let x0 = if te < b.len() {
        te
    } else {
        b.len() as int
    };
    vstd::utf8::is_char_boundary_iff_not_is_continuation_byte(b, p);
    lemma_scalar_at(b, p);
    let bpred = |r: int| boundary_at(b, r);
    assert(bpred(p + 1));
    lemma_last_in(bpred, cs, x0 + 1);
    let e = floor_boundary(b, cs, x0);
    assert(e >= p + 1);
    lemma_containing_end(te, sp);
    let pa = |r: int| paragraph_break_at(b, sp, r);
    lemma_last_in(pa, cs, e);
    assert(pa(p));
    let q = last_in(pa, cs, e).unwrap();
    assert(break_point(b, cs, te, sp) == Some(q + 1));
}

/// A header line outside every code block within the search window wins
/// over sentence, clause and word breaks: where the window holds no blank
/// line, the break comes right before the newline that starts such a header,
/// at or after this one.
pub proof fn lemma_header_break_wins(b: Seq<u8>, cs: int, te: int, sp: Seq<(usize, usize)>, p: int)
    requires
        valid_utf8(b),
        0 <= cs <= p,
        p + 1 < b.len(),
        p + 1 <= te,
        is_char_boundary(b, cs),
        b[p] == 0x0a,
        b[p + 1] == 0x23,
        !inside_span(p, sp),
        !inside_span(te, sp),
        forall|q: int|
            cs <= q < b.len() && q < te && #[trigger] b[q] == 0x0a && !inside_span(q, sp) ==> !(q > 0 && b[q
                - 1] == 0x0a),
    ensures
        exists|q: int|
            p <= q < b.len() - 1 && b[q] == 0x0a && b[q + 1] == 0x23 && !inside_span(q, sp) && #[trigger] break_point(
                b,
                cs,
                te,
                sp,
            ) == Some(q),
{
    let x0 = if te < b.len() {
        te
    } else {
        b.len() as int
    };
    vstd::utf8::is_char_boundary_iff_not_is_continuation_byte(b, p);
    lemma_scalar_at(b, p);
    let bpred = |r: int| boundary_at(b, r);
    assert(bpred(p + 1));
    lemma_last_in(bpred, cs, x0 + 1);
    let e = floor_boundary(b, cs, x0);
    assert(e >= p + 1);
    lemma_containing_end(te, sp);
    let pa = |r: int| paragraph_break_at(b, sp, r);
    let he = |r: int| header_break_at(b, sp, r);
    lemma_last_in(pa, cs, e);
    lemma_last_in(he, cs, e);
    if let Some(k) = last_in(pa, cs, e) {
        assert(b[k] == 0x0a);
    }
    assert(he(p));
    let q = last_in(he, cs, e).unwrap();
    assert(break_point(b, cs, te, sp) == Some(q));
}

} // verus!
