//! Byte-level views of UTF-8 text, Unicode white space, and the few `String`
//! operations of std that the rest of the library builds on.

use vstd::prelude::*;
use vstd::utf8::*;
use vstd::string::*;

verus! {

broadcast use vstd::utf8::is_char_boundary_iff_not_is_continuation_byte;

/// The UTF-8 bytes of a character sequence.
pub open spec fn utf8(s: Seq<char>) -> Seq<u8> {
    encode_utf8(s)
}

/// Unicode's `White_Space` property, the one `char::is_whitespace` and
/// `str::trim` go by.
pub open spec fn is_white_space(c: u32) -> bool {
    ||| 0x09 <= c <= 0x0d
    ||| c == 0x20
    ||| c == 0x85
    ||| c == 0xa0
    ||| c == 0x1680
    ||| 0x2000 <= c <= 0x200a
    ||| c == 0x2028
    ||| c == 0x2029
    ||| c == 0x202f
    ||| c == 0x205f
    ||| c == 0x3000
}

/// The scalar that starts at byte `p` of the valid UTF-8 sequence `b`.
pub open spec fn scalar_at(b: Seq<u8>, p: int) -> u32 {
    decode_first_scalar(b.subrange(p, b.len() as int))
}

/// The number of bytes of the scalar that starts at byte `p`.
pub open spec fn width_at(b: Seq<u8>, p: int) -> int {
    length_of_first_scalar(b.subrange(p, b.len() as int))
}

pub fn white_space_scalar(c: u32) -> (r: bool)
    ensures
        r == is_white_space(c),
{
    (0x09 <= c && c <= 0x0d) || c == 0x20 || c == 0x85 || c == 0xa0 || c == 0x1680 || (0x2000
        <= c && c <= 0x200a) || c == 0x2028 || c == 0x2029 || c == 0x202f || c == 0x205f || c
        == 0x3000
}

/// Facts about the scalar at a character boundary of valid UTF-8 bytes.
pub proof fn lemma_scalar_at(b: Seq<u8>, p: int)
    requires
        valid_utf8(b),
        0 <= p < b.len(),
        is_char_boundary(b, p),
    ensures
        valid_utf8(b.subrange(p, b.len() as int)),
        valid_first_scalar(b.subrange(p, b.len() as int)),
        1 <= width_at(b, p) <= 4,
        p + width_at(b, p) <= b.len(),
        is_char_boundary(b, p + width_at(b, p)),
        b[p] < 0x80 ==> width_at(b, p) == 1 && scalar_at(b, p) == b[p] as u32,
{
    let t = b.subrange(p, b.len() as int);
    vstd::utf8::valid_utf8_split(b, p);
    assert(valid_first_scalar(t));
    let w = length_of_first_scalar(t);
    assert(valid_utf8(pop_first_scalar(t)));
    let q = p + w;
    if q < b.len() {
        let rest = pop_first_scalar(t);
        assert(rest.len() > 0);
        assert(rest[0] == b[q]);
        assert(valid_first_scalar(rest));
        assert(!is_continuation_byte(b[q]));
    } else {
        vstd::utf8::is_char_boundary_start_end_of_seq(b);
    }
    if b[p] < 0x80 {
        assert(t[0] == b[p]);
        let x = b[p];
        assert((x & 0x7f) == x) by (bit_vector)
            requires
                x < 0x80,
        ;
    }
}

/// No character boundary falls strictly inside the character that starts at
/// byte `p`.
pub proof fn lemma_inside_char(b: Seq<u8>, p: int, q: int)
    requires
        valid_utf8(b),
        0 <= p < b.len(),
        is_char_boundary(b, p),
        p < q < p + width_at(b, p),
    ensures
        !is_char_boundary(b, q),
{
    lemma_scalar_at(b, p);
    let t = b.subrange(p, b.len() as int);
    assert(t[q - p] == b[q]);
    assert(is_continuation_byte(t[q - p]));
}

/// Decodes the scalar that starts at byte `p`, with its width in bytes.
pub fn decode_at(b: &[u8], p: usize) -> (r: (u32, usize))
    requires
        valid_utf8(b@),
        p < b@.len(),
        is_char_boundary(b@, p as int),
    ensures
        r.0 == scalar_at(b@, p as int),
        r.1 == width_at(b@, p as int),
        1 <= r.1 <= 4,
        p + r.1 <= b@.len(),
        is_char_boundary(b@, p + r.1),
{
    proof {
        lemma_scalar_at(b@, p as int);
    }
    let ghost t = b@.subrange(p as int, b@.len() as int);
    assert(t[0] == b@[p as int]);
    let b0 = b[p];
    if b0 <= 0x7f {
        ((b0 & 0x7f) as u32, 1)
    } else if b0 <= 0xdf {
        assert(t[1] == b@[p + 1]);
        let b1 = b[p + 1];
        ((((b0 & 0x1f) as u32) << 6) | ((b1 & 0x3f) as u32), 2)
    } else if b0 <= 0xef {
        assert(t[1] == b@[p + 1]);
        assert(t[2] == b@[p + 2]);
        let b1 = b[p + 1];
        let b2 = b[p + 2];
        ((((b0 & 0x0f) as u32) << 12) | (((b1 & 0x3f) as u32) << 6) | ((b2 & 0x3f) as u32), 3)
    } else {
        assert(t[1] == b@[p + 1]);
        assert(t[2] == b@[p + 2]);
        assert(t[3] == b@[p + 3]);
        let b1 = b[p + 1];
        let b2 = b[p + 2];
        let b3 = b[p + 3];
        (
            (((b0 & 0x07) as u32) << 18) | (((b1 & 0x3f) as u32) << 12) | (((b2 & 0x3f) as u32)
                << 6) | ((b3 & 0x3f) as u32),
            4,
        )
    }
}


/// The first position in `[lo, hi)` where `pred` holds.
pub open spec fn first_in(pred: spec_fn(int) -> bool, lo: int, hi: int) -> Option<int>
    decreases hi - lo,
{
    if lo >= hi {
        None
    } else if pred(lo) {
        Some(lo)
    } else {
        first_in(pred, lo + 1, hi)
    }
}

/// The last position in `[lo, hi)` where `pred` holds.
pub open spec fn last_in(pred: spec_fn(int) -> bool, lo: int, hi: int) -> Option<int>
    decreases hi - lo,
{
    if lo >= hi {
        None
    } else if pred(hi - 1) {
        Some(hi - 1)
    } else {
        last_in(pred, lo, hi - 1)
    }
}

pub proof fn lemma_first_in(pred: spec_fn(int) -> bool, lo: int, hi: int)
    ensures
        match first_in(pred, lo, hi) {
            Some(k) => lo <= k < hi && pred(k) && forall|j: int| lo <= j < k ==> !#[trigger] pred(j),
            None => forall|j: int| lo <= j < hi ==> !#[trigger] pred(j),
        },
    decreases hi - lo,
{
    if lo < hi && !pred(lo) {
        lemma_first_in(pred, lo + 1, hi);
    }
}

pub proof fn lemma_last_in(pred: spec_fn(int) -> bool, lo: int, hi: int)
    ensures
        match last_in(pred, lo, hi) {
            Some(k) => lo <= k < hi && pred(k) && forall|j: int| k < j < hi ==> !#[trigger] pred(j),
            None => forall|j: int| lo <= j < hi ==> !#[trigger] pred(j),
        },
    decreases hi - lo,
{
    if lo < hi && !pred(hi - 1) {
        lemma_last_in(pred, lo, hi - 1);
    }
}

/// Growing the range by one position keeps an earlier first hit.
pub proof fn lemma_first_in_extend(pred: spec_fn(int) -> bool, lo: int, hi: int)
    requires
        lo <= hi,
    ensures
        first_in(pred, lo, hi + 1) == match first_in(pred, lo, hi) {
            Some(k) => Some(k),
            None => if pred(hi) {
                Some(hi)
            } else {
                None
            },
        },
    decreases hi - lo,
{
    if lo < hi && !pred(lo) {
        lemma_first_in_extend(pred, lo + 1, hi);
    } else if lo == hi {
        assert(first_in(pred, lo + 1, hi + 1) is None);
    }
}

/// The first hit in a range is the first hit in any longer range.
pub proof fn lemma_first_in_prefix(pred: spec_fn(int) -> bool, lo: int, mid: int, hi: int)
    requires
        lo <= mid <= hi,
        first_in(pred, lo, mid) is Some,
    ensures
        first_in(pred, lo, hi) == first_in(pred, lo, mid),
    decreases mid - lo,
{
    if !pred(lo) {
        lemma_first_in_prefix(pred, lo + 1, mid, hi);
    }
}

/// A string's bytes are valid UTF-8 and decode back to its characters.
pub proof fn lemma_str_bytes(s: &str)
    ensures
        valid_utf8(s.spec_bytes()),
        decode_utf8(s.spec_bytes()) == s@,
        s.spec_bytes() == utf8(s@),
        is_char_boundary(s.spec_bytes(), 0),
        is_char_boundary(s.spec_bytes(), s.spec_bytes().len() as int),
{
    vstd::utf8::encode_utf8_valid_utf8(s@);
    vstd::utf8::encode_utf8_decode_utf8(s@);
    vstd::utf8::is_char_boundary_start_end_of_seq(s.spec_bytes());
}

/// Splitting valid UTF-8 at a boundary leaves valid UTF-8 whose boundaries
/// are those of the whole, shifted.
pub proof fn lemma_boundary_in_tail(b: Seq<u8>, a: int, q: int)
    requires
        valid_utf8(b),
        0 <= a <= q <= b.len(),
        is_char_boundary(b, a),
    ensures
        valid_utf8(b.subrange(a, b.len() as int)),
        is_char_boundary(b.subrange(a, b.len() as int), q - a) <==> is_char_boundary(b, q),
{
    let t = b.subrange(a, b.len() as int);
    vstd::utf8::valid_utf8_split(b, a);
    vstd::utf8::is_char_boundary_start_end_of_seq(t);
    vstd::utf8::is_char_boundary_start_end_of_seq(b);
    if q < b.len() {
        assert(t[q - a] == b[q]);
        vstd::utf8::is_char_boundary_iff_not_is_continuation_byte(b, q);
        vstd::utf8::is_char_boundary_iff_not_is_continuation_byte(t, q - a);
    }
}

/// The bytes between two character boundaries are valid UTF-8 whose
/// boundaries are those of the whole, shifted.
pub proof fn lemma_boundary_in_sub(b: Seq<u8>, x: int, y: int, q: int)
    requires
        valid_utf8(b),
        0 <= x <= q <= y <= b.len(),
        is_char_boundary(b, x),
        is_char_boundary(b, y),
    ensures
        valid_utf8(b.subrange(x, y)),
        is_char_boundary(b.subrange(x, y), q - x) <==> is_char_boundary(b, q),
{
    let t = b.subrange(x, b.len() as int);
    lemma_boundary_in_tail(b, x, y);
    let u = t.subrange(0, y - x);
    vstd::utf8::valid_utf8_split(t, y - x);
    assert(u =~= b.subrange(x, y));
    vstd::utf8::is_char_boundary_start_end_of_seq(u);
    if q < y {
        assert(u[q - x] == b[q]);
        vstd::utf8::is_char_boundary_iff_not_is_continuation_byte(u, q - x);
        vstd::utf8::is_char_boundary_iff_not_is_continuation_byte(b, q);
    } else {
        assert(u.len() == y - x);
    }
}

/// The range that trimming keeps lies within the bytes and starts and ends
/// on character boundaries.
pub proof fn lemma_trim_range(b: Seq<u8>)
    requires
        valid_utf8(b),
    ensures
        0 <= trim_range(b).0 <= trim_range(b).1 <= b.len(),
        is_char_boundary(b, trim_range(b).0),
        is_char_boundary(b, trim_range(b).1),
{
    let pred = |p: int| starts_non_white(b, p);
    lemma_first_in(pred, 0, b.len() as int);
    lemma_last_in(pred, 0, b.len() as int);
    vstd::utf8::is_char_boundary_start_end_of_seq(b);
    if let Some(f) = first_in(pred, 0, b.len() as int) {
        let l = last_in(pred, 0, b.len() as int).unwrap();
        lemma_scalar_at(b, l);
    }
}

/// Encoding a concatenation encodes each part.
pub proof fn lemma_utf8_concat(a: Seq<char>, b: Seq<char>)
    ensures
        utf8(a + b) == utf8(a) + utf8(b),
    decreases a.len(),
{
    if a.len() == 0 {
        assert(a + b =~= b);
    } else {
        lemma_utf8_concat(a.drop_first(), b);
        assert((a + b).drop_first() =~= a.drop_first() + b);
        assert((a + b)[0] == a[0]);
    }
}

/// The part of `s` between two byte offsets that fall on character
/// boundaries.
pub fn substr(s: &str, a: usize, b: usize) -> (r: &str)
    requires
        a <= b <= s.spec_bytes().len(),
        is_char_boundary(s.spec_bytes(), a as int),
        is_char_boundary(s.spec_bytes(), b as int),
    ensures
        r.spec_bytes() == s.spec_bytes().subrange(a as int, b as int),
        r@ == decode_utf8(s.spec_bytes().subrange(a as int, b as int)),
        valid_utf8(s.spec_bytes().subrange(a as int, b as int)),
{
    proof {
        lemma_str_bytes(s);
        lemma_boundary_in_tail(s.spec_bytes(), a as int, b as int);
    }
    let (_, tail) = s.split_at(a);
    let (mid, _) = tail.split_at(b - a);
    proof {
        lemma_str_bytes(mid);
        assert(mid.spec_bytes() =~= s.spec_bytes().subrange(a as int, b as int));
    }
    mid
}

/// A character that is not white space starts at byte `p`.
pub open spec fn starts_non_white(b: Seq<u8>, p: int) -> bool {
    &&& 0 <= p < b.len()
    &&& is_char_boundary(b, p)
    &&& !is_white_space(scalar_at(b, p))
}

/// The byte range that is left of `b` once leading and trailing white space
/// are taken off.
pub open spec fn trim_range(b: Seq<u8>) -> (int, int) {
    let pred = |p: int| starts_non_white(b, p);
    match first_in(pred, 0, b.len() as int) {
        None => (0, 0),
        Some(f) => {
            let l = last_in(pred, 0, b.len() as int).unwrap();
            (f, l + width_at(b, l))
        },
    }
}

/// `s` with leading and trailing white space removed, as `str::trim` does.
pub open spec fn trimmed(s: Seq<char>) -> Seq<char> {
    let b = utf8(s);
    decode_utf8(b.subrange(trim_range(b).0, trim_range(b).1))
}

/// The byte offsets that `trim_range` gives the bytes of `s`.
pub fn trim_offsets(s: &str) -> (r: (usize, usize))
    ensures
        r.0 == trim_range(s.spec_bytes()).0,
        r.1 == trim_range(s.spec_bytes()).1,
        r.0 <= r.1 <= s.spec_bytes().len(),
        is_char_boundary(s.spec_bytes(), r.0 as int),
        is_char_boundary(s.spec_bytes(), r.1 as int),
{
    let b = s.as_bytes();
    let n = b.len();
    let ghost bs = b@;
    let ghost pred = |p: int| starts_non_white(bs, p);
    proof {
        lemma_str_bytes(s);
    }
    let mut first: Option<usize> = None;
    let mut last: usize = 0;
    let mut last_end: usize = 0;
    let mut p: usize = 0;
    while p < n
        invariant
            bs == b@,
            bs == s.spec_bytes(),
            valid_utf8(bs),
            n == bs.len(),
            p <= n,
            pred == (|q: int| starts_non_white(bs, q)),
            first is None <==> first_in(pred, 0, p as int) is None,
            first matches Some(f) ==> first_in(pred, 0, p as int) == Some(f as int),
            first is Some ==> last_in(pred, 0, p as int) == Some(last as int) && last_end == last
                + width_at(bs, last as int) && last_end <= n,
        decreases n - p,
    {
        proof {
            lemma_first_in_extend(pred, 0, p as int);
            lemma_first_in(pred, 0, p as int);
            lemma_last_in(pred, 0, p as int);
        }
        let byte = b[p];
        proof {
            vstd::utf8::is_char_boundary_iff_not_is_continuation_byte(bs, p as int);
        }
        if !(0x80 <= byte && byte <= 0xbf) {
            let (c, w) = decode_at(b, p);
            if !white_space_scalar(c) {
                assert(pred(p as int));
                if first.is_none() {
                    first = Some(p);
                }
                last = p;
                last_end = p + w;
            } else {
                assert(!pred(p as int));
            }
        } else {
            assert(!pred(p as int));
        }
        p = p + 1;
    }
    proof {
        lemma_first_in(pred, 0, n as int);
        lemma_last_in(pred, 0, n as int);
    }
    match first {
        None => (0, 0),
        Some(f) => {
            proof {
                lemma_scalar_at(bs, last as int);
            }
            (f, last_end)
        },
    }
}

/// Where no position of `[mid, hi)` satisfies `pred`, the last hit below
/// `hi` is the last hit below `mid`.
pub proof fn lemma_last_in_skip(pred: spec_fn(int) -> bool, lo: int, mid: int, hi: int)
    requires
        lo <= mid <= hi,
        forall|j: int| mid <= j < hi ==> !#[trigger] pred(j),
    ensures
        last_in(pred, lo, hi) == last_in(pred, lo, mid),
    decreases hi - mid,
{
    if mid < hi {
        assert(!pred(hi - 1));
        lemma_last_in_skip(pred, lo, mid, hi - 1);
    }
}


/// Appends `t` to `s`, through the `append` that vstd specifies.
pub fn push_str(s: &mut String, t: &str)
    ensures
        final(s)@ == old(s)@ + t@,
{
    s.append(t);
}


/// `String::push`.  Claimed of std, as its documentation says: the string
/// afterwards is the old one followed by `c`.
#[verifier::external_body]
pub fn push_char(s: &mut String, c: char)
    ensures
        final(s)@ == old(s)@.push(c),
{
    s.push(c);
}

/// The decimal digit for `d`, which is below ten.
pub open spec fn digit_char(d: int) -> char {
    if d == 0 {
        '0'
    } else if d == 1 {
        '1'
    } else if d == 2 {
        '2'
    } else if d == 3 {
        '3'
    } else if d == 4 {
        '4'
    } else if d == 5 {
        '5'
    } else if d == 6 {
        '6'
    } else if d == 7 {
        '7'
    } else if d == 8 {
        '8'
    } else {
        '9'
    }
}

/// The decimal notation of `n`, without leading zeros.
pub open spec fn decimal(n: nat) -> Seq<char>
    decreases n,
{
    if n < 10 {
        seq![digit_char(n as int)]
    } else {
        decimal(n / 10) + seq![digit_char((n % 10) as int)]
    }
}

fn digit(d: usize) -> (c: char)
    requires
        d < 10,
    ensures
        c == digit_char(d as int),
{
    if d == 0 {
        '0'
    } else if d == 1 {
        '1'
    } else if d == 2 {
        '2'
    } else if d == 3 {
        '3'
    } else if d == 4 {
        '4'
    } else if d == 5 {
        '5'
    } else if d == 6 {
        '6'
    } else if d == 7 {
        '7'
    } else if d == 8 {
        '8'
    } else {
        '9'
    }
}

/// Appends the decimal notation of `n`, as `{}` formats an integer.
pub fn push_decimal(s: &mut String, n: usize)
    ensures
        final(s)@ == old(s)@ + decimal(n as nat),
    decreases n,
{
    if n >= 10 {
        push_decimal(s, n / 10);
    }
    let ghost before = s@;
    push_char(s, digit(n % 10));
    proof {
        assert(s@ =~= before.push(digit_char((n % 10) as int)));
        assert(s@ =~= old(s)@ + decimal(n as nat));
    }
}

} // verus!
