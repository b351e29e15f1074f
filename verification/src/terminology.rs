//! Glossary terms relevant to a chunk, and the terminology section of the
//! translation prompt.

use vstd::prelude::*;
use vstd::string::*;
use vstd::utf8::*;

use crate::ordering::{
    bytes_less, bytes_lt, is_strict_weak_order, lemma_best_index, lemma_bytes_lt_irreflexive,
    lemma_bytes_lt_total, lemma_bytes_lt_transitive, lemma_scan_step, selection_order,
};
use crate::patterns::{
    compile_regex, compiled_from, escape, escaped, find_spans, pattern_spans, spans_of_pattern,
    span_fits, CompiledRegex,
};
use crate::text::{lemma_str_bytes, push_str, substr, utf8};
use crate::types::Principle;
use crate::markdown::{lemma_occurs_within, occurs_in};

verus! {

/// A parenthetical note and the white space around it.
pub const PARENS_PATTERN: &'static str = "\\s*\\(.*?\\)\\s*";

/// At most this many terms are picked for one chunk, to keep the prompt short.
pub const MAX_RELEVANT_TERMS: usize = 15;

/// `term` without its first parenthetical note.
pub open spec fn base_term(term: Seq<char>) -> Seq<char> {
    let sp = pattern_spans(PARENS_PATTERN@, term);
    let b = utf8(term);
    if sp.len() == 0 {
        term
    } else {
        decode_utf8(b.subrange(0, sp[0].0 as int)) + decode_utf8(b.subrange(sp[0].1 as int, b.len() as int))
    }
}

fn base_term_with(parens: &Option<CompiledRegex>, term: &str) -> (r: String)
    requires
        compiled_from(*parens, PARENS_PATTERN@),
    ensures
        r@ == base_term(term@),
{
    let spans = spans_of_pattern(parens, term);
    proof {
        lemma_str_bytes(term);
    }
    if spans.len() == 0 {
        term.to_owned()
    } else {
        let (s, e) = spans[0];
        proof {
            assert(span_fits(spans@[0], term.spec_bytes()));
        }
        let n = term.as_bytes().len();
        let mut r = substr(term, 0, s).to_owned();
        push_str(&mut r, substr(term, e, n));
        r
    }
}

/// Extract the base term by removing the parenthetical note,
/// e.g., "acquire (lockの)" -> "acquire"
pub fn extract_base_term(term: &str) -> (r: String)
    ensures
        r@ == base_term(term@),
{
    let parens = compile_regex(PARENS_PATTERN);
    base_term_with(&parens, term)
}

/// What `str::to_lowercase` gives: each character replaced by its Unicode
/// lowercase mapping.
pub uninterp spec fn lowercase(s: Seq<char>) -> Seq<char>;

/// `str::to_lowercase`.  Claimed of std: the result is `lowercase` of the
/// text (the mapping depends on the text alone, not on a locale).
#[verifier::external_body]
pub fn to_lowercase(s: &str) -> (r: String)
    ensures
        r@ == lowercase(s@),
{
    s.to_lowercase()
}

/// A list of (term, translation) pairs as character sequences.
pub open spec fn pairs_view(g: Seq<(String, String)>) -> Seq<(Seq<char>, Seq<char>)> {
    g.map_values(|p: (String, String)| (p.0@, p.1@))
}

/// `a`'s term is longer in bytes than `b`'s.
pub open spec fn longer_term(a: (Seq<char>, Seq<char>), b: (Seq<char>, Seq<char>)) -> bool {
    utf8(a.0).len() > utf8(b.0).len()
}

/// `a`'s term comes before `b`'s in the byte order of `String`.
pub open spec fn smaller_term(a: (Seq<char>, Seq<char>), b: (Seq<char>, Seq<char>)) -> bool {
    bytes_lt(utf8(a.0), utf8(b.0))
}

pub open spec fn term_order(by_length: bool) -> spec_fn((Seq<char>, Seq<char>), (Seq<char>, Seq<char>)) -> bool {
    if by_length {
        |a: (Seq<char>, Seq<char>), b: (Seq<char>, Seq<char>)| longer_term(a, b)
    } else {
        |a: (Seq<char>, Seq<char>), b: (Seq<char>, Seq<char>)| smaller_term(a, b)
    }
}

proof fn lemma_term_order(by_length: bool)
    ensures
        is_strict_weak_order(term_order(by_length)),
{
    let before = term_order(by_length);
    if !by_length {
        assert forall|x: (Seq<char>, Seq<char>)| !#[trigger] before(x, x) by {
            lemma_bytes_lt_irreflexive(utf8(x.0));
        }
        assert forall|x: (Seq<char>, Seq<char>), y: (Seq<char>, Seq<char>), z: (Seq<char>, Seq<char>)|
            #[trigger] before(x, y) && #[trigger] before(y, z) implies before(x, z) by {
            lemma_bytes_lt_transitive(utf8(x.0), utf8(y.0), utf8(z.0));
        }
        assert forall|x: (Seq<char>, Seq<char>), y: (Seq<char>, Seq<char>), z: (Seq<char>, Seq<char>)|
            #[trigger] before(x, y) implies before(x, z) || #[trigger] before(z, y) by {
            lemma_bytes_lt_total(utf8(x.0), utf8(z.0));
            if bytes_lt(utf8(z.0), utf8(x.0)) {
                lemma_bytes_lt_transitive(utf8(z.0), utf8(x.0), utf8(y.0));
            }
        }
    }
}

fn comes_before(a: &(String, String), b: &(String, String), by_length: bool) -> (r: bool)
    ensures
        r == (term_order(by_length))((a.0@, a.1@), (b.0@, b.1@)),
{
    let ka = a.0.as_str().as_bytes();
    let kb = b.0.as_str().as_bytes();
    if by_length {
        ka.len() > kb.len()
    } else {
        bytes_less(ka, kb)
    }
}

/// The terms ordered longest first (`by_length`) or alphabetically, terms
/// that tie keeping their order.
pub fn sort_terms(terms: &Vec<(String, String)>, by_length: bool) -> (r: Vec<(String, String)>)
    ensures
        pairs_view(r@) == selection_order(pairs_view(terms@), term_order(by_length)),
{
    let ghost before = term_order(by_length);
    proof {
        lemma_term_order(by_length);
    }
    let mut w: Vec<(String, String)> = Vec::new();
    let mut i: usize = 0;
    while i < terms.len()
        invariant
            i <= terms.len(),
            w.len() == i,
            pairs_view(w@) == pairs_view(terms@).take(i as int),
        decreases terms.len() - i,
    {
        let k = terms[i].0.clone();
        let v = terms[i].1.clone();
        let ghost old_w = w@;
        w.push((k, v));
        proof {
            assert(k@ == terms@[i as int].0@);
            assert(v@ == terms@[i as int].1@);
            assert(w@ == old_w.push((k, v)));
            assert forall|m: int| 0 <= m < i + 1 implies #[trigger] pairs_view(w@)[m] == pairs_view(
                terms@,
            )[m] by {
                if m < i {
                    assert(w@[m] == old_w[m]);
                    assert(pairs_view(old_w)[m] == pairs_view(terms@).take(i as int)[m]);
                    assert(pairs_view(w@)[m] == (w@[m].0@, w@[m].1@));
                    assert(pairs_view(old_w)[m] == (old_w[m].0@, old_w[m].1@));
                } else {
                    assert(w@[m] == (k, v));
                    assert(pairs_view(w@)[m] == (w@[m].0@, w@[m].1@));
                    assert(pairs_view(terms@)[m] == (terms@[m].0@, terms@[m].1@));
                }
            }
            assert(pairs_view(w@) =~= pairs_view(terms@).take(i + 1));
        }
        i = i + 1;
    }
    proof {
        assert(pairs_view(terms@).take(terms.len() as int) =~= pairs_view(terms@));
    }
    let ghost all = pairs_view(terms@);
    let mut out: Vec<(String, String)> = Vec::new();
    proof {
        assert(pairs_view(out@) + selection_order(pairs_view(w@), before) =~= selection_order(
            all,
            before,
        ));
    }
    while w.len() > 0
        invariant
            before == term_order(by_length),
            is_strict_weak_order(before),
            pairs_view(out@) + selection_order(pairs_view(w@), before) == selection_order(all, before),
        decreases w.len(),
    {
        let ghost v = pairs_view(w@);
        let mut best: usize = 0;
        let mut j: usize = 1;
        while j < w.len()
            invariant
                v == pairs_view(w@),
                is_strict_weak_order(before),
                before == term_order(by_length),
                0 <= best < j <= w.len(),
                forall|k: int| 0 <= k < j ==> !before(#[trigger] v[k], v[best as int]),
                forall|k: int| 0 <= k < best ==> before(v[best as int], #[trigger] v[k]),
            decreases w.len() - j,
        {
            proof {
                lemma_scan_step(v, before, best as int, j as int);
            }
            if comes_before(&w[j], &w[best], by_length) {
                best = j;
            }
            j = j + 1;
        }
        proof {
            lemma_best_index(v, before, best as int);
        }
        let item = w.remove(best);
        let ghost old_out = pairs_view(out@);
        out.push(item);
        proof {
            assert(pairs_view(w@) =~= v.remove(best as int));
            assert(pairs_view(out@) =~= old_out.push(v[best as int]));
            assert(selection_order(v, before) == seq![v[best as int]] + selection_order(
                v.remove(best as int),
                before,
            ));
            assert(old_out + selection_order(v, before) =~= pairs_view(out@) + selection_order(
                pairs_view(w@),
                before,
            ));
        }
    }
    proof {
        assert(pairs_view(out@) + Seq::<(Seq<char>, Seq<char>)>::empty() =~= pairs_view(out@));
    }
    out
}


/// The pattern that finds `term` as a whole word, case-insensitively: its
/// base term, escaped, between word boundaries.
pub open spec fn term_pattern(term: Seq<char>) -> Seq<char> {
    "(?i)\\b"@ + escaped(base_term(term)) + "\\b"@
}

/// `term` occurs as a whole word in the lowercased chunk `lower`.
pub open spec fn term_occurs(term: Seq<char>, lower: Seq<char>) -> bool {
    pattern_spans(term_pattern(term), lower).len() > 0
}

/// The pairs of `terms` whose term occurs in `lower`, in order.
pub open spec fn occurring_terms(terms: Seq<(Seq<char>, Seq<char>)>, lower: Seq<char>) -> Seq<
    (Seq<char>, Seq<char>),
>
    decreases terms.len(),
{
    if terms.len() == 0 {
        Seq::empty()
    } else {
        occurring_terms(terms.drop_last(), lower) + if term_occurs(terms.last().0, lower) {
            seq![terms.last()]
        } else {
            Seq::empty()
        }
    }
}

/// The glossary pairs picked for `chunk`: longest terms first, those that
/// occur in the chunk, at most `MAX_RELEVANT_TERMS` of them.
pub open spec fn relevant_terms(chunk: Seq<char>, glossary: Seq<(Seq<char>, Seq<char>)>) -> Seq<
    (Seq<char>, Seq<char>),
> {
    let found = occurring_terms(selection_order(glossary, term_order(true)), lowercase(chunk));
    if found.len() <= MAX_RELEVANT_TERMS {
        found
    } else {
        found.take(MAX_RELEVANT_TERMS as int)
    }
}

proof fn lemma_occurring_step(terms: Seq<(Seq<char>, Seq<char>)>, k: int, lower: Seq<char>)
    requires
        0 <= k < terms.len(),
    ensures
        occurring_terms(terms.take(k + 1), lower) == occurring_terms(terms.take(k), lower) + if term_occurs(
            terms[k].0,
            lower,
        ) {
            seq![terms[k]]
        } else {
            Seq::empty()
        },
{
    assert(terms.take(k + 1).drop_last() =~= terms.take(k));
}

proof fn lemma_occurring_prefix(terms: Seq<(Seq<char>, Seq<char>)>, k: int, lower: Seq<char>)
    requires
        0 <= k <= terms.len(),
    ensures
        occurring_terms(terms.take(k), lower).len() <= occurring_terms(terms, lower).len(),
        occurring_terms(terms, lower).take(occurring_terms(terms.take(k), lower).len() as int)
            == occurring_terms(terms.take(k), lower),
    decreases terms.len() - k,
{
    let f = occurring_terms(terms, lower);
    if k == terms.len() {
        assert(terms.take(k) =~= terms);
        assert(f.take(f.len() as int) =~= f);
    } else {
        lemma_occurring_prefix(terms, k + 1, lower);
        lemma_occurring_step(terms, k, lower);
        let a = occurring_terms(terms.take(k), lower);
        let b = occurring_terms(terms.take(k + 1), lower);
        assert(b.take(a.len() as int) =~= a);
        assert(f.take(a.len() as int) =~= f.take(b.len() as int).take(a.len() as int));
    }
}

/// Extract terms from the glossary that appear in the chunk: matched as
/// whole words, case-insensitively, longest terms first, at most
/// `MAX_RELEVANT_TERMS` of them.
pub fn extract_relevant_terms(chunk: &str, glossary: &Vec<(String, String)>) -> (r: Vec<(String, String)>)
    requires
        distinct_terms(pairs_view(glossary@)),
    ensures
        pairs_view(r@) == relevant_terms(chunk@, pairs_view(glossary@)),
{
    let chunk_lower = to_lowercase(chunk);
    let terms = sort_terms(glossary, true);
    let parens = compile_regex(PARENS_PATTERN);
    let ghost sorted = pairs_view(terms@);
    let ghost lower = lowercase(chunk@);
    let mut relevant: Vec<(String, String)> = Vec::new();
    let mut i: usize = 0;
    while i < terms.len()
        invariant
            sorted == pairs_view(terms@),
            sorted == selection_order(pairs_view(glossary@), term_order(true)),
            lower == chunk_lower@,
            lower == lowercase(chunk@),
            compiled_from(parens, PARENS_PATTERN@),
            i <= terms.len(),
            pairs_view(relevant@) == occurring_terms(sorted.take(i as int), lower),
            relevant.len() < MAX_RELEVANT_TERMS,
        decreases terms.len() - i,
    {
        proof {
            lemma_occurring_step(sorted, i as int, lower);
            assert(sorted[i as int] == (terms@[i as int].0@, terms@[i as int].1@));
        }
        let base = base_term_with(&parens, terms[i].0.as_str());
        let mut pattern = String::new();
        push_str(&mut pattern, "(?i)\\b");
        let escaped_base = escape(base.as_str());
        push_str(&mut pattern, escaped_base.as_str());
        push_str(&mut pattern, "\\b");
        let re = compile_regex(pattern.as_str());
        let found = match re {
            Some(c) => find_spans(&c, chunk_lower.as_str()).len() > 0,
            None => false,
        };
        proof {
            assert(pattern@ =~= term_pattern(sorted[i as int].0));
        }
        if found {
            let k = terms[i].0.clone();
            let v = terms[i].1.clone();
            let ghost old_rel = relevant@;
            relevant.push((k, v));
            proof {
                assert(pairs_view(relevant@) =~= pairs_view(old_rel).push(sorted[i as int]));
            }
            if relevant.len() >= MAX_RELEVANT_TERMS {
                proof {
                    let f = occurring_terms(sorted, lower);
                    lemma_occurring_prefix(sorted, i + 1, lower);
                    assert(pairs_view(relevant@) =~= occurring_terms(sorted.take(i + 1), lower));
                    assert(pairs_view(relevant@).len() == MAX_RELEVANT_TERMS);
                    assert(f.take(MAX_RELEVANT_TERMS as int) == pairs_view(relevant@));
                    if f.len() == MAX_RELEVANT_TERMS {
                        assert(f =~= f.take(MAX_RELEVANT_TERMS as int));
                    }
                }
                return relevant;
            }
        } else {
            proof {
                assert(occurring_terms(sorted.take(i + 1), lower) =~= occurring_terms(sorted.take(i as int), lower));
            }
        }
        i = i + 1;
    }
    proof {
        assert(sorted.take(terms.len() as int) =~= sorted);
    }
    relevant
}

/// The prompt lines for a principle's notes.
pub open spec fn notes_text(notes: Seq<String>) -> Seq<char>
    decreases notes.len(),
{
    if notes.len() == 0 {
        Seq::empty()
    } else {
        notes_text(notes.drop_last()) + "  - "@ + notes.last()@ + "\n"@
    }
}

/// The prompt lines for one principle: its text, its notes, and its
/// reference when it has one.
pub open spec fn principle_text(p: Principle) -> Seq<char> {
    "- "@ + p.text@ + "\n"@ + notes_text(p.notes@) + match p.reference {
        Some(r) => "  (Reference: "@ + r@ + ")\n"@,
        None => Seq::empty(),
    }
}

pub open spec fn principles_text(ps: Seq<Principle>) -> Seq<char>
    decreases ps.len(),
{
    if ps.len() == 0 {
        Seq::empty()
    } else {
        principles_text(ps.drop_last()) + principle_text(ps.last())
    }
}

/// One line per pair: `- "term" -> "translation"`.
pub open spec fn terms_text(ts: Seq<(Seq<char>, Seq<char>)>) -> Seq<char>
    decreases ts.len(),
{
    if ts.len() == 0 {
        Seq::empty()
    } else {
        terms_text(ts.drop_last()) + "- \""@ + ts.last().0 + "\" -> \""@ + ts.last().1 + "\"\n"@
    }
}

/// The terminology section of the prompt: the principles first, then the
/// relevant terms in alphabetical order.
pub open spec fn terminology_prompt(terms: Seq<(Seq<char>, Seq<char>)>, principles: Seq<Principle>) -> Seq<char> {
    "Translation Principles:\n"@ + principles_text(principles) + "\nRelevant Terminology:\n"@
        + terms_text(selection_order(terms, term_order(false)))
}

fn push_principle(prompt: &mut String, principle: &Principle)
    ensures
        final(prompt)@ == old(prompt)@ + principle_text(*principle),
{
    let ghost start = prompt@;
    push_str(prompt, "- ");
    push_str(prompt, principle.text.as_str());
    push_str(prompt, "\n");
    let ghost head = prompt@;
    let mut j: usize = 0;
    while j < principle.notes.len()
        invariant
            j <= principle.notes.len(),
            prompt@ == head + notes_text(principle.notes@.take(j as int)),
        decreases principle.notes.len() - j,
    {
        push_str(prompt, "  - ");
        push_str(prompt, principle.notes[j].as_str());
        push_str(prompt, "\n");
        proof {
            assert(principle.notes@.take(j + 1).drop_last() =~= principle.notes@.take(j as int));
            assert(prompt@ =~= head + notes_text(principle.notes@.take(j + 1)));
        }
        j = j + 1;
    }
    proof {
        assert(principle.notes@.take(principle.notes.len() as int) =~= principle.notes@);
    }
    match &principle.reference {
        Some(reference) => {
            push_str(prompt, "  (Reference: ");
            push_str(prompt, reference.as_str());
            push_str(prompt, ")\n");
        },
        None => {},
    }
    proof {
        assert(prompt@ =~= start + principle_text(*principle));
    }
}

/// Build the terminology prompt section: every principle with its notes
/// and reference, then the relevant terms sorted alphabetically.
pub fn build_terminology_prompt(relevant_terms: &Vec<(String, String)>, principles: &[Principle]) -> (prompt: String)
    requires
        distinct_terms(pairs_view(relevant_terms@)),
    ensures
        prompt@ == terminology_prompt(pairs_view(relevant_terms@), principles@),
{
    let mut prompt = String::new();
    push_str(&mut prompt, "Translation Principles:\n");
    let ghost head = prompt@;
    let mut i: usize = 0;
    while i < principles.len()
        invariant
            i <= principles@.len(),
            prompt@ == head + principles_text(principles@.take(i as int)),
        decreases principles@.len() - i,
    {
        push_principle(&mut prompt, &principles[i]);
        proof {
            assert(principles@.take(i + 1).drop_last() =~= principles@.take(i as int));
            assert(prompt@ =~= head + principles_text(principles@.take(i + 1)));
        }
        i = i + 1;
    }
    proof {
        assert(principles@.take(principles@.len() as int) =~= principles@);
    }
    push_str(&mut prompt, "\nRelevant Terminology:\n");
    let sorted = sort_terms(relevant_terms, false);
    let ghost mid = prompt@;
    let ghost sv = pairs_view(sorted@);
    let mut k: usize = 0;
    while k < sorted.len()
        invariant
            sv == pairs_view(sorted@),
            k <= sorted.len(),
            prompt@ == mid + terms_text(sv.take(k as int)),
        decreases sorted.len() - k,
    {
        push_str(&mut prompt, "- \"");
        push_str(&mut prompt, sorted[k].0.as_str());
        push_str(&mut prompt, "\" -> \"");
        push_str(&mut prompt, sorted[k].1.as_str());
        push_str(&mut prompt, "\"\n");
        proof {
            assert(sv[k as int] == (sorted@[k as int].0@, sorted@[k as int].1@));
            assert(sv.take(k + 1).drop_last() =~= sv.take(k as int));
            assert(prompt@ =~= mid + terms_text(sv.take(k + 1)));
        }
        k = k + 1;
    }
    proof {
        assert(sv.take(sorted.len() as int) =~= sv);
    }
    prompt
}


proof fn lemma_occurring_sorted(terms: Seq<(Seq<char>, Seq<char>)>, lower: Seq<char>)
    requires
        forall|i: int, j: int|
            0 <= i < j < terms.len() ==> utf8((#[trigger] terms[i]).0).len() >= utf8(
                (#[trigger] terms[j]).0,
            ).len(),
    ensures
        forall|i: int|
            0 <= i < occurring_terms(terms, lower).len() ==> terms.contains(
                #[trigger] occurring_terms(terms, lower)[i],
            ) && term_occurs(occurring_terms(terms, lower)[i].0, lower),
        forall|i: int, j: int|
            0 <= i < j < occurring_terms(terms, lower).len() ==> utf8(
                (#[trigger] occurring_terms(terms, lower)[i]).0,
            ).len() >= utf8((#[trigger] occurring_terms(terms, lower)[j]).0).len(),
    decreases terms.len(),
{
    if terms.len() > 0 {
        let init = terms.drop_last();
        lemma_occurring_sorted(init, lower);
        let f0 = occurring_terms(init, lower);
        let f = occurring_terms(terms, lower);
        assert forall|i: int| 0 <= i < f.len() implies terms.contains(#[trigger] f[i])
            && term_occurs(f[i].0, lower) by {
            if i < f0.len() {
                assert(f[i] == f0[i]);
                let m = choose|m: int| 0 <= m < init.len() && init[m] == f0[i];
                assert(terms[m] == f0[i]);
            } else {
                assert(f[i] == terms.last());
                assert(terms[terms.len() - 1] == terms.last());
            }
        }
        assert forall|i: int, j: int| 0 <= i < j < f.len() implies utf8(
            (#[trigger] f[i]).0,
        ).len() >= utf8((#[trigger] f[j]).0).len() by {
            if j < f0.len() {
                assert(f[i] == f0[i] && f[j] == f0[j]);
            } else {
                assert(f[i] == f0[i]);
                let m = choose|m: int| 0 <= m < init.len() && init[m] == f0[i];
                assert(f[j] == terms[terms.len() - 1]);
                assert(terms[m] == f0[i]);
            }
        }
    }
}

/// The pairs picked for a chunk are at most `MAX_RELEVANT_TERMS` glossary
/// pairs, each with a term that occurs in the lowercased chunk, the longer
/// terms first.
pub proof fn lemma_relevant_terms(chunk: Seq<char>, glossary: Seq<(Seq<char>, Seq<char>)>)
    ensures
        relevant_terms(chunk, glossary).len() <= MAX_RELEVANT_TERMS,
        forall|i: int|
            0 <= i < relevant_terms(chunk, glossary).len() ==> glossary.contains(
                #[trigger] relevant_terms(chunk, glossary)[i],
            ) && term_occurs(relevant_terms(chunk, glossary)[i].0, lowercase(chunk)),
        forall|i: int, j: int|
            0 <= i < j < relevant_terms(chunk, glossary).len() ==> utf8(
                (#[trigger] relevant_terms(chunk, glossary)[i]).0,
            ).len() >= utf8((#[trigger] relevant_terms(chunk, glossary)[j]).0).len(),
{
    let order = term_order(true);
    lemma_term_order(true);
    let sorted = selection_order(glossary, order);
    crate::ordering::lemma_selection_order(glossary, order);
    assert forall|i: int, j: int| 0 <= i < j < sorted.len() implies utf8(
        (#[trigger] sorted[i]).0,
    ).len() >= utf8((#[trigger] sorted[j]).0).len() by {
        assert(!order(sorted[j], sorted[i]));
    }
    let lower = lowercase(chunk);
    lemma_occurring_sorted(sorted, lower);
    let f = occurring_terms(sorted, lower);
    let r = relevant_terms(chunk, glossary);
    assert forall|i: int| 0 <= i < r.len() implies glossary.contains(#[trigger] r[i]) && term_occurs(
        r[i].0,
        lower,
    ) by {
        assert(r[i] == f[i]);
        assert(sorted.contains(f[i]));
        vstd::seq_lib::to_multiset_contains(sorted, f[i]);
        vstd::seq_lib::to_multiset_contains(glossary, f[i]);
    }
    assert forall|i: int, j: int| 0 <= i < j < r.len() implies utf8((#[trigger] r[i]).0).len()
        >= utf8((#[trigger] r[j]).0).len() by {
        assert(r[i] == f[i] && r[j] == f[j]);
    }
}

/// The terminology section lists every relevant pair, as often as it was
/// given, in alphabetical order of the terms.
pub proof fn lemma_prompt_terms_sorted(terms: Seq<(Seq<char>, Seq<char>)>)
    ensures
        selection_order(terms, term_order(false)).to_multiset() == terms.to_multiset(),
        forall|i: int, j: int|
            0 <= i < j < terms.len() ==> !bytes_lt(
                utf8((#[trigger] selection_order(terms, term_order(false))[j]).0),
                utf8((#[trigger] selection_order(terms, term_order(false))[i]).0),
            ),
{
    let order = term_order(false);
    lemma_term_order(false);
    crate::ordering::lemma_selection_order(terms, order);
    let st = selection_order(terms, order);
    assert forall|i: int, j: int| 0 <= i < j < terms.len() implies !bytes_lt(
        utf8((#[trigger] st[j]).0),
        utf8((#[trigger] st[i]).0),
    ) by {
        assert(!order(st[j], st[i]));
    }
}


/// No term is listed twice.
pub open spec fn distinct_terms(pairs: Seq<(Seq<char>, Seq<char>)>) -> bool {
    forall|i: int, j: int| 0 <= i < j < pairs.len() ==> (#[trigger] pairs[i]).0 != (#[trigger] pairs[j]).0
}

proof fn lemma_selection_distinct(s: Seq<(Seq<char>, Seq<char>)>)
    requires
        distinct_terms(s),
    ensures
        distinct_terms(selection_order(s, term_order(false))),
    decreases s.len(),
{
    let order = term_order(false);
    lemma_term_order(false);
    crate::ordering::lemma_selection_order(s, order);
    let r = selection_order(s, order);
    if s.len() > 0 {
        let k = crate::ordering::best_index(s, order);
        if 0 <= k < s.len() {
            let t = s.remove(k);
            assert forall|i: int, j: int| 0 <= i < j < t.len() implies (#[trigger] t[i]).0 != (
            #[trigger] t[j]).0 by {
                let a = if i < k {
                    i
                } else {
                    i + 1
                };
                let b = if j < k {
                    j
                } else {
                    j + 1
                };
                assert(t[i] == s[a] && t[j] == s[b]);
            }
            lemma_selection_distinct(t);
            crate::ordering::lemma_selection_order(t, order);
            let rest = selection_order(t, order);
            assert(r == seq![s[k]] + rest);
            assert forall|i: int, j: int| 0 <= i < j < r.len() implies (#[trigger] r[i]).0 != (
            #[trigger] r[j]).0 by {
                if i == 0 {
                    let x = r[j];
                    assert(x == rest[j - 1]);
                    vstd::seq_lib::to_multiset_contains(rest, x);
                    vstd::seq_lib::to_multiset_contains(t, x);
                    let m = choose|m: int| 0 <= m < t.len() && t[m] == x;
                    let m2 = if m < k {
                        m
                    } else {
                        m + 1
                    };
                    assert(t[m] == s[m2]);
                    assert(r[0] == s[k]);
                } else {
                    assert(r[i] == rest[i - 1] && r[j] == rest[j - 1]);
                }
            }
        }
    }
}

/// Pairs with distinct terms, in an order that nothing goes against, are in
/// strictly increasing order of their terms' bytes.
proof fn lemma_strictly_sorted(s: Seq<(Seq<char>, Seq<char>)>)
    requires
        distinct_terms(s),
        forall|i: int, j: int|
            0 <= i < j < s.len() ==> !bytes_lt(utf8((#[trigger] s[j]).0), utf8((#[trigger] s[i]).0)),
    ensures
        forall|i: int, j: int|
            0 <= i < j < s.len() ==> bytes_lt(utf8((#[trigger] s[i]).0), utf8((#[trigger] s[j]).0)),
{
    assert forall|i: int, j: int| 0 <= i < j < s.len() implies bytes_lt(
        utf8((#[trigger] s[i]).0),
        utf8((#[trigger] s[j]).0),
    ) by {
        lemma_bytes_lt_total(utf8(s[i].0), utf8(s[j].0));
        vstd::utf8::encode_utf8_decode_utf8(s[i].0);
        vstd::utf8::encode_utf8_decode_utf8(s[j].0);
    }
}

/// Two lists in strictly increasing order of their terms' bytes that hold
/// the same pairs are the same list.
proof fn lemma_sorted_unique(s1: Seq<(Seq<char>, Seq<char>)>, s2: Seq<(Seq<char>, Seq<char>)>)
    requires
        s1.to_multiset() == s2.to_multiset(),
        forall|i: int, j: int|
            0 <= i < j < s1.len() ==> bytes_lt(utf8((#[trigger] s1[i]).0), utf8((#[trigger] s1[j]).0)),
        forall|i: int, j: int|
            0 <= i < j < s2.len() ==> bytes_lt(utf8((#[trigger] s2[i]).0), utf8((#[trigger] s2[j]).0)),
    ensures
        s1 == s2,
    decreases s1.len(),
{
    vstd::seq_lib::to_multiset_len(s1);
    vstd::seq_lib::to_multiset_len(s2);
    if s1.len() == 0 {
        assert(s1 =~= s2);
    } else {
        let x = s1[0];
        let y = s2[0];
        vstd::seq_lib::to_multiset_contains(s1, x);
        vstd::seq_lib::to_multiset_contains(s2, x);
        vstd::seq_lib::to_multiset_contains(s1, y);
        vstd::seq_lib::to_multiset_contains(s2, y);
        assert(s1.contains(x));
        assert(s2.contains(y));
        if x != y {
            let m = choose|m: int| 0 <= m < s2.len() && s2[m] == x;
            let m2 = choose|m: int| 0 <= m < s1.len() && s1[m] == y;
            assert(m > 0 && m2 > 0);
            assert(bytes_lt(utf8(y.0), utf8(x.0)));
            assert(bytes_lt(utf8(x.0), utf8(y.0)));
            lemma_bytes_lt_transitive(utf8(x.0), utf8(y.0), utf8(x.0));
            lemma_bytes_lt_irreflexive(utf8(x.0));
        }
        let r1 = s1.drop_first();
        let r2 = s2.drop_first();
        vstd::seq_lib::to_multiset_remove(s1, 0);
        vstd::seq_lib::to_multiset_remove(s2, 0);
        assert(s1.remove(0) =~= r1);
        assert(s2.remove(0) =~= r2);
        assert forall|i: int, j: int| 0 <= i < j < r1.len() implies bytes_lt(
            utf8((#[trigger] r1[i]).0),
            utf8((#[trigger] r1[j]).0),
        ) by {
            assert(r1[i] == s1[i + 1] && r1[j] == s1[j + 1]);
        }
        assert forall|i: int, j: int| 0 <= i < j < r2.len() implies bytes_lt(
            utf8((#[trigger] r2[i]).0),
            utf8((#[trigger] r2[j]).0),
        ) by {
            assert(r2[i] == s2[i + 1] && r2[j] == s2[j + 1]);
        }
        lemma_sorted_unique(r1, r2);
        assert(s1 =~= seq![x] + r1);
        assert(s2 =~= seq![y] + r2);
    }
}

/// The terminology section does not depend on the order in which distinct
/// terms arrive, as they come out of a map: two lists that hold the same
/// pairs, no term twice, give the same prompt.
pub proof fn lemma_prompt_ignores_term_order(
    t1: Seq<(Seq<char>, Seq<char>)>,
    t2: Seq<(Seq<char>, Seq<char>)>,
    principles: Seq<Principle>,
)
    requires
        distinct_terms(t1),
        distinct_terms(t2),
        t1.to_multiset() == t2.to_multiset(),
    ensures
        terminology_prompt(t1, principles) == terminology_prompt(t2, principles),
{
    let order = term_order(false);
    lemma_term_order(false);
    lemma_prompt_terms_sorted(t1);
    lemma_prompt_terms_sorted(t2);
    crate::ordering::lemma_selection_order(t1, order);
    crate::ordering::lemma_selection_order(t2, order);
    let s1 = selection_order(t1, order);
    let s2 = selection_order(t2, order);
    lemma_selection_distinct(t1);
    lemma_selection_distinct(t2);
    lemma_strictly_sorted(s1);
    lemma_strictly_sorted(s2);
    lemma_sorted_unique(s1, s2);
}


/// Every picked term occurs in the lowercased chunk as a whole word: the
/// pattern made of its base term, escaped, between the word boundaries `\b`
/// and matched case-insensitively, matches there.
pub proof fn lemma_relevant_terms_are_whole_words(chunk: Seq<char>, glossary: Seq<(Seq<char>, Seq<char>)>)
    ensures
        forall|i: int|
            0 <= i < relevant_terms(chunk, glossary).len() ==> pattern_spans(
                "(?i)\\b"@ + escaped(base_term((#[trigger] relevant_terms(chunk, glossary)[i]).0)) + "\\b"@,
                lowercase(chunk),
            ).len() > 0,
{
    lemma_relevant_terms(chunk, glossary);
}

proof fn lemma_note_in_notes(notes: Seq<String>, j: int)
    requires
        0 <= j < notes.len(),
    ensures
        occurs_in("  - "@ + notes[j]@ + "\n"@, notes_text(notes)),
    decreases notes.len(),
{
    let line = "  - "@ + notes[j]@ + "\n"@;
    let prev = notes_text(notes.drop_last());
    if j == notes.len() - 1 {
        assert(notes_text(notes) =~= prev + line);
        assert(notes_text(notes).subrange(prev.len() as int, (prev.len() + line.len()) as int) =~= line);
    } else {
        assert(notes.drop_last()[j] == notes[j]);
        lemma_note_in_notes(notes.drop_last(), j);
        lemma_occurs_within(line, prev, Seq::empty(), "  - "@ + notes.last()@ + "\n"@);
        assert(Seq::<char>::empty() + prev + ("  - "@ + notes.last()@ + "\n"@) =~= notes_text(notes));
    }
}

proof fn lemma_note_in_principles(ps: Seq<Principle>, i: int, j: int)
    requires
        0 <= i < ps.len(),
        0 <= j < ps[i].notes@.len(),
    ensures
        occurs_in("  - "@ + ps[i].notes@[j]@ + "\n"@, principles_text(ps)),
    decreases ps.len(),
{
    let line = "  - "@ + ps[i].notes@[j]@ + "\n"@;
    let prev = principles_text(ps.drop_last());
    let last = principle_text(ps.last());
    if i == ps.len() - 1 {
        let p = ps[i];
        lemma_note_in_notes(p.notes@, j);
        let pre = "- "@ + p.text@ + "\n"@;
        let post = match p.reference {
            Some(r) => "  (Reference: "@ + r@ + ")\n"@,
            None => Seq::<char>::empty(),
        };
        lemma_occurs_within(line, notes_text(p.notes@), pre, post);
        assert(pre + notes_text(p.notes@) + post =~= last);
        lemma_occurs_within(line, last, prev, Seq::empty());
        assert(prev + last + Seq::<char>::empty() =~= principles_text(ps));
    } else {
        assert(ps.drop_last()[i] == ps[i]);
        lemma_note_in_principles(ps.drop_last(), i, j);
        lemma_occurs_within(line, prev, Seq::empty(), last);
        assert(Seq::<char>::empty() + prev + last =~= principles_text(ps));
    }
}

/// Every note of every principle is a line `  - note` of the prompt,
/// whether or not the principle has a reference.
pub proof fn lemma_prompt_lists_every_note(
    terms: Seq<(Seq<char>, Seq<char>)>,
    principles: Seq<Principle>,
    i: int,
    j: int,
)
    requires
        0 <= i < principles.len(),
        0 <= j < principles[i].notes@.len(),
    ensures
        occurs_in("  - "@ + principles[i].notes@[j]@ + "\n"@, terminology_prompt(terms, principles)),
{
    let line = "  - "@ + principles[i].notes@[j]@ + "\n"@;
    lemma_note_in_principles(principles, i, j);
    let pre = "Translation Principles:\n"@;
    let post = "\nRelevant Terminology:\n"@ + terms_text(selection_order(terms, term_order(false)));
    lemma_occurs_within(line, principles_text(principles), pre, post);
    assert(pre + principles_text(principles) + post =~= terminology_prompt(terms, principles));
}

} // verus!
