//! Library-wide laws, each proved from the public contracts alone: what a
//! built index answers is determined by the corpus text, tokenization loses
//! nothing, lookups are case-insensitive, every contiguous token run of a
//! corpus line is findable, phrases with unknown tokens are not, and a
//! search is a pure read whose outcome every concurrent caller shares.

use vstd::prelude::*;

use crate::output::all_distinct;
use crate::tokens::{
    concat_all, lemma_split_nonempty, lemma_tokens_round_trip, lower_of, spec_split, toks_of,
};
use crate::trie::{
    add_line_spec, built_from, built_lines, has_phrase, lines_at, phrase_in_corpus, present,
    search_outcome, spec_lines, Node,
};

verus! {

proof fn lemma_add_contains(s: Seq<Seq<char>>, l: Seq<char>, x: Seq<char>)
    ensures
        add_line_spec(s, l).contains(x) <==> (s.contains(x) || x == l),
{
    if s.contains(l) {
    } else {
        let sp = s.push(l);
        if sp.contains(x) {
            let i = choose|i: int| 0 <= i < sp.len() && sp[i] == x;
            if i < s.len() {
                assert(s[i] == x);
                assert(s.contains(x));
            } else {
                assert(x == l);
            }
        }
        if s.contains(x) {
            let i = choose|i: int| 0 <= i < s.len() && s[i] == x;
            assert(sp[i] == x);
            assert(sp.contains(x));
        }
        if x == l {
            assert(sp[s.len() as int] == x);
            assert(sp.contains(x));
        }
    }
}

proof fn lemma_built_member(ls: Seq<Seq<char>>, p: Seq<Seq<char>>, x: Seq<char>)
    ensures
        built_lines(ls, p).contains(x) <==> (ls.contains(x) && has_phrase(x, p)),
    decreases ls.len(),
{
    if ls.len() == 0 {
        assert(!built_lines(ls, p).contains(x));
        assert(!ls.contains(x));
    } else {
        let t = ls.drop_last();
        let l = ls.last();
        lemma_built_member(t, p, x);
        if has_phrase(l, p) {
            lemma_add_contains(built_lines(t, p), l, x);
        }
        if ls.contains(x) {
            let i = choose|i: int| 0 <= i < ls.len() && ls[i] == x;
            if i < t.len() {
                assert(t[i] == x);
                assert(t.contains(x));
            } else {
                assert(x == l);
            }
        }
        if t.contains(x) {
            let i = choose|i: int| 0 <= i < t.len() && t[i] == x;
            assert(ls[i] == x);
            assert(ls.contains(x));
        }
        if x == l {
            assert(ls[ls.len() - 1] == x);
            assert(ls.contains(x));
        }
    }
}

proof fn lemma_built_nonempty(ls: Seq<Seq<char>>, p: Seq<Seq<char>>)
    ensures
        built_lines(ls, p).len() > 0 <==> phrase_in_corpus(ls, p),
    decreases ls.len(),
{
    if ls.len() == 0 {
    } else {
        let t = ls.drop_last();
        let l = ls.last();
        lemma_built_nonempty(t, p);
        if has_phrase(l, p) {
            assert(has_phrase(ls[ls.len() - 1], p));
            assert(phrase_in_corpus(ls, p));
            if !built_lines(t, p).contains(l) {
                assert(built_lines(ls, p) == built_lines(t, p).push(l));
            }
        } else {
            assert(built_lines(ls, p) == built_lines(t, p));
            if phrase_in_corpus(ls, p) {
                let j = choose|j: int| 0 <= j < ls.len() && has_phrase(#[trigger] ls[j], p);
                assert(j < t.len());
                assert(t[j] == ls[j]);
                assert(phrase_in_corpus(t, p));
            }
            if phrase_in_corpus(t, p) {
                let j = choose|j: int| 0 <= j < t.len() && has_phrase(#[trigger] t[j], p);
                assert(ls[j] == t[j]);
                assert(phrase_in_corpus(ls, p));
            }
        }
    }
}

proof fn lemma_built_distinct(ls: Seq<Seq<char>>, p: Seq<Seq<char>>)
    ensures
        all_distinct(built_lines(ls, p)),
    decreases ls.len(),
{
    if ls.len() == 0 {
    } else {
        let t = ls.drop_last();
        let l = ls.last();
        let prev = built_lines(t, p);
        lemma_built_distinct(t, p);
        if has_phrase(l, p) && !prev.contains(l) {
            let cur = prev.push(l);
            assert forall|i: int, j: int| 0 <= i < j < cur.len() implies cur[i] != cur[j] by {
                if j == prev.len() {
                    assert(cur[i] == prev[i]);
                    if cur[i] == l {
                        assert(prev.contains(l));
                    }
                }
            }
        }
    }
}

/// The central theorem, in one statement: against an index built from
/// `txt`, a phrase is found exactly when some corpus line contains its
/// token sequence, and the found collection then holds exactly the corpus
/// lines containing it.
pub proof fn lemma_search_finds_exactly(root: Node, txt: Seq<char>, phrase: Seq<char>)
    requires
        built_from(root, spec_lines(txt)),
    ensures
        search_outcome(root, phrase) is Some <==> phrase_in_corpus(
            spec_lines(txt),
            toks_of(phrase),
        ),
        (search_outcome(root, phrase) matches Some(found) ==> forall|l: Seq<char>|
            #[trigger] found.contains(l) <==> (spec_lines(txt).contains(l) && has_phrase(
                l,
                toks_of(phrase),
            ))),
{
    lemma_split_nonempty(lower_of(phrase));
    let p = toks_of(phrase);
    let ls = spec_lines(txt);
    assert(present(root, p) <==> phrase_in_corpus(ls, p));
    if present(root, p) {
        assert(lines_at(root, p) == built_lines(ls, p));
        assert forall|l: Seq<char>| #[trigger] built_lines(ls, p).contains(l) <==> (ls.contains(l)
            && has_phrase(l, p)) by {
            lemma_built_member(ls, p, l);
        }
    }
}

/// Idempotence: two indexes built from identical corpus content answer
/// every phrase with identical outcomes.
pub proof fn lemma_rebuild_idempotent(r1: Node, r2: Node, txt: Seq<char>, phrase: Seq<char>)
    requires
        built_from(r1, spec_lines(txt)),
        built_from(r2, spec_lines(txt)),
    ensures
        search_outcome(r1, phrase) == search_outcome(r2, phrase),
{
    lemma_split_nonempty(lower_of(phrase));
    let p = toks_of(phrase);
    assert(present(r1, p) <==> phrase_in_corpus(spec_lines(txt), p));
    assert(present(r2, p) <==> phrase_in_corpus(spec_lines(txt), p));
    if present(r1, p) {
        assert(lines_at(r1, p) == built_lines(spec_lines(txt), p));
        assert(lines_at(r2, p) == built_lines(spec_lines(txt), p));
    }
}

/// Tokenizer round-trip: concatenating a split's tokens reconstructs the
/// split input exactly; for the case-folding tokenizer, the input it splits
/// is the lower-cased text.
pub proof fn lemma_tokenizer_round_trip(s: Seq<char>)
    ensures
        concat_all(spec_split(s)) == s,
        concat_all(toks_of(s)) == lower_of(s),
{
    lemma_tokens_round_trip(s);
    lemma_tokens_round_trip(lower_of(s));
}

/// Case insensitivity: two phrases equal after case folding get identical
/// outcomes against any one index.
pub proof fn lemma_case_insensitive(root: Node, p1: Seq<char>, p2: Seq<char>)
    requires
        lower_of(p1) == lower_of(p2),
    ensures
        search_outcome(root, p1) == search_outcome(root, p2),
{
}

/// Containment: every contiguous, non-empty token run of a corpus line is
/// present in the built index, and the lines found there include that line.
pub proof fn lemma_containment(root: Node, txt: Seq<char>, line: Seq<char>, st: int, n: int)
    requires
        built_from(root, spec_lines(txt)),
        spec_lines(txt).contains(line),
        0 <= st,
        1 <= n,
        st + n <= toks_of(line).len(),
    ensures
        present(root, toks_of(line).subrange(st, st + n)),
        lines_at(root, toks_of(line).subrange(st, st + n)).contains(line),
{
    let p = toks_of(line).subrange(st, st + n);
    assert(p == toks_of(line).subrange(st, st + p.len() as int));
    assert(has_phrase(line, p));
    let ls = spec_lines(txt);
    let j = choose|j: int| 0 <= j < ls.len() && ls[j] == line;
    assert(has_phrase(ls[j], p));
    assert(phrase_in_corpus(ls, p));
    lemma_built_member(ls, p, line);
}

/// Negative lookup: a phrase containing a token that occurs in no corpus
/// line is absent from the built index.
pub proof fn lemma_negative_lookup(root: Node, txt: Seq<char>, p: Seq<Seq<char>>, t: Seq<char>)
    requires
        built_from(root, spec_lines(txt)),
        p.contains(t),
        forall|j: int|
            0 <= j < spec_lines(txt).len() ==> !toks_of(#[trigger] spec_lines(txt)[j]).contains(t),
    ensures
        !present(root, p),
{
    let ls = spec_lines(txt);
    let k = choose|k: int| 0 <= k < p.len() && p[k] == t;
    assert forall|j: int| 0 <= j < ls.len() implies !has_phrase(#[trigger] ls[j], p) by {
        if has_phrase(ls[j], p) {
            let ts = toks_of(ls[j]);
            let st = choose|st: int|
                0 <= st && st + p.len() <= ts.len() && p == #[trigger] ts.subrange(
                    st,
                    st + p.len() as int,
                );
            assert(ts.subrange(st, st + p.len() as int)[k] == ts[st + k]);
            assert(ts[st + k] == t);
            assert(ts.contains(t));
        }
    }
    assert(!phrase_in_corpus(ls, p));
}

/// Concurrency safety: the outcome of a search is a value of the index and
/// the phrase alone. `search` borrows the index immutably and its contract
/// pins its result to `search_outcome`, so concurrent read-only callers all
/// receive exactly the sequential outcome.
pub proof fn lemma_searches_commute(root: Node, p1: Seq<char>, p2: Seq<char>)
    requires
        p1 == p2,
    ensures
        search_outcome(root, p1) == search_outcome(root, p2),
{
}

/// In a built index a found result is never empty: a phrase's path exists
/// exactly when its line set is non-empty, so "not found" and "found but
/// empty" never coincide.
pub proof fn lemma_found_nonempty(root: Node, txt: Seq<char>, p: Seq<Seq<char>>)
    requires
        built_from(root, spec_lines(txt)),
        p.len() > 0,
    ensures
        present(root, p) <==> lines_at(root, p).len() > 0,
{
    lemma_built_nonempty(spec_lines(txt), p);
}

/// Deduplication: a built index records each matching line once, however
/// many of the line's token runs pass through the node.
pub proof fn lemma_result_distinct(root: Node, txt: Seq<char>, p: Seq<Seq<char>>)
    requires
        built_from(root, spec_lines(txt)),
        p.len() > 0,
    ensures
        all_distinct(lines_at(root, p)),
{
    lemma_built_distinct(spec_lines(txt), p);
}

} // verus!
