//! Tokenization: a line is split into the ordered sequence of maximal runs
//! of one character class (alphanumeric or not), after lower-casing, and the
//! same split is applied to corpus lines and to query phrases.

use vstd::prelude::*;

verus! {

/// What `char::is_alphanumeric` returns: a fixed classification of each
/// character, the same on every call.
pub uninterp spec fn is_alphanum(c: char) -> bool;

/// What `str::to_lowercase` returns for a given character sequence.
pub uninterp spec fn lower_of(s: Seq<char>) -> Seq<char>;

/// Relies on char::is_alphanumeric: the result depends on the character alone.
#[verifier::external_body]
fn alphanumeric(c: char) -> (r: bool)
    ensures
        r == is_alphanum(c),
{
    c.is_alphanumeric()
}

/// Relies on str::to_lowercase: the result depends on the input characters
/// alone, and an empty input gives an empty result.
#[verifier::external_body]
pub fn to_lowercase(txt: &str) -> (r: String)
    ensures
        r@ == lower_of(txt@),
        txt@.len() == 0 ==> r@.len() == 0,
{
    txt.to_lowercase()
}

/// The character views of a vector of strings.
pub open spec fn views_of(v: Seq<String>) -> Seq<Seq<char>> {
    v.map_values(|s: String| s@)
}

/// Length of the maximal prefix of `s` whose characters all classify as `cls`.
pub open spec fn class_run(s: Seq<char>, cls: bool) -> nat
    decreases s.len(),
{
    if s.len() == 0 || is_alphanum(s[0]) != cls {
        0
    } else {
        1 + class_run(s.drop_first(), cls)
    }
}

/// The token sequence of `s`: maximal runs of one character class, in order.
/// An empty input yields a single empty token; a non-empty input yields only
/// non-empty tokens.
pub open spec fn spec_split(s: Seq<char>) -> Seq<Seq<char>>
    decreases s.len(),
{
    if s.len() == 0 {
        seq![s]
    } else {
        let k = class_run(s, is_alphanum(s[0]));
        if k >= s.len() {
            seq![s]
        } else {
            seq![s.subrange(0, k as int)] + spec_split(s.subrange(k as int, s.len() as int))
        }
    }
}

/// The tokens of a text span as both indexing and querying see it:
/// the split of its lower-cased form.
pub open spec fn toks_of(s: Seq<char>) -> Seq<Seq<char>> {
    spec_split(lower_of(s))
}

/// Concatenation of a sequence of character sequences.
pub open spec fn concat_all(ts: Seq<Seq<char>>) -> Seq<char>
    decreases ts.len(),
{
    if ts.len() == 0 {
        Seq::empty()
    } else {
        ts[0] + concat_all(ts.drop_first())
    }
}

proof fn lemma_class_run_le(s: Seq<char>, cls: bool)
    ensures
        class_run(s, cls) <= s.len(),
    decreases s.len(),
{
    if s.len() > 0 && is_alphanum(s[0]) == cls {
        lemma_class_run_le(s.drop_first(), cls);
    }
}

proof fn lemma_class_run_exact(s: Seq<char>, cls: bool, k: int)
    requires
        0 <= k <= s.len(),
        forall|m: int| 0 <= m < k ==> is_alphanum(s[m]) == cls,
        k < s.len() ==> is_alphanum(s[k]) != cls,
    ensures
        class_run(s, cls) == k,
    decreases s.len(),
{
    if k == 0 {
    } else {
        assert(is_alphanum(s[0]) == cls);
        let t = s.drop_first();
        assert(forall|m: int| 0 <= m < k - 1 ==> is_alphanum(t[m]) == cls);
        lemma_class_run_exact(t, cls, k - 1);
    }
}

/// If the characters of `s` from `li` (inclusive) to `i` (exclusive) form a
/// maximal run of one class, the split of the suffix starting at `li` begins
/// with exactly that run.
proof fn lemma_split_step(s: Seq<char>, li: int, i: int)
    requires
        0 <= li < i <= s.len(),
        forall|m: int| li <= m < i ==> is_alphanum(s[m]) == is_alphanum(s[li]),
        i < s.len() ==> is_alphanum(s[i]) != is_alphanum(s[li]),
    ensures
        i == s.len() ==> spec_split(s.skip(li)) == seq![s.subrange(li, i)],
        i < s.len() ==> spec_split(s.skip(li)) == seq![s.subrange(li, i)] + spec_split(s.skip(i)),
{
    let t = s.skip(li);
    let cls = is_alphanum(s[li]);
    assert(t.len() == s.len() - li);
    assert(t[0] == s[li]);
    assert(forall|m: int| 0 <= m < i - li ==> is_alphanum(t[m]) == cls);
    assert(i < s.len() ==> is_alphanum(t[i - li]) != cls);
    lemma_class_run_exact(t, cls, i - li);
    assert(class_run(t, is_alphanum(t[0])) == i - li);
    if i == s.len() {
        assert(t =~= s.subrange(li, i));
        assert(spec_split(t) == seq![t]);
    } else {
        assert(t.subrange(0, i - li) =~= s.subrange(li, i));
        assert(t.subrange(i - li, t.len() as int) =~= s.skip(i));
        assert(spec_split(t) == seq![t.subrange(0, i - li)] + spec_split(
            t.subrange(i - li, t.len() as int),
        ));
    }
}

proof fn lemma_concat_one(x: Seq<char>, rest: Seq<Seq<char>>)
    ensures
        concat_all(seq![x] + rest) == x + concat_all(rest),
{
    let whole = seq![x] + rest;
    assert(whole[0] == x);
    assert(whole.drop_first() =~= rest);
    assert(whole.len() > 0);
}

/// Concatenating the tokens of a split reconstructs the input exactly.
pub proof fn lemma_tokens_round_trip(s: Seq<char>)
    ensures
        concat_all(spec_split(s)) == s,
    decreases s.len(),
{
    if s.len() == 0 {
        assert(spec_split(s) == seq![s]);
        lemma_concat_one(s, Seq::empty());
        assert(seq![s] + Seq::<Seq<char>>::empty() =~= seq![s]);
        assert(s + Seq::<char>::empty() =~= s);
    } else {
        let cls = is_alphanum(s[0]);
        let k = class_run(s, cls) as int;
        lemma_class_run_le(s, cls);
        if k >= s.len() {
            lemma_concat_one(s, Seq::empty());
            assert(seq![s] + Seq::<Seq<char>>::empty() =~= seq![s]);
            assert(s + Seq::<char>::empty() =~= s);
        } else {
            let head = s.subrange(0, k);
            let tail = s.subrange(k, s.len() as int);
            lemma_tokens_round_trip(tail);
            lemma_concat_one(head, spec_split(tail));
            assert(head + tail =~= s);
        }
    }
}

/// A split always yields at least one token.
pub proof fn lemma_split_nonempty(s: Seq<char>)
    ensures
        spec_split(s).len() >= 1,
{
    if s.len() == 0 {
    } else {
        let k = class_run(s, is_alphanum(s[0]));
        if k >= s.len() {
        } else {
            assert(spec_split(s).len() == 1 + spec_split(
                s.subrange(k as int, s.len() as int),
            ).len());
        }
    }
}

/// A non-empty input never yields an empty token; only the empty input
/// does, as its sole token.
pub proof fn lemma_split_tokens_nonempty(s: Seq<char>, k: int)
    requires
        s.len() > 0,
        0 <= k < spec_split(s).len(),
    ensures
        spec_split(s)[k].len() > 0,
    decreases s.len(),
{
    let cls = is_alphanum(s[0]);
    let r = class_run(s, cls) as int;
    assert(r >= 1);
    lemma_class_run_le(s, cls);
    if r >= s.len() {
    } else {
        if k > 0 {
            lemma_split_tokens_nonempty(s.subrange(r, s.len() as int), k - 1);
        }
    }
}

proof fn lemma_views_push(v: Seq<String>, x: String)
    ensures
        views_of(v.push(x)) == views_of(v).push(x@),
{
    assert(views_of(v.push(x)) =~= views_of(v).push(x@));
}

/// Splits a text span into maximal runs of one character class, without
/// case folding. Splitting goes by character, never by raw byte offset,
/// so multi-byte characters are never cut apart.
pub fn f_tokenizer(t: &str) -> (r: Vec<String>)
    ensures
        views_of(r@) == spec_split(t@),
{
    let n = t.unicode_len();
    let mut r: Vec<String> = Vec::new();
    if n == 0 {
        let tok = t.substring_char(0, 0).to_owned();
        proof {
            assert(t@.subrange(0, 0) =~= t@);
            lemma_views_push(r@, tok);
            assert(views_of(r@).push(tok@) =~= seq![t@]);
        }
        r.push(tok);
        return r;
    }
    let mut li: usize = 0;
    let mut i: usize = 1;
    let mut cls = alphanumeric(t.get_char(0));
    proof {
        assert(t@.skip(0) =~= t@);
        assert(views_of(r@) =~= Seq::<Seq<char>>::empty());
        assert(Seq::<Seq<char>>::empty() + spec_split(t@) =~= spec_split(t@));
    }
    while i < n
        invariant
            1 <= i <= n,
            li < i,
            n == t@.len(),
            cls == is_alphanum(t@[li as int]),
            forall|m: int| li <= m < i ==> is_alphanum(t@[m]) == cls,
            spec_split(t@) == views_of(r@) + spec_split(t@.skip(li as int)),
        decreases n - i,
    {
        let c = t.get_char(i);
        let cc = alphanumeric(c);
        if cc != cls {
            let tok = t.substring_char(li, i).to_owned();
            proof {
                lemma_split_step(t@, li as int, i as int);
                lemma_views_push(r@, tok);
                assert((views_of(r@).push(tok@)) + spec_split(t@.skip(i as int)) =~= views_of(r@)
                    + (seq![t@.subrange(li as int, i as int)] + spec_split(t@.skip(i as int))));
            }
            r.push(tok);
            li = i;
            cls = cc;
        }
        i += 1;
    }
    let tok = t.substring_char(li, n).to_owned();
    proof {
        lemma_split_step(t@, li as int, n as int);
        lemma_views_push(r@, tok);
        assert((views_of(r@).push(tok@)) =~= views_of(r@) + seq![t@.subrange(li as int, n as int)]);
    }
    r.push(tok);
    r
}

/// Lower-cases the input, then splits it into maximal runs of one character
/// class: the tokenization used both to index corpus lines and to read query
/// phrases.
pub fn tokenizer(t: &str) -> (r: Vec<String>)
    ensures
        views_of(r@) == toks_of(t@),
{
    let low = to_lowercase(t);
    f_tokenizer(low.as_str())
}

} // verus!
