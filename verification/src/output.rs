//! Serialization of search results. A result set is unordered, so any
//! printed form imposes a deterministic order derived from the set alone:
//! lines are sorted by content (code-point order) and joined with newlines.
//! Failed lookups surface as a `NotFound` value, a normal result and never
//! an exceptional control path.

use vstd::prelude::*;

use crate::tokens::{toks_of, views_of};
use crate::trie::{lines_at, present, Node};
use crate::trie::search;

verus! {

/// A lookup that matched nothing: a normal, non-fatal outcome carrying a
/// human-readable message.
#[derive(Debug)]
pub struct NotFound(pub String);

/// Code-point order on character sequences: `a` is at most `b`.
pub open spec fn lex_le(a: Seq<char>, b: Seq<char>) -> bool
    decreases a.len(),
{
    if a.len() == 0 {
        true
    } else if b.len() == 0 {
        false
    } else if (a[0] as u32) < (b[0] as u32) {
        true
    } else if (b[0] as u32) < (a[0] as u32) {
        false
    } else {
        lex_le(a.drop_first(), b.drop_first())
    }
}

/// Whether `a@` precedes or equals `b@` in code-point order.
fn str_le(a: &String, b: &String) -> (r: bool)
    ensures
        r == lex_le(a@, b@),
{
    let an = a.as_str().unicode_len();
    let bn = b.as_str().unicode_len();
    let mut i: usize = 0;
    proof {
        assert(a@.skip(0) =~= a@);
        assert(b@.skip(0) =~= b@);
    }
    while i < an && i < bn
        invariant
            i <= an,
            i <= bn,
            an == a@.len(),
            bn == b@.len(),
            lex_le(a@, b@) == lex_le(a@.skip(i as int), b@.skip(i as int)),
        decreases an - i,
    {
        let ca = a.as_str().get_char(i);
        let cb = b.as_str().get_char(i);
        proof {
            assert(a@.skip(i as int)[0] == a@[i as int]);
            assert(b@.skip(i as int)[0] == b@[i as int]);
            assert(a@.skip(i as int).drop_first() =~= a@.skip(i as int + 1));
            assert(b@.skip(i as int).drop_first() =~= b@.skip(i as int + 1));
        }
        if (ca as u32) < (cb as u32) {
            return true;
        }
        if (cb as u32) < (ca as u32) {
            return false;
        }
        i += 1;
    }
    proof {
        assert(i == an || i == bn);
    }
    if i == an {
        proof {
            assert(a@.skip(i as int).len() == 0);
        }
        true
    } else {
        proof {
            assert(b@.skip(i as int).len() == 0);
            assert(a@.skip(i as int).len() > 0);
        }
        false
    }
}

/// No two entries of `s` are equal.
pub open spec fn all_distinct(s: Seq<Seq<char>>) -> bool {
    forall|i: int, j: int| 0 <= i < j < s.len() ==> s[i] != s[j]
}

/// The entries of `s` are in code-point order.
pub open spec fn sorted_seq(s: Seq<Seq<char>>) -> bool {
    forall|i: int, j: int| 0 <= i < j < s.len() ==> lex_le(s[i], s[j])
}

proof fn lemma_lex_refl(a: Seq<char>)
    ensures
        lex_le(a, a),
    decreases a.len(),
{
    if a.len() > 0 {
        lemma_lex_refl(a.drop_first());
    }
}

proof fn lemma_lex_total(a: Seq<char>, b: Seq<char>)
    ensures
        lex_le(a, b) || lex_le(b, a),
    decreases a.len(),
{
    if a.len() > 0 && b.len() > 0 && a[0] as u32 == b[0] as u32 {
        lemma_lex_total(a.drop_first(), b.drop_first());
    }
}

proof fn lemma_lex_antisym(a: Seq<char>, b: Seq<char>)
    requires
        lex_le(a, b),
        lex_le(b, a),
    ensures
        a == b,
    decreases a.len(),
{
    if a.len() == 0 {
        assert(b.len() == 0);
        assert(a =~= b);
    } else {
        assert(b.len() > 0);
        assert(a[0] as u32 == b[0] as u32);
        vstd::utf8::char_u32_cast(a[0], a[0] as u32);
        vstd::utf8::char_u32_cast(b[0], b[0] as u32);
        assert(a[0] == b[0]);
        lemma_lex_antisym(a.drop_first(), b.drop_first());
        assert forall|m: int| 0 <= m < a.len() implies a[m] == b[m] by {
            if m > 0 {
                assert(a[m] == a.drop_first()[m - 1]);
                assert(b[m] == b.drop_first()[m - 1]);
            }
        }
        assert(a =~= b);
    }
}

proof fn lemma_lex_trans(a: Seq<char>, b: Seq<char>, c: Seq<char>)
    requires
        lex_le(a, b),
        lex_le(b, c),
    ensures
        lex_le(a, c),
    decreases a.len(),
{
    if a.len() > 0 {
        assert(b.len() > 0);
        assert(c.len() > 0);
        if a[0] as u32 == b[0] as u32 && b[0] as u32 == c[0] as u32 {
            lemma_lex_trans(a.drop_first(), b.drop_first(), c.drop_first());
        }
    }
}

proof fn lemma_push_contains(s: Seq<Seq<char>>, x: Seq<char>, y: Seq<char>)
    ensures
        s.push(x).contains(y) <==> (s.contains(y) || y == x),
{
    let sp = s.push(x);
    if sp.contains(y) {
        let i = choose|i: int| 0 <= i < sp.len() && sp[i] == y;
        if i < s.len() {
            assert(s[i] == y);
        }
    }
    if s.contains(y) {
        let i = choose|i: int| 0 <= i < s.len() && s[i] == y;
        assert(sp[i] == y);
    }
    if y == x {
        assert(sp[s.len() as int] == y);
    }
}

proof fn lemma_insert_contains(s: Seq<Seq<char>>, x: Seq<char>, y: Seq<char>)
    ensures
        insert_sorted_spec(s, x).contains(y) <==> (s.contains(y) || y == x),
    decreases s.len(),
{
    if s.len() == 0 {
        lemma_push_contains(Seq::empty(), x, y);
        assert(Seq::<Seq<char>>::empty().push(x) =~= seq![x]);
        assert(!Seq::<Seq<char>>::empty().contains(y));
    } else if lex_le(s.last(), x) {
        lemma_push_contains(s, x, y);
    } else {
        let t = s.drop_last();
        lemma_insert_contains(t, x, y);
        lemma_push_contains(insert_sorted_spec(t, x), s.last(), y);
        if t.contains(y) {
            let i = choose|i: int| 0 <= i < t.len() && t[i] == y;
            assert(s[i] == y);
            assert(s.contains(y));
        }
        if y == s.last() {
            assert(s[s.len() - 1] == y);
            assert(s.contains(y));
        }
        if s.contains(y) && y != s.last() {
            let i = choose|i: int| 0 <= i < s.len() && s[i] == y;
            assert(i < t.len());
            assert(t[i] == y);
            assert(t.contains(y));
        }
    }
}

proof fn lemma_insert_sorted_sorted(s: Seq<Seq<char>>, x: Seq<char>)
    requires
        sorted_seq(s),
    ensures
        sorted_seq(insert_sorted_spec(s, x)),
    decreases s.len(),
{
    if s.len() == 0 {
    } else if lex_le(s.last(), x) {
        let r = s.push(x);
        assert forall|i: int, j: int| 0 <= i < j < r.len() implies lex_le(r[i], r[j]) by {
            if j == s.len() {
                assert(r[i] == s[i]);
                if i < s.len() - 1 {
                    assert(lex_le(s[i], s.last()));
                    lemma_lex_trans(s[i], s.last(), x);
                }
            }
        }
    } else {
        let t = s.drop_last();
        assert forall|i: int, j: int| 0 <= i < j < t.len() implies lex_le(t[i], t[j]) by {
            assert(t[i] == s[i]);
            assert(t[j] == s[j]);
        }
        lemma_insert_sorted_sorted(t, x);
        lemma_lex_total(s.last(), x);
        let ins = insert_sorted_spec(t, x);
        let r = ins.push(s.last());
        assert forall|i: int, j: int| 0 <= i < j < r.len() implies lex_le(r[i], r[j]) by {
            if j == ins.len() {
                let y = ins[i];
                assert(ins.contains(y));
                lemma_insert_contains(t, x, y);
                if y == x {
                    assert(lex_le(x, s.last()));
                } else {
                    let m = choose|m: int| 0 <= m < t.len() && t[m] == y;
                    assert(t[m] == s[m]);
                    assert(lex_le(s[m], s.last()));
                }
            }
        }
    }
}

/// Sorting yields a sequence in code-point order.
pub proof fn lemma_sort_sorted(s: Seq<Seq<char>>)
    ensures
        sorted_seq(sort_spec(s)),
    decreases s.len(),
{
    if s.len() > 0 {
        lemma_sort_sorted(s.drop_last());
        lemma_insert_sorted_sorted(sort_spec(s.drop_last()), s.last());
    }
}

/// Sorting keeps exactly the members of the input.
pub proof fn lemma_sort_contains(s: Seq<Seq<char>>, y: Seq<char>)
    ensures
        sort_spec(s).contains(y) <==> s.contains(y),
    decreases s.len(),
{
    if s.len() == 0 {
        assert(!s.contains(y));
        assert(!sort_spec(s).contains(y));
    } else {
        let t = s.drop_last();
        lemma_sort_contains(t, y);
        lemma_insert_contains(sort_spec(t), s.last(), y);
        if t.contains(y) {
            let i = choose|i: int| 0 <= i < t.len() && t[i] == y;
            assert(s[i] == y);
            assert(s.contains(y));
        }
        if y == s.last() {
            assert(s[s.len() - 1] == y);
            assert(s.contains(y));
        }
        if s.contains(y) && y != s.last() {
            let i = choose|i: int| 0 <= i < s.len() && s[i] == y;
            assert(i < t.len());
            assert(t[i] == y);
            assert(t.contains(y));
        }
    }
}

proof fn lemma_insert_distinct(s: Seq<Seq<char>>, x: Seq<char>)
    requires
        all_distinct(s),
        !s.contains(x),
    ensures
        all_distinct(insert_sorted_spec(s, x)),
    decreases s.len(),
{
    if s.len() == 0 {
    } else if lex_le(s.last(), x) {
        let r = s.push(x);
        assert forall|i: int, j: int| 0 <= i < j < r.len() implies r[i] != r[j] by {
            if j == s.len() {
                assert(r[i] == s[i]);
                if r[i] == x {
                    assert(s.contains(x));
                }
            }
        }
    } else {
        let t = s.drop_last();
        assert forall|i: int, j: int| 0 <= i < j < t.len() implies t[i] != t[j] by {
            assert(t[i] == s[i]);
            assert(t[j] == s[j]);
        }
        assert(!t.contains(x)) by {
            if t.contains(x) {
                let i = choose|i: int| 0 <= i < t.len() && t[i] == x;
                assert(s[i] == x);
                assert(s.contains(x));
            }
        }
        lemma_insert_distinct(t, x);
        let ins = insert_sorted_spec(t, x);
        let r = ins.push(s.last());
        assert forall|i: int, j: int| 0 <= i < j < r.len() implies r[i] != r[j] by {
            if j == ins.len() {
                let y = ins[i];
                assert(ins.contains(y));
                lemma_insert_contains(t, x, y);
                if y == s.last() {
                    if y == x {
                        assert(s.contains(x));
                    } else {
                        let m = choose|m: int| 0 <= m < t.len() && t[m] == y;
                        assert(s[m] == s[s.len() - 1]);
                    }
                }
            }
        }
    }
}

/// Sorting a duplicate-free sequence yields a duplicate-free sequence.
pub proof fn lemma_sort_distinct(s: Seq<Seq<char>>)
    requires
        all_distinct(s),
    ensures
        all_distinct(sort_spec(s)),
    decreases s.len(),
{
    if s.len() > 0 {
        let t = s.drop_last();
        assert forall|i: int, j: int| 0 <= i < j < t.len() implies t[i] != t[j] by {
            assert(t[i] == s[i]);
            assert(t[j] == s[j]);
        }
        lemma_sort_distinct(t);
        assert(!sort_spec(t).contains(s.last())) by {
            lemma_sort_contains(t, s.last());
            if t.contains(s.last()) {
                let i = choose|i: int| 0 <= i < t.len() && t[i] == s.last();
                assert(s[i] == s[s.len() - 1]);
            }
        }
        lemma_insert_distinct(sort_spec(t), s.last());
    }
}

proof fn lemma_sorted_distinct_unique(s1: Seq<Seq<char>>, s2: Seq<Seq<char>>)
    requires
        sorted_seq(s1),
        sorted_seq(s2),
        all_distinct(s1),
        all_distinct(s2),
        forall|y: Seq<char>| s1.contains(y) <==> s2.contains(y),
    ensures
        s1 == s2,
    decreases s1.len(),
{
    if s1.len() == 0 {
        if s2.len() > 0 {
            assert(s2.contains(s2[0]));
            assert(s1.contains(s2[0]));
        }
        assert(s1 =~= s2);
    } else {
        assert(s1.contains(s1[0]));
        assert(s2.contains(s1[0]));
        assert(s2.len() > 0);
        let i = choose|i: int| 0 <= i < s2.len() && s2[i] == s1[0];
        if i > 0 {
            assert(lex_le(s2[0], s2[i]));
        } else {
            lemma_lex_refl(s2[0]);
        }
        assert(lex_le(s2[0], s1[0]));
        assert(s1.contains(s2[0]));
        let m = choose|m: int| 0 <= m < s1.len() && s1[m] == s2[0];
        if m > 0 {
            assert(lex_le(s1[0], s1[m]));
        } else {
            lemma_lex_refl(s1[0]);
        }
        assert(lex_le(s1[0], s2[0]));
        lemma_lex_antisym(s1[0], s2[0]);
        let t1 = s1.drop_first();
        let t2 = s2.drop_first();
        assert forall|a: int, b: int| 0 <= a < b < t1.len() implies (lex_le(t1[a], t1[b]) && t1[a]
            != t1[b]) by {
            assert(t1[a] == s1[a + 1]);
            assert(t1[b] == s1[b + 1]);
        }
        assert forall|a: int, b: int| 0 <= a < b < t2.len() implies (lex_le(t2[a], t2[b]) && t2[a]
            != t2[b]) by {
            assert(t2[a] == s2[a + 1]);
            assert(t2[b] == s2[b + 1]);
        }
        assert forall|y: Seq<char>| t1.contains(y) == t2.contains(y) by {
            if t1.contains(y) {
                let k = choose|k: int| 0 <= k < t1.len() && t1[k] == y;
                assert(s1[k + 1] == y);
                assert(y != s1[0]);
                assert(s1.contains(y));
                assert(s2.contains(y));
                let n = choose|n: int| 0 <= n < s2.len() && s2[n] == y;
                assert(n > 0);
                assert(t2[n - 1] == y);
                assert(t2.contains(y));
            }
            if t2.contains(y) {
                let k = choose|k: int| 0 <= k < t2.len() && t2[k] == y;
                assert(s2[k + 1] == y);
                assert(y != s2[0]);
                assert(s2.contains(y));
                assert(s1.contains(y));
                let n = choose|n: int| 0 <= n < s1.len() && s1[n] == y;
                assert(n > 0);
                assert(t1[n - 1] == y);
                assert(t1.contains(y));
            }
        }
        lemma_sorted_distinct_unique(t1, t2);
        assert forall|m: int| 0 <= m < s1.len() implies s1[m] == s2[m] by {
            if m > 0 {
                assert(s1[m] == t1[m - 1]);
                assert(s2[m] == t2[m - 1]);
            }
        }
        assert(s1 =~= s2);
    }
}

/// The printed order is derived purely from the result set: two
/// duplicate-free line collections with the same members sort to the same
/// sequence, whatever order the index handed them out in.
pub proof fn lemma_serialization_canonical(s1: Seq<Seq<char>>, s2: Seq<Seq<char>>)
    requires
        all_distinct(s1),
        all_distinct(s2),
        forall|y: Seq<char>| s1.contains(y) <==> s2.contains(y),
    ensures
        sort_spec(s1) == sort_spec(s2),
{
    lemma_sort_sorted(s1);
    lemma_sort_sorted(s2);
    lemma_sort_distinct(s1);
    lemma_sort_distinct(s2);
    assert forall|y: Seq<char>| sort_spec(s1).contains(y) == sort_spec(s2).contains(y) by {
        lemma_sort_contains(s1, y);
        lemma_sort_contains(s2, y);
    }
    lemma_sorted_distinct_unique(sort_spec(s1), sort_spec(s2));
}

/// Where `insert_sorted` places a value: after every entry at most it,
/// before every entry above it, shifting nothing else.
pub open spec fn insert_sorted_spec(s: Seq<Seq<char>>, x: Seq<char>) -> Seq<Seq<char>>
    decreases s.len(),
{
    if s.len() == 0 {
        seq![x]
    } else if lex_le(s.last(), x) {
        s.push(x)
    } else {
        insert_sorted_spec(s.drop_last(), x).push(s.last())
    }
}

/// The result of sorting `s` by insertion, element by element, in order.
pub open spec fn sort_spec(s: Seq<Seq<char>>) -> Seq<Seq<char>>
    decreases s.len(),
{
    if s.len() == 0 {
        Seq::empty()
    } else {
        insert_sorted_spec(sort_spec(s.drop_last()), s.last())
    }
}

proof fn lemma_insert_sorted_len(s: Seq<Seq<char>>, x: Seq<char>)
    ensures
        insert_sorted_spec(s, x).len() == s.len() + 1,
    decreases s.len(),
{
    if s.len() > 0 && !lex_le(s.last(), x) {
        lemma_insert_sorted_len(s.drop_last(), x);
    }
}

/// Sorting keeps the number of entries.
pub proof fn lemma_sort_len(s: Seq<Seq<char>>)
    ensures
        sort_spec(s).len() == s.len(),
    decreases s.len(),
{
    if s.len() > 0 {
        lemma_sort_len(s.drop_last());
        lemma_insert_sorted_len(sort_spec(s.drop_last()), s.last());
    }
}

proof fn lemma_insert_spec_at(s: Seq<Seq<char>>, x: Seq<char>, j: int)
    requires
        0 <= j <= s.len(),
        forall|m: int| j <= m < s.len() ==> !lex_le(#[trigger] s[m], x),
        j > 0 ==> lex_le(s[j - 1], x),
    ensures
        insert_sorted_spec(s, x) == s.insert(j, x),
    decreases s.len(),
{
    if s.len() == 0 {
        assert(s.insert(0, x) =~= seq![x]);
    } else if lex_le(s.last(), x) {
        assert(j == s.len());
        assert(s.insert(j, x) =~= s.push(x));
    } else {
        assert(j < s.len());
        let t = s.drop_last();
        assert(forall|m: int| j <= m < t.len() ==> !lex_le(#[trigger] t[m], x));
        lemma_insert_spec_at(t, x, j);
        assert(t.insert(j, x).push(s.last()) =~= s.insert(j, x));
    }
}

/// Inserts `x` into the already-sorted `v`, keeping it sorted.
fn insert_sorted(v: &mut Vec<String>, x: String)
    ensures
        views_of(final(v)@) == insert_sorted_spec(views_of(old(v)@), x@),
{
    let ghost orig = views_of(v@);
    let mut j: usize = v.len();
    let mut go = true;
    while go && j > 0
        invariant
            j <= v@.len(),
            views_of(v@) == orig,
            forall|m: int| j <= m < orig.len() ==> !lex_le(#[trigger] orig[m], x@),
            !go ==> j > 0 && lex_le(orig[j - 1], x@),
        decreases j + j + (if go {
            1int
        } else {
            0int
        }),
    {
        let le = str_le(&v[j - 1], &x);
        if le {
            go = false;
        } else {
            proof {
                assert(orig[j - 1] == v@[j - 1]@);
            }
            j -= 1;
        }
    }
    proof {
        lemma_insert_spec_at(orig, x@, j as int);
    }
    v.insert(j, x);
    proof {
        assert(views_of(v@) =~= orig.insert(j as int, x@));
    }
}

/// Returns the entries of `v` sorted by content in code-point order.
pub fn sort_lines(v: &Vec<String>) -> (r: Vec<String>)
    ensures
        views_of(r@) == sort_spec(views_of(v@)),
{
    let ghost s = views_of(v@);
    let mut r: Vec<String> = Vec::new();
    proof {
        assert(views_of(r@) =~= Seq::<Seq<char>>::empty());
        assert(s.take(0) =~= Seq::<Seq<char>>::empty());
    }
    let mut i: usize = 0;
    while i < v.len()
        invariant
            i <= v@.len(),
            s == views_of(v@),
            views_of(r@) == sort_spec(s.take(i as int)),
        decreases v@.len() - i,
    {
        insert_sorted(&mut r, v[i].clone());
        proof {
            assert(s.take(i as int + 1).drop_last() =~= s.take(i as int));
            assert(s.take(i as int + 1).last() == s[i as int]);
            assert(s[i as int] == v@[i as int]@);
        }
        i += 1;
    }
    proof {
        assert(s.take(v@.len() as int) =~= s);
    }
    r
}

/// The entries of `s` concatenated with `sep` between each adjacent pair.
pub open spec fn join_spec(s: Seq<Seq<char>>, sep: Seq<char>) -> Seq<char>
    decreases s.len(),
{
    if s.len() == 0 {
        Seq::empty()
    } else if s.len() == 1 {
        s[0]
    } else {
        join_spec(s.drop_last(), sep) + sep + s.last()
    }
}

/// Joins a non-empty collection of strings with the separator between each
/// adjacent pair.
pub fn join(strs: &Vec<String>, sep: &str) -> (r: String)
    requires
        strs@.len() > 0,
    ensures
        r@ == join_spec(views_of(strs@), sep@),
{
    let ghost s = views_of(strs@);
    let mut r = String::new();
    let mut i: usize = 0;
    while i < strs.len()
        invariant
            i <= strs@.len(),
            s == views_of(strs@),
            i > 0 ==> r@ == join_spec(s.take(i as int), sep@),
            i == 0 ==> r@ == Seq::<char>::empty(),
        decreases strs@.len() - i,
    {
        if i > 0 {
            r.append(sep);
        }
        r.append(strs[i].as_str());
        proof {
            let t = s.take(i as int + 1);
            assert(t.len() == i + 1);
            assert(t.last() == s[i as int]);
            assert(s[i as int] == strs@[i as int]@);
            if i == 0 {
                assert(t[0] == s[0]);
                assert(Seq::<char>::empty() + s[0] =~= s[0]);
            } else {
                assert(t.drop_last() =~= s.take(i as int));
            }
        }
        i += 1;
    }
    proof {
        assert(s.take(strs@.len() as int) =~= s);
    }
    r
}

fn not_found_msg(phrase: &str) -> (r: String)
    ensures
        r@ == "Can't find phrase '"@ + phrase@ + "'"@,
{
    let mut m = "Can't find phrase '".to_owned();
    m.append(phrase);
    m.append("'");
    proof {
        assert(("Can't find phrase '"@ + phrase@) + "'"@ =~= "Can't find phrase '"@ + phrase@
            + "'"@);
    }
    m
}

/// Searches for `phrase` and serializes the outcome: the matching lines
/// sorted by content and joined with newlines, or a `NotFound` message.
/// `Ok` comes exactly when the phrase's token path exists and records at
/// least one line; in an index built by `index`, every existing path does.
pub fn search_with_result(phrase: &str, root: &Node) -> (r: Result<String, NotFound>)
    ensures
        r is Ok <==> (present(*root, toks_of(phrase@)) && lines_at(*root, toks_of(phrase@)).len()
            > 0),
        (r matches Ok(out) ==> out@ == join_spec(
            sort_spec(lines_at(*root, toks_of(phrase@))),
            "\n"@,
        )),
        (r matches Err(e) ==> e.0@ == "Can't find phrase '"@ + phrase@ + "'"@),
{
    let found = search(phrase, root);
    match found {
        Option::Some(v) => {
            if v.len() == 0 {
                Result::Err(NotFound(not_found_msg(phrase)))
            } else {
                let sorted = sort_lines(v);
                proof {
                    lemma_sort_len(views_of(v@));
                }
                Result::Ok(join(&sorted, "\n"))
            }
        },
        Option::None => Result::Err(NotFound(not_found_msg(phrase))),
    }
}

/// The decimal digit character for a value below ten.
pub open spec fn digit_char(d: nat) -> char {
    if d == 0 {
        '0'
    } else if d == 1 {
        '1'
    } else if d == 2 {
        '2'
    } else if d == 3 {
        '3'
    } else if d == 4 {
        '4'
    } else if d == 5 {
        '5'
    } else if d == 6 {
        '6'
    } else if d == 7 {
        '7'
    } else if d == 8 {
        '8'
    } else {
        '9'
    }
}

/// The decimal rendering of `n`, most significant digit first.
pub open spec fn dec_of(n: nat) -> Seq<char>
    decreases n,
{
    if n < 10 {
        seq![digit_char(n)]
    } else {
        dec_of(n / 10).push(digit_char(n % 10))
    }
}

fn digit_str(d: usize) -> (r: &'static str)
    requires
        d < 10,
    ensures
        r@ == seq![digit_char(d as nat)],
{
    match d {
        0 => {
            proof {
                reveal_strlit("0");
                assert("0"@ =~= seq![digit_char(0)]);
            }
            "0"
        },
        1 => {
            proof {
                reveal_strlit("1");
                assert("1"@ =~= seq![digit_char(1)]);
            }
            "1"
        },
        2 => {
            proof {
                reveal_strlit("2");
                assert("2"@ =~= seq![digit_char(2)]);
            }
            "2"
        },
        3 => {
            proof {
                reveal_strlit("3");
                assert("3"@ =~= seq![digit_char(3)]);
            }
            "3"
        },
        4 => {
            proof {
                reveal_strlit("4");
                assert("4"@ =~= seq![digit_char(4)]);
            }
            "4"
        },
        5 => {
            proof {
                reveal_strlit("5");
                assert("5"@ =~= seq![digit_char(5)]);
            }
            "5"
        },
        6 => {
            proof {
                reveal_strlit("6");
                assert("6"@ =~= seq![digit_char(6)]);
            }
            "6"
        },
        7 => {
            proof {
                reveal_strlit("7");
                assert("7"@ =~= seq![digit_char(7)]);
            }
            "7"
        },
        8 => {
            proof {
                reveal_strlit("8");
                assert("8"@ =~= seq![digit_char(8)]);
            }
            "8"
        },
        _ => {
            proof {
                reveal_strlit("9");
                assert("9"@ =~= seq![digit_char(9)]);
            }
            "9"
        },
    }
}

/// Renders `n` in decimal.
fn decimal(n: usize) -> (r: String)
    ensures
        r@ == dec_of(n as nat),
    decreases n,
{
    if n < 10 {
        digit_str(n).to_owned()
    } else {
        proof {
            assert(n / 10 < n) by (nonlinear_arith)
                requires
                    n >= 10,
            ;
        }
        let mut s = decimal(n / 10);
        s.append(digit_str(n % 10));
        proof {
            assert(dec_of((n / 10) as nat) + seq![digit_char((n % 10) as nat)] =~= dec_of(
                (n / 10) as nat,
            ).push(digit_char((n % 10) as nat)));
        }
        s
    }
}

/// Fetches line number `line` of an ordered line collection, or reports the
/// index as out of range.
pub fn get_line<'a>(lines: &'a Vec<String>, line: usize) -> (r: Result<&'a String, NotFound>)
    ensures
        r is Ok <==> line < lines@.len(),
        (r matches Ok(s) ==> s@ == lines@[line as int]@),
        (r matches Err(e) ==> e.0@ == "Can't find line "@ + dec_of(line as nat)),
{
    if line < lines.len() {
        Result::Ok(&lines[line])
    } else {
        let mut m = "Can't find line ".to_owned();
        m.append(decimal(line).as_str());
        Result::Err(NotFound(m))
    }
}

} // verus!
