//! The trie index: a tree keyed on successive tokens. Each node records
//! every corpus line whose token run, starting at some offset, passes
//! through it, so a node reached by walking a phrase's tokens holds exactly
//! the lines containing that phrase.

use vstd::prelude::*;

use crate::tokens::{tokenizer, toks_of, views_of};

verus! {

/// One token-path position in the trie. `token` is an informational label;
/// traversal goes by the keys of `children`. `children` is an association
/// list from token to child node; `lines` holds each line reaching this
/// node once, in first-insertion order.
pub struct Node {
    pub token: String,
    pub lines: Vec<String>,
    pub children: Vec<(String, Node)>,
}

/// First entry of `cs` whose key reads `key`, if any.
pub open spec fn assoc_get(cs: Seq<(String, Node)>, key: Seq<char>) -> Option<Node>
    decreases cs.len(),
{
    if cs.len() == 0 {
        Option::None
    } else if cs[0].0@ == key {
        Option::Some(cs[0].1)
    } else {
        assoc_get(cs.drop_first(), key)
    }
}

/// The node reached from `n` by following the tokens of `p` in order.
pub open spec fn lookup(n: Node, p: Seq<Seq<char>>) -> Option<Node>
    decreases p.len(),
{
    if p.len() == 0 {
        Option::Some(n)
    } else {
        match assoc_get(n.children@, p[0]) {
            Option::None => Option::None,
            Option::Some(c) => lookup(c, p.drop_first()),
        }
    }
}

/// Whether the token path `p` exists in the trie rooted at `n`.
pub open spec fn present(n: Node, p: Seq<Seq<char>>) -> bool {
    lookup(n, p) is Some
}

/// The line views recorded at the node reached by `p`, or the empty
/// sequence if no such node exists.
pub open spec fn lines_at(n: Node, p: Seq<Seq<char>>) -> Seq<Seq<char>> {
    match lookup(n, p) {
        Option::Some(m) => views_of(m.lines@),
        Option::None => Seq::empty(),
    }
}

/// Deduplicating insertion: `l` is appended only if not already present.
pub open spec fn add_line_spec(s: Seq<Seq<char>>, l: Seq<char>) -> Seq<Seq<char>> {
    if s.contains(l) {
        s
    } else {
        s.push(l)
    }
}

/// `p` is an initial segment of `r`.
pub open spec fn is_prefix_of(p: Seq<Seq<char>>, r: Seq<Seq<char>>) -> bool {
    p.len() <= r.len() && p == r.subrange(0, p.len() as int)
}

/// `p` occurs in `ts` as a contiguous subsequence.
pub open spec fn is_contig(p: Seq<Seq<char>>, ts: Seq<Seq<char>>) -> bool {
    exists|st: int|
        0 <= st && st + p.len() <= ts.len() && p == #[trigger] ts.subrange(st, st + p.len() as int)
}

/// The line `line` contains the token sequence `p` somewhere in its
/// tokenization.
pub open spec fn has_phrase(line: Seq<char>, p: Seq<Seq<char>>) -> bool {
    is_contig(p, toks_of(line))
}

proof fn lemma_assoc_found(cs: Seq<(String, Node)>, key: Seq<char>, j: int)
    requires
        0 <= j < cs.len(),
        cs[j].0@ == key,
        forall|m: int| 0 <= m < j ==> cs[m].0@ != key,
    ensures
        assoc_get(cs, key) == Option::Some(cs[j].1),
    decreases j,
{
    if j > 0 {
        let t = cs.drop_first();
        assert(forall|m: int| 0 <= m < j - 1 ==> t[m].0@ != key);
        lemma_assoc_found(t, key, j - 1);
    }
}

proof fn lemma_assoc_none(cs: Seq<(String, Node)>, key: Seq<char>)
    requires
        forall|m: int| 0 <= m < cs.len() ==> cs[m].0@ != key,
    ensures
        assoc_get(cs, key) == Option::<Node>::None,
    decreases cs.len(),
{
    if cs.len() > 0 {
        lemma_assoc_none(cs.drop_first(), key);
    }
}

proof fn lemma_assoc_update(cs: Seq<(String, Node)>, j: int, pr: (String, Node), x: Seq<char>)
    requires
        0 <= j < cs.len(),
        pr.0@ == cs[j].0@,
        forall|m: int| 0 <= m < j ==> cs[m].0@ != cs[j].0@,
    ensures
        assoc_get(cs.update(j, pr), x) == (if x == cs[j].0@ {
            Option::Some(pr.1)
        } else {
            assoc_get(cs, x)
        }),
    decreases j,
{
    let cs2 = cs.update(j, pr);
    if j == 0 {
        if x == cs[0].0@ {
            assert(cs2[0] == pr);
        } else {
            assert(cs2.drop_first() =~= cs.drop_first());
        }
    } else {
        assert(cs2[0] == cs[0]);
        if x == cs[0].0@ {
        } else {
            let t = cs.drop_first();
            assert(cs2.drop_first() =~= t.update(j - 1, pr));
            assert(t[j - 1] == cs[j]);
            assert(forall|m: int| 0 <= m < j - 1 ==> (#[trigger] t[m]).0@ != t[j - 1].0@);
            lemma_assoc_update(t, j - 1, pr, x);
        }
    }
}

proof fn lemma_assoc_push(cs: Seq<(String, Node)>, pr: (String, Node), x: Seq<char>)
    requires
        forall|m: int| 0 <= m < cs.len() ==> cs[m].0@ != pr.0@,
    ensures
        assoc_get(cs.push(pr), x) == (if x == pr.0@ {
            Option::Some(pr.1)
        } else {
            assoc_get(cs, x)
        }),
    decreases cs.len(),
{
    let cs2 = cs.push(pr);
    if cs.len() == 0 {
        assert(cs2[0] == pr);
        assert(cs2.drop_first() =~= Seq::<(String, Node)>::empty());
        assert(assoc_get(cs2.drop_first(), x) == Option::<Node>::None);
        assert(assoc_get(cs, x) == Option::<Node>::None);
    } else {
        assert(cs2[0] == cs[0]);
        assert(cs2.drop_first() =~= cs.drop_first().push(pr));
        let t = cs.drop_first();
        assert(forall|m: int| 0 <= m < t.len() ==> (#[trigger] t[m]).0@ != pr.0@);
        lemma_assoc_push(t, pr, x);
        if cs[0].0@ == x {
            assert(x != pr.0@);
            assert(assoc_get(cs2, x) == Option::Some(cs[0].1));
            assert(assoc_get(cs, x) == Option::Some(cs[0].1));
        } else {
            assert(assoc_get(cs2, x) == assoc_get(t.push(pr), x));
            assert(assoc_get(cs, x) == assoc_get(t, x));
        }
    }
}

/// Two nodes with the same children resolve every non-empty path alike.
proof fn lemma_lookup_same_children(a: Node, b: Node, p: Seq<Seq<char>>)
    requires
        a.children == b.children,
        p.len() > 0,
    ensures
        lookup(a, p) == lookup(b, p),
{
}

proof fn lemma_prefix_step(p: Seq<Seq<char>>, r: Seq<Seq<char>>)
    requires
        p.len() > 0,
        r.len() > 0,
    ensures
        is_prefix_of(p, r) <==> (p[0] == r[0] && is_prefix_of(p.drop_first(), r.drop_first())),
{
    let q = p.drop_first();
    if is_prefix_of(p, r) {
        assert(p[0] == r.subrange(0, p.len() as int)[0]);
        assert(q =~= r.drop_first().subrange(0, q.len() as int));
    }
    if p[0] == r[0] && is_prefix_of(q, r.drop_first()) {
        assert forall|m: int| 0 <= m < p.len() implies p[m] == r.subrange(0, p.len() as int)[m] by {
            if m > 0 {
                assert(p[m] == q[m - 1]);
                assert(q[m - 1] == r.drop_first().subrange(0, q.len() as int)[m - 1]);
            }
        }
        assert(p =~= r.subrange(0, p.len() as int));
    }
}

/// Index of the first child of `cs` keyed by `tok`, if any.
fn find_child(cs: &Vec<(String, Node)>, tok: &String) -> (r: Option<usize>)
    ensures
        match r {
            Option::Some(j) => j < cs@.len() && cs@[j as int].0@ == tok@ && forall|m: int|
                0 <= m < j ==> cs@[m].0@ != tok@,
            Option::None => forall|m: int| 0 <= m < cs@.len() ==> cs@[m].0@ != tok@,
        },
{
    let mut j: usize = 0;
    while j < cs.len()
        invariant
            j <= cs@.len(),
            forall|m: int| 0 <= m < j ==> cs@[m].0@ != tok@,
        decreases cs@.len() - j,
    {
        if cs[j].0 == *tok {
            return Option::Some(j);
        }
        j += 1;
    }
    Option::None
}

/// Appends `line` unless an equal line is already recorded.
fn add_line(lines: &mut Vec<String>, line: &String)
    ensures
        views_of(final(lines)@) == add_line_spec(views_of(old(lines)@), line@),
{
    let ghost orig = views_of(lines@);
    let mut k: usize = 0;
    while k < lines.len()
        invariant
            k <= lines@.len(),
            views_of(lines@) == orig,
            forall|m: int| 0 <= m < k ==> lines@[m]@ != line@,
        decreases lines@.len() - k,
    {
        if lines[k] == *line {
            proof {
                assert(orig[k as int] == line@);
                assert(orig.contains(line@));
            }
            return;
        }
        k += 1;
    }
    proof {
        assert forall|m: int| 0 <= m < orig.len() implies orig[m] != line@ by {
            assert(orig[m] == lines@[m]@);
        }
        assert(!orig.contains(line@));
    }
    lines.push(line.clone());
    proof {
        assert(views_of(lines@) =~= orig.push(line@));
    }
}

/// Walks and creates the trie path for the token suffix `toks[i..]` below
/// `node`, recording `line` at every node on that path. Every other path,
/// and the lines of `node` itself, are left as they were.
pub fn insert_suffix(node: Node, toks: &Vec<String>, i: usize, line: &String) -> (res: Node)
    requires
        i <= toks@.len(),
    ensures
        res.token == node.token,
        res.lines == node.lines,
        forall|p: Seq<Seq<char>>| #![trigger present(res, p)]
            p.len() > 0 ==> (present(res, p) <==> (present(node, p) || is_prefix_of(
                p,
                views_of(toks@).skip(i as int),
            ))),
        forall|p: Seq<Seq<char>>| #![trigger lines_at(res, p)]
            p.len() > 0 ==> lines_at(res, p) == (if is_prefix_of(
                p,
                views_of(toks@).skip(i as int),
            ) {
                add_line_spec(lines_at(node, p), line@)
            } else {
                lines_at(node, p)
            }),
    decreases toks@.len() - i,
{
    let ghost rest = views_of(toks@).skip(i as int);
    if i == toks.len() {
        proof {
            assert(rest.len() == 0);
        }
        return node;
    }
    let ghost node0 = node;
    let mut node = node;
    proof {
        assert(rest[0] == toks@[i as int]@);
        assert(rest.drop_first() =~= views_of(toks@).skip(i as int + 1));
    }
    let ghost rest2 = views_of(toks@).skip(i as int + 1);
    let found = find_child(&node.children, &toks[i]);
    match found {
        Option::Some(j) => {
            let (key, child) = node.children.remove(j);
            let ghost oldc = child;
            let mut child = child;
            add_line(&mut child.lines, line);
            let ghost midc = child;
            let child = insert_suffix(child, toks, i + 1, line);
            proof {
                assert(midc.children == oldc.children);
                assert(child.lines == midc.lines);
            }
            node.children.insert(j, (key, child));
            proof {
                assert(node.children@ =~= node0.children@.update(j as int, (key, child)));
                assert(node.lines == node0.lines);
                assert(node.token == node0.token);
                assert(key == node0.children@[j as int].0);
                assert forall|p: Seq<Seq<char>>| p.len() > 0 implies ((present(node, p) <==> (
                present(node0, p) || is_prefix_of(p, rest))) && lines_at(node, p) == (
                if is_prefix_of(p, rest) {
                    add_line_spec(lines_at(node0, p), line@)
                } else {
                    lines_at(node0, p)
                })) by {
                    let q = p.drop_first();
                    lemma_assoc_update(node0.children@, j as int, (key, child), p[0]);
                    lemma_assoc_found(node0.children@, key@, j as int);
                    lemma_prefix_step(p, rest);
                    if p[0] == key@ {
                        assert(assoc_get(node.children@, p[0]) == Option::Some(child));
                        assert(assoc_get(node0.children@, p[0]) == Option::Some(oldc));
                        assert(lookup(node, p) == lookup(child, q));
                        assert(lookup(node0, p) == lookup(oldc, q));
                        if p.len() == 1 {
                            assert(q.len() == 0);
                            assert(lookup(child, q) == Option::Some(child));
                            assert(lookup(oldc, q) == Option::Some(oldc));
                            assert(p =~= rest.subrange(0, 1));
                            assert(is_prefix_of(p, rest));
                            assert(views_of(midc.lines@) == add_line_spec(
                                views_of(oldc.lines@),
                                line@,
                            ));
                            assert(lines_at(node, p) == views_of(child.lines@));
                            assert(lines_at(node0, p) == views_of(oldc.lines@));
                        } else {
                            assert(q.len() > 0);
                            lemma_lookup_same_children(midc, oldc, q);
                            assert(present(child, q) <==> (present(midc, q) || is_prefix_of(
                                q,
                                rest2,
                            )));
                            assert(lines_at(child, q) == (if is_prefix_of(q, rest2) {
                                add_line_spec(lines_at(midc, q), line@)
                            } else {
                                lines_at(midc, q)
                            }));
                            assert(present(node, p) == present(child, q));
                            assert(present(node0, p) == present(oldc, q));
                            assert(lines_at(node, p) == lines_at(child, q));
                            assert(lines_at(node0, p) == lines_at(oldc, q));
                        }
                    } else {
                        assert(assoc_get(node.children@, p[0]) == assoc_get(
                            node0.children@,
                            p[0],
                        ));
                        assert(lookup(node, p) == lookup(node0, p));
                        assert(!is_prefix_of(p, rest)) by {
                            if is_prefix_of(p, rest) {
                                assert(p[0] == rest[0]);
                            }
                        }
                    }
                }
            }
            node
        },
        Option::None => {
            let key = {
                let k = &toks[i];
                k.clone()
            };
            let mut child = Node { token: key.clone(), lines: Vec::new(), children: Vec::new() };
            let ghost fresh0 = child;
            add_line(&mut child.lines, line);
            let ghost midc = child;
            let child = insert_suffix(child, toks, i + 1, line);
            proof {
                assert(midc.children == fresh0.children);
                assert(child.lines == midc.lines);
                assert(fresh0.children@.len() == 0);
                assert(fresh0.lines@.len() == 0);
            }
            node.children.push((key, child));
            proof {
                assert(node.children@ =~= node0.children@.push((key, child)));
                assert(node.lines == node0.lines);
                assert(key@ == toks@[i as int]@);
                assert forall|p: Seq<Seq<char>>| p.len() > 0 implies ((present(node, p) <==> (
                present(node0, p) || is_prefix_of(p, rest))) && lines_at(node, p) == (
                if is_prefix_of(p, rest) {
                    add_line_spec(lines_at(node0, p), line@)
                } else {
                    lines_at(node0, p)
                })) by {
                    let q = p.drop_first();
                    lemma_assoc_push(node0.children@, (key, child), p[0]);
                    lemma_assoc_none(node0.children@, key@);
                    lemma_prefix_step(p, rest);
                    if p[0] == key@ {
                        assert(assoc_get(node.children@, p[0]) == Option::Some(child));
                        assert(assoc_get(node0.children@, p[0]) is None);
                        assert(lookup(node, p) == lookup(child, q));
                        assert(lookup(node0, p) is None);
                        assert(!present(node0, p));
                        assert(lines_at(node0, p) == Seq::<Seq<char>>::empty());
                        if p.len() == 1 {
                            assert(q.len() == 0);
                            assert(lookup(child, q) == Option::Some(child));
                            assert(p =~= rest.subrange(0, 1));
                            assert(is_prefix_of(p, rest));
                            assert(views_of(fresh0.lines@) =~= Seq::<Seq<char>>::empty());
                            assert(views_of(midc.lines@) == add_line_spec(
                                views_of(fresh0.lines@),
                                line@,
                            ));
                            assert(lines_at(node, p) == views_of(child.lines@));
                        } else {
                            assert(q.len() > 0);
                            lemma_lookup_same_children(midc, fresh0, q);
                            assert(assoc_get(fresh0.children@, q[0]) is None);
                            assert(lookup(fresh0, q) is None);
                            assert(!present(midc, q));
                            assert(lines_at(midc, q) == Seq::<Seq<char>>::empty());
                            assert(present(child, q) <==> (present(midc, q) || is_prefix_of(
                                q,
                                rest2,
                            )));
                            assert(lines_at(child, q) == (if is_prefix_of(q, rest2) {
                                add_line_spec(lines_at(midc, q), line@)
                            } else {
                                lines_at(midc, q)
                            }));
                            assert(present(node, p) == present(child, q));
                            assert(lines_at(node, p) == lines_at(child, q));
                        }
                    } else {
                        assert(assoc_get(node.children@, p[0]) == assoc_get(
                            node0.children@,
                            p[0],
                        ));
                        assert(lookup(node, p) == lookup(node0, p));
                        assert(!is_prefix_of(p, rest)) by {
                            if is_prefix_of(p, rest) {
                                assert(p[0] == rest[0]);
                            }
                        }
                    }
                }
            }
            node
        },
    }
}

/// Some suffix of `ts` that starts before `i` begins with `p`.
pub open spec fn prefix_in(p: Seq<Seq<char>>, ts: Seq<Seq<char>>, i: int) -> bool {
    exists|st: int| 0 <= st < i && is_prefix_of(p, #[trigger] ts.skip(st))
}

proof fn lemma_add_idem(s: Seq<Seq<char>>, l: Seq<char>)
    ensures
        add_line_spec(add_line_spec(s, l), l) == add_line_spec(s, l),
{
    if !s.contains(l) {
        assert(s.push(l)[s.len() as int] == l);
        assert(s.push(l).contains(l));
    }
}

proof fn lemma_prefix_in_full(p: Seq<Seq<char>>, ts: Seq<Seq<char>>)
    requires
        p.len() > 0,
    ensures
        prefix_in(p, ts, ts.len() as int) <==> is_contig(p, ts),
{
    if prefix_in(p, ts, ts.len() as int) {
        let st = choose|st: int| 0 <= st < ts.len() && is_prefix_of(p, #[trigger] ts.skip(st));
        assert(p =~= ts.subrange(st, st + p.len() as int));
        assert(is_contig(p, ts));
    }
    if is_contig(p, ts) {
        let st = choose|st: int|
            0 <= st && st + p.len() <= ts.len() && p == #[trigger] ts.subrange(
                st,
                st + p.len() as int,
            );
        assert(p =~= ts.skip(st).subrange(0, p.len() as int));
        assert(is_prefix_of(p, ts.skip(st)));
        assert(st < ts.len());
        assert(prefix_in(p, ts, ts.len() as int));
    }
}

/// Inserts every suffix of the tokenization of `line` into the trie, so
/// that afterwards every node on the path of any contiguous token run of
/// `line` records `line`. All other paths are untouched.
pub fn index_line(line: &str, root: Node) -> (res: Node)
    ensures
        res.token == root.token,
        res.lines == root.lines,
        forall|p: Seq<Seq<char>>| #![trigger present(res, p)]
            p.len() > 0 ==> (present(res, p) <==> (present(root, p) || has_phrase(line@, p))),
        forall|p: Seq<Seq<char>>| #![trigger lines_at(res, p)]
            p.len() > 0 ==> lines_at(res, p) == (if has_phrase(line@, p) {
                add_line_spec(lines_at(root, p), line@)
            } else {
                lines_at(root, p)
            }),
{
    let toks = tokenizer(line);
    let line_s = line.to_owned();
    let ghost ts = views_of(toks@);
    let ghost root0 = root;
    let mut node = root;
    let mut i: usize = 0;
    while i < toks.len()
        invariant
            i <= toks@.len(),
            views_of(toks@) == ts,
            ts == toks_of(line@),
            line_s@ == line@,
            node.token == root0.token,
            node.lines == root0.lines,
            forall|p: Seq<Seq<char>>| #![trigger present(node, p)]
                p.len() > 0 ==> (present(node, p) <==> (present(root0, p) || prefix_in(
                    p,
                    ts,
                    i as int,
                ))),
            forall|p: Seq<Seq<char>>| #![trigger lines_at(node, p)]
                p.len() > 0 ==> lines_at(node, p) == (if prefix_in(p, ts, i as int) {
                    add_line_spec(lines_at(root0, p), line@)
                } else {
                    lines_at(root0, p)
                }),
        decreases toks@.len() - i,
    {
        let ghost prev = node;
        node = insert_suffix(node, &toks, i, &line_s);
        proof {
            assert forall|p: Seq<Seq<char>>| p.len() > 0 implies ((present(node, p) <==> (present(
                root0,
                p,
            ) || prefix_in(p, ts, i as int + 1))) && lines_at(node, p) == (if prefix_in(
                p,
                ts,
                i as int + 1,
            ) {
                add_line_spec(lines_at(root0, p), line@)
            } else {
                lines_at(root0, p)
            })) by {
                assert(present(node, p) <==> (present(prev, p) || is_prefix_of(
                    p,
                    ts.skip(i as int),
                )));
                assert(lines_at(node, p) == (if is_prefix_of(p, ts.skip(i as int)) {
                    add_line_spec(lines_at(prev, p), line_s@)
                } else {
                    lines_at(prev, p)
                }));
                if is_prefix_of(p, ts.skip(i as int)) {
                    assert(prefix_in(p, ts, i as int + 1));
                    if prefix_in(p, ts, i as int) {
                        lemma_add_idem(lines_at(root0, p), line@);
                    }
                } else {
                    if prefix_in(p, ts, i as int + 1) {
                        let st = choose|st: int|
                            0 <= st < i as int + 1 && is_prefix_of(p, #[trigger] ts.skip(st));
                        assert(st != i as int);
                        assert(prefix_in(p, ts, i as int));
                    }
                }
            }
        }
        i += 1;
    }
    proof {
        assert forall|p: Seq<Seq<char>>| p.len() > 0 implies (prefix_in(p, ts, ts.len() as int)
            <==> has_phrase(line@, p)) by {
            lemma_prefix_in_full(p, ts);
        }
    }
    node
}

/// Character count of the prefix of `s` before its first newline.
pub open spec fn line_break(s: Seq<char>) -> nat
    decreases s.len(),
{
    if s.len() == 0 || s[0] == '\n' {
        0
    } else {
        1 + line_break(s.drop_first())
    }
}

/// The lines of a text: pieces separated by single newline characters.
/// A final piece not ended by a newline still counts; a trailing newline
/// adds no empty final line.
pub open spec fn spec_lines(s: Seq<char>) -> Seq<Seq<char>>
    decreases s.len(),
{
    if s.len() == 0 {
        Seq::empty()
    } else {
        let k = line_break(s);
        if k >= s.len() {
            seq![s]
        } else {
            seq![s.subrange(0, k as int)] + spec_lines(s.subrange(k as int + 1, s.len() as int))
        }
    }
}

proof fn lemma_line_break_exact(s: Seq<char>, k: int)
    requires
        0 <= k <= s.len(),
        forall|m: int| 0 <= m < k ==> s[m] != '\n',
        k < s.len() ==> s[k] == '\n',
    ensures
        line_break(s) == k,
    decreases s.len(),
{
    if k > 0 {
        let t = s.drop_first();
        assert(forall|m: int| 0 <= m < k - 1 ==> t[m] != '\n');
        lemma_line_break_exact(t, k - 1);
    }
}

proof fn lemma_lines_step(s: Seq<char>, ls: int, i: int)
    requires
        0 <= ls <= i <= s.len(),
        ls < s.len(),
        forall|m: int| ls <= m < i ==> s[m] != '\n',
        i < s.len() ==> s[i] == '\n',
    ensures
        i < s.len() ==> spec_lines(s.skip(ls)) == seq![s.subrange(ls, i)] + spec_lines(
            s.skip(i + 1),
        ),
        i == s.len() ==> spec_lines(s.skip(ls)) == seq![s.subrange(ls, i)],
{
    let t = s.skip(ls);
    assert(t.len() == s.len() - ls);
    assert(forall|m: int| 0 <= m < i - ls ==> t[m] != '\n');
    assert(i < s.len() ==> t[i - ls] == '\n');
    lemma_line_break_exact(t, i - ls);
    if i == s.len() {
        assert(t =~= s.subrange(ls, i));
    } else {
        assert(t.subrange(0, i - ls) =~= s.subrange(ls, i));
        assert(t.subrange(i - ls + 1, t.len() as int) =~= s.skip(i + 1));
        assert(spec_lines(t) == seq![t.subrange(0, i - ls)] + spec_lines(
            t.subrange(i - ls + 1, t.len() as int),
        ));
    }
}

/// The lines recorded at path `p` after indexing the lines `ls` in order
/// into an empty trie: each line containing `p` appears once, in corpus
/// order.
pub open spec fn built_lines(ls: Seq<Seq<char>>, p: Seq<Seq<char>>) -> Seq<Seq<char>>
    decreases ls.len(),
{
    if ls.len() == 0 {
        Seq::empty()
    } else {
        let prev = built_lines(ls.drop_last(), p);
        if has_phrase(ls.last(), p) {
            add_line_spec(prev, ls.last())
        } else {
            prev
        }
    }
}

/// Some line of `ls` contains the token sequence `p`.
pub open spec fn phrase_in_corpus(ls: Seq<Seq<char>>, p: Seq<Seq<char>>) -> bool {
    exists|j: int| 0 <= j < ls.len() && has_phrase(#[trigger] ls[j], p)
}

/// The whole contract of index construction: a non-empty token path exists
/// in the trie exactly when some line of `ls` contains it, and the node it
/// reaches records exactly the lines containing it, each once, in corpus
/// order. The root itself records no lines.
pub open spec fn built_from(root: Node, ls: Seq<Seq<char>>) -> bool {
    &&& root.lines@.len() == 0
    &&& (forall|p: Seq<Seq<char>>| #![trigger present(root, p)]
        p.len() > 0 ==> (present(root, p) <==> phrase_in_corpus(ls, p)))
    &&& (forall|p: Seq<Seq<char>>| #![trigger lines_at(root, p)]
        p.len() > 0 ==> lines_at(root, p) == built_lines(ls, p))
}

proof fn lemma_built_step(root: Node, root2: Node, done: Seq<Seq<char>>, l: Seq<char>)
    requires
        forall|p: Seq<Seq<char>>| #![trigger present(root, p)]
            p.len() > 0 ==> (present(root, p) <==> phrase_in_corpus(done, p)),
        forall|p: Seq<Seq<char>>| #![trigger lines_at(root, p)]
            p.len() > 0 ==> lines_at(root, p) == built_lines(done, p),
        forall|p: Seq<Seq<char>>| #![trigger present(root2, p)]
            p.len() > 0 ==> (present(root2, p) <==> (present(root, p) || has_phrase(l, p))),
        forall|p: Seq<Seq<char>>| #![trigger lines_at(root2, p)]
            p.len() > 0 ==> lines_at(root2, p) == (if has_phrase(l, p) {
                add_line_spec(lines_at(root, p), l)
            } else {
                lines_at(root, p)
            }),
    ensures
        forall|p: Seq<Seq<char>>| #![trigger present(root2, p)]
            p.len() > 0 ==> (present(root2, p) <==> phrase_in_corpus(done.push(l), p)),
        forall|p: Seq<Seq<char>>| #![trigger lines_at(root2, p)]
            p.len() > 0 ==> lines_at(root2, p) == built_lines(done.push(l), p),
{
    let dp = done.push(l);
    assert(dp.drop_last() =~= done);
    assert(dp.last() == l);
    assert forall|p: Seq<Seq<char>>| p.len() > 0 implies ((present(root2, p) <==> phrase_in_corpus(
        dp,
        p,
    )) && lines_at(root2, p) == built_lines(dp, p)) by {
        assert(present(root, p) <==> phrase_in_corpus(done, p));
        assert(lines_at(root, p) == built_lines(done, p));
        assert(built_lines(dp, p) == (if has_phrase(l, p) {
            add_line_spec(built_lines(done, p), l)
        } else {
            built_lines(done, p)
        }));
        if present(root2, p) {
            if present(root, p) {
                let j = choose|j: int| 0 <= j < done.len() && has_phrase(#[trigger] done[j], p);
                assert(dp[j] == done[j]);
                assert(has_phrase(dp[j], p));
            } else {
                assert(has_phrase(l, p));
                assert(has_phrase(dp[done.len() as int], p));
            }
            assert(phrase_in_corpus(dp, p));
        }
        if phrase_in_corpus(dp, p) {
            let j = choose|j: int| 0 <= j < dp.len() && has_phrase(#[trigger] dp[j], p);
            if j < done.len() {
                assert(done[j] == dp[j]);
                assert(phrase_in_corpus(done, p));
            } else {
                assert(dp[j] == l);
            }
            assert(present(root2, p));
        }
    }
}

/// Builds the phrase index for a whole corpus: splits `txt` into lines and
/// inserts every suffix of every line's tokenization into one trie. Cost is
/// quadratic in each line's token count by design, so that every contiguous
/// phrase of every line is discoverable; there is no cap on line length.
pub fn index(txt: &str) -> (root: Node)
    ensures
        built_from(root, spec_lines(txt@)),
{
    let mut root = Node { token: "root".to_owned(), lines: Vec::new(), children: Vec::new() };
    proof {
        assert forall|p: Seq<Seq<char>>| p.len() > 0 implies (!present(root, p) && lines_at(
            root,
            p,
        ) == Seq::<Seq<char>>::empty()) by {
            assert(assoc_get(root.children@, p[0]) == Option::<Node>::None);
        }
    }
    let n = txt.unicode_len();
    let ghost mut done: Seq<Seq<char>> = Seq::empty();
    proof {
        assert(txt@.skip(0) =~= txt@);
        assert(done + spec_lines(txt@) =~= spec_lines(txt@));
    }
    let mut ls: usize = 0;
    let mut i: usize = 0;
    while i < n
        invariant
            ls <= i <= n,
            n == txt@.len(),
            forall|m: int| ls <= m < i ==> txt@[m] != '\n',
            spec_lines(txt@) == done + spec_lines(txt@.skip(ls as int)),
            root.lines@.len() == 0,
            forall|p: Seq<Seq<char>>| #![trigger present(root, p)]
                p.len() > 0 ==> (present(root, p) <==> phrase_in_corpus(done, p)),
            forall|p: Seq<Seq<char>>| #![trigger lines_at(root, p)]
                p.len() > 0 ==> lines_at(root, p) == built_lines(done, p),
        decreases n - i,
    {
        let c = txt.get_char(i);
        if c == '\n' {
            let line = txt.substring_char(ls, i);
            let ghost prev = root;
            root = index_line(line, root);
            proof {
                lemma_lines_step(txt@, ls as int, i as int);
                lemma_built_step(prev, root, done, line@);
                done = done.push(txt@.subrange(ls as int, i as int));
                assert(done + spec_lines(txt@.skip(i as int + 1)) =~= done.drop_last()
                    + (seq![txt@.subrange(ls as int, i as int)] + spec_lines(
                    txt@.skip(i as int + 1),
                )));
            }
            ls = i + 1;
        }
        i += 1;
    }
    if ls < n {
        let line = txt.substring_char(ls, n);
        let ghost prev = root;
        root = index_line(line, root);
        proof {
            lemma_lines_step(txt@, ls as int, n as int);
            lemma_built_step(prev, root, done, line@);
            done = done.push(txt@.subrange(ls as int, n as int));
            assert(done + Seq::<Seq<char>>::empty() =~= done);
            assert(done =~= done.drop_last().push(txt@.subrange(ls as int, n as int)));
            assert(spec_lines(txt@) == done);
        }
    } else {
        proof {
            assert(txt@.skip(ls as int).len() == 0);
            assert(spec_lines(txt@.skip(ls as int)) == Seq::<Seq<char>>::empty());
            assert(done + Seq::<Seq<char>>::empty() =~= done);
        }
    }
    root
}

/// The abstract outcome of a search: the line views at the phrase's token
/// path, or nothing when the path is absent. A search of a built index is a
/// pure function of the index and the phrase, which is why any number of
/// concurrent read-only searches agree with a sequential run.
pub open spec fn search_outcome(root: Node, phrase: Seq<char>) -> Option<Seq<Seq<char>>> {
    if present(root, toks_of(phrase)) {
        Option::Some(lines_at(root, toks_of(phrase)))
    } else {
        Option::None
    }
}

/// Walks the trie from `root` along the tokens of `phrase`; a missing edge
/// means the phrase occurs nowhere. An empty phrase tokenizes to one empty
/// token, so it finds exactly the corpus's empty lines (the policy chosen
/// here: the empty phrase is an ordinary one-token query, never the whole
/// corpus and never an error).
pub fn search<'a>(phrase: &str, root: &'a Node) -> (r: Option<&'a Vec<String>>)
    ensures
        r is Some <==> present(*root, toks_of(phrase@)),
        r matches Some(v) ==> views_of(v@) == lines_at(*root, toks_of(phrase@)),
{
    let toks = tokenizer(phrase);
    let ghost q = toks_of(phrase@);
    let mut node: &'a Node = root;
    let mut i: usize = 0;
    proof {
        assert(q.skip(0) =~= q);
    }
    while i < toks.len()
        invariant
            i <= toks@.len(),
            views_of(toks@) == q,
            q == toks_of(phrase@),
            lookup(*root, q) == lookup(*node, q.skip(i as int)),
        decreases toks@.len() - i,
    {
        let found = find_child(&node.children, &toks[i]);
        match found {
            Option::Some(j) => {
                proof {
                    lemma_assoc_found(node.children@, toks@[i as int]@, j as int);
                    assert(q.skip(i as int)[0] == q[i as int]);
                    assert(q.skip(i as int).drop_first() =~= q.skip(i as int + 1));
                }
                node = &node.children[j].1;
            },
            Option::None => {
                proof {
                    lemma_assoc_none(node.children@, toks@[i as int]@);
                    assert(q.skip(i as int)[0] == q[i as int]);
                    assert(lookup(*node, q.skip(i as int)) is None);
                }
                return Option::None;
            },
        }
        i += 1;
    }
    proof {
        assert(q.skip(i as int).len() == 0);
        assert(lookup(*node, q.skip(i as int)) == Option::Some(*node));
    }
    Option::Some(&node.lines)
}

} // verus!
