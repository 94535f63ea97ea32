use vstd::prelude::*;
use crate::parser::{
    FlatState, Failure, assign, build_from, flatten_from, join_path, line_text, parse_spec, read_line,
    run_len, separator_at, lemma_run_len_bound,
};
use crate::render::{entry_texts, render, spaces};
use crate::value::{Tree, keys_unique, lemma_find_key};
use crate::text::{is_ws, skip_ws, skip_ws_back, trim};

verus! {

/// A key that the notation reads back as itself: not empty, no white space
/// at its ends, not starting a comment, and holding no `=` or `:`.
pub open spec fn plain_key(k: Seq<char>) -> bool {
    &&& k.len() > 0
    &&& !is_ws(k[0])
    &&& !is_ws(k.last())
    &&& k[0] != '#'
    &&& forall|i: int| 0 <= i < k.len() ==> k[i] != '=' && k[i] != ':'
}

/// A leaf payload that the notation reads back as itself: not empty and
/// with no white space at its ends.
pub open spec fn plain_text(s: Seq<char>) -> bool {
    &&& s.len() > 0
    &&& !is_ws(s[0])
    &&& !is_ws(s.last())
}

proof fn lemma_skip_ws_to(s: Seq<char>, i: int, j: int)
    requires
        0 <= i <= j <= s.len(),
        forall|m: int| i <= m < j ==> is_ws(s[m]),
        j == s.len() || !is_ws(s[j]),
    ensures
        skip_ws(s, i) == j,
    decreases j - i,
{
    if i < j {
        lemma_skip_ws_to(s, i + 1, j);
    }
}

proof fn lemma_skip_ws_back_to(s: Seq<char>, lo: int, j: int, m: int)
    requires
        0 <= lo <= m <= j <= s.len(),
        forall|x: int| m <= x < j ==> is_ws(s[x]),
        m == lo || !is_ws(s[m - 1]),
    ensures
        skip_ws_back(s, lo, j) == m,
    decreases j - m,
{
    if m < j {
        lemma_skip_ws_back_to(s, lo, j - 1, m);
    }
}

proof fn lemma_separator_to(t: Seq<char>, i: int, j: int)
    requires
        0 <= i <= j < t.len(),
        forall|m: int| i <= m < j ==> t[m] != '=' && t[m] != ':',
        t[j] == '=' || t[j] == ':',
    ensures
        separator_at(t, i) == j,
    decreases j - i,
{
    if i < j {
        lemma_separator_to(t, i + 1, j);
    }
}

/// `trim` of a text that is `s[lo..hi]` between runs of white space.
proof fn lemma_trim_between(s: Seq<char>, lo: int, hi: int)
    requires
        0 <= lo < hi <= s.len(),
        forall|m: int| 0 <= m < lo ==> is_ws(s[m]),
        forall|m: int| hi <= m < s.len() ==> is_ws(s[m]),
        !is_ws(s[lo]),
        !is_ws(s[hi - 1]),
    ensures
        trim(s) == s.subrange(lo, hi),
{
    lemma_skip_ws_to(s, 0, lo);
    lemma_skip_ws_back_to(s, lo, s.len() as int, hi);
}

/// A line that `to_text` writes for a leaf, `k = s` after some spaces,
/// reads back as the binding of `s` at `k` within the current context, which
/// it leaves as it was.
pub proof fn lemma_read_leaf_line(
    st: FlatState,
    indent: nat,
    k: Seq<char>,
    s: Seq<char>,
    raw: Seq<char>,
    n: int,
)
    requires
        plain_key(k),
        plain_text(s),
    ensures
        read_line(st, spaces(indent as int) + k + seq![' ', '=', ' '] + s, raw, n) == Ok::<
            FlatState,
            (int, Seq<char>),
        >((assign(st.0, join_path(st.1, k), s), st.1)),
{
    let line = spaces(indent as int) + k + seq![' ', '=', ' '] + s;
    let t = k + seq![' ', '=', ' '] + s;
    let kl = k.len() as int;
    lemma_trim_between(line, indent as int, line.len() as int);
    assert(line.subrange(indent as int, line.len() as int) =~= t);
    lemma_separator_to(t, 0, kl + 1);
    let left = t.subrange(0, kl + 1);
    assert(left.subrange(0, kl) =~= k);
    lemma_trim_between(left, 0, kl);
    let right = t.subrange(kl + 2, t.len() as int);
    assert(right.subrange(1, right.len() as int) =~= s);
    lemma_trim_between(right, 1, right.len() as int);
}

/// A line that `to_text` writes for a container, `k:` after some spaces,
/// reads back as an empty binding at `k` within the current context, and
/// makes that path the context.
pub proof fn lemma_read_container_line(
    st: FlatState,
    indent: nat,
    k: Seq<char>,
    raw: Seq<char>,
    n: int,
)
    requires
        plain_key(k),
    ensures
        read_line(st, spaces(indent as int) + k + seq![':'], raw, n) == Ok::<
            FlatState,
            (int, Seq<char>),
        >((assign(st.0, join_path(st.1, k), Seq::empty()), join_path(st.1, k))),
{
    let line = spaces(indent as int) + k + seq![':'];
    let t = k + seq![':'];
    let kl = k.len() as int;
    lemma_trim_between(line, indent as int, line.len() as int);
    assert(line.subrange(indent as int, line.len() as int) =~= t);
    lemma_separator_to(t, 0, kl);
    assert(t.subrange(0, kl) =~= k);
    lemma_trim_between(k, 0, kl);
    assert(k.subrange(0, kl) =~= k);
    let right = t.subrange(kl + 1, t.len() as int);
    assert(right =~= Seq::<char>::empty());
    assert(skip_ws(right, 0) == 0);
    assert(trim(right) =~= Seq::<char>::empty());
}

proof fn lemma_run_len_to(s: Seq<char>, i: int, j: int, c: char)
    requires
        0 <= i <= j <= s.len(),
        forall|m: int| i <= m < j ==> s[m] != c,
        j == s.len() || s[j] == c,
    ensures
        run_len(s, i, c) == j - i,
    decreases j - i,
{
    if i < j {
        lemma_run_len_to(s, i + 1, j, c);
    }
}

proof fn lemma_run_len_shift(s: Seq<char>, pos: int, x: int, c: char)
    requires
        0 <= pos,
        0 <= x,
        pos + x <= s.len(),
    ensures
        run_len(s, pos + x, c) == run_len(s.subrange(pos, s.len() as int), x, c),
    decreases s.len() - pos - x,
{
    if pos + x < s.len() && s[pos + x] != c {
        lemma_run_len_shift(s, pos, x + 1, c);
    }
}

/// The flattening pass from a position reads the rest of the text as a text
/// of its own.
proof fn lemma_flatten_shift(s: Seq<char>, pos: int, n: int, st: FlatState)
    requires
        0 <= pos <= s.len(),
    ensures
        flatten_from(s, pos, n, st) == flatten_from(s.subrange(pos, s.len() as int), 0, n, st),
    decreases s.len() - pos,
{
    let t = s.subrange(pos, s.len() as int);
    lemma_run_len_shift(s, pos, 0, '\n');
    lemma_run_len_bound(s, pos, '\n');
    let q = pos + run_len(s, pos, '\n');
    let q2 = run_len(t, 0, '\n') as int;
    assert(s.subrange(pos, q) =~= t.subrange(0, q2));
    assert(line_text(s, pos, q) =~= line_text(t, 0, q2));
    if q < s.len() {
        match read_line(st, s.subrange(pos, q), line_text(s, pos, q), n + 1) {
            Ok(st2) => {
                lemma_flatten_shift(s, q + 1, n + 1, st2);
                lemma_flatten_shift(t, q2 + 1, n + 1, st2);
                assert(t.subrange(q2 + 1, t.len() as int) =~= s.subrange(q + 1, s.len() as int));
            },
            Err(_) => {},
        }
    }
}

/// A text that starts with a line and its newline is read as that line,
/// then the rest.
pub(crate) proof fn lemma_flatten_first_line(line: Seq<char>, rest: Seq<char>, n: int, st: FlatState)
    requires
        forall|m: int| 0 <= m < line.len() ==> line[m] != '\n',
    ensures
        ({
            let text = line + seq!['\n'] + rest;
            flatten_from(text, 0, n, st) == match read_line(
                st,
                line,
                line_text(text, 0, line.len() as int),
                n + 1,
            ) {
                Err(e) => Err(e),
                Ok(st2) => flatten_from(rest, 0, n + 1, st2),
            }
        }),
{
    let text = line + seq!['\n'] + rest;
    let q = line.len() as int;
    lemma_run_len_to(text, 0, q, '\n');
    assert(text.subrange(0, q) =~= line);
    match read_line(st, line, line_text(text, 0, q), n + 1) {
        Ok(st2) => {
            lemma_flatten_shift(text, q + 1, n + 1, st2);
            assert(text.subrange(q + 1, text.len() as int) =~= rest);
        },
        Err(_) => {},
    }
}

/// A container of leaves whose keys and payloads read back as themselves
/// and lie on one line each, with keys free of dots.
pub open spec fn plain_leaves(es: Seq<(Seq<char>, Tree)>) -> bool {
    &&& keys_unique(es)
    &&& forall|i: int|
        0 <= i < es.len() ==> {
            let k = (#[trigger] es[i]).0;
            &&& es[i].1 is Leaf
            &&& plain_key(k)
            &&& plain_text(es[i].1->Leaf_0)
            &&& forall|m: int| 0 <= m < k.len() ==> k[m] != '.' && k[m] != '\n'
            &&& forall|m: int|
                0 <= m < es[i].1->Leaf_0.len() ==> es[i].1->Leaf_0[m] != '\n'
        }
}

/// The flat bindings of a container of leaves.
pub open spec fn leaf_pairs(es: Seq<(Seq<char>, Tree)>) -> Seq<(Seq<char>, Seq<char>)> {
    Seq::new(es.len(), |i: int| (es[i].0, es[i].1->Leaf_0))
}

proof fn lemma_flatten_leaves(es: Seq<(Seq<char>, Tree)>, f: Seq<(Seq<char>, Seq<char>)>, n: int)
    requires
        plain_leaves(es),
        forall|i: int, j: int| 0 <= i < es.len() && 0 <= j < f.len() ==> f[j].0 != es[i].0,
    ensures
        flatten_from(entry_texts(es, 0).flatten(), 0, n, (f, Seq::empty())) == Ok::<
            FlatState,
            (int, Seq<char>),
        >((f + leaf_pairs(es), Seq::empty())),
    decreases es.len(),
{
    let p = entry_texts(es, 0);
    if es.len() == 0 {
        assert(p =~= Seq::<Seq<char>>::empty());
        assert(f + leaf_pairs(es) =~= f);
        assert(trim(Seq::<char>::empty()) =~= Seq::<char>::empty());
    } else {
        let k = es[0].0;
        let s = es[0].1->Leaf_0;
        let line = spaces(0) + k + seq![' ', '=', ' '] + s;
        let rest = p.drop_first().flatten();
        assert(es[0].1 == Tree::Leaf(s));
        assert(p[0] == line + seq!['\n']);
        assert(p.flatten() == p[0] + rest);
        assert(p.flatten() =~= line + seq!['\n'] + rest);
        assert forall|m: int| 0 <= m < line.len() implies line[m] != '\n' by {
            assert(spaces(0).len() == 0);
            if m < k.len() {
                assert(line[m] == k[m]);
            } else if m < k.len() + 3 {
            } else {
                assert(line[m] == s[m - k.len() - 3]);
            }
        }
        lemma_flatten_first_line(line, rest, n, (f, Seq::empty()));
        lemma_read_leaf_line(
            (f, Seq::empty()),
            0,
            k,
            s,
            line_text(line + seq!['\n'] + rest, 0, line.len() as int),
            n + 1,
        );
        lemma_find_key(f, k, f.len() as int);
        let f2 = f.push((k, s));
        let es2 = es.drop_first();
        assert(p.drop_first() =~= entry_texts(es2, 0));
        assert forall|i: int| 0 <= i < es2.len() implies es2[i] == es[i + 1] by {}
        assert forall|i: int, j: int| 0 <= i < es2.len() && 0 <= j < f2.len() implies f2[j].0
            != es2[i].0 by {
            assert(es2[i] == es[i + 1]);
        }
        lemma_flatten_leaves(es2, f2, n + 1);
        assert(f2 + leaf_pairs(es2) =~= f + leaf_pairs(es));
    }
}

proof fn lemma_build_leaves(es: Seq<(Seq<char>, Tree)>, i: int)
    requires
        plain_leaves(es),
        0 <= i <= es.len(),
    ensures
        build_from(leaf_pairs(es), i, es.take(i)) == Ok::<Seq<(Seq<char>, Tree)>, Seq<char>>(es),
    decreases es.len() - i,
{
    if i == es.len() {
        assert(es.take(i) =~= es);
    } else {
        let k = es[i].0;
        let s = es[i].1->Leaf_0;
        assert(es[i].1 == Tree::Leaf(s));
        lemma_run_len_to(k, 0, k.len() as int, '.');
        assert(k.subrange(0, k.len() as int) =~= k);
        lemma_find_key(es.take(i), k, i);
        assert(es.take(i).push((k, Tree::Leaf(s))) =~= es.take(i + 1));
        lemma_build_leaves(es, i + 1);
    }
}

/// A container of leaves with plain keys and payloads, rendered by
/// `to_text` at indentation 0 and parsed again, gives itself back.
pub proof fn lemma_leaves_round_trip(es: Seq<(Seq<char>, Tree)>)
    requires
        plain_leaves(es),
    ensures
        parse_spec(render(Tree::Node(es), 0)) == Ok::<Tree, Failure>(Tree::Node(es)),
{
    lemma_flatten_leaves(es, Seq::empty(), 0);
    assert(Seq::<(Seq<char>, Seq<char>)>::empty() + leaf_pairs(es) =~= leaf_pairs(es));
    lemma_build_leaves(es, 0);
    assert(es.take(0) =~= Seq::<(Seq<char>, Tree)>::empty());
}

} // verus!
