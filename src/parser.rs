use vstd::prelude::*;
use crate::text::{trim, trim_bounds, string_of, chars_of, same_chars};
use crate::value::{
    Tree, Value, find_key, keys_unique, lemma_find_key, lemma_find_key_some, lemma_view_push, lemma_view_update,
    entries_view, position_of,
};

verus! {

/// `es` with key `k` bound to `v`: the first entry under `k` is replaced in
/// place, or a new entry goes at the end.
pub open spec fn assign<V>(es: Seq<(Seq<char>, V)>, k: Seq<char>, v: V) -> Seq<(Seq<char>, V)> {
    match find_key(es, k) {
        Some(i) => es.update(i, (k, v)),
        None => es.push((k, v)),
    }
}

/// The number of characters from `pos` up to the next `stop` character or
/// the end of `s`.
pub open spec fn run_len(s: Seq<char>, pos: int, stop: char) -> nat
    decreases s.len() - pos,
{
    if pos < 0 || pos >= s.len() || s[pos] == stop {
        0
    } else {
        1 + run_len(s, pos + 1, stop)
    }
}

/// The first position at or after `i` holding `=` or `:`, or the length of
/// `t` when there is none.
pub open spec fn separator_at(t: Seq<char>, i: int) -> int
    decreases t.len() - i,
{
    if i < 0 || i >= t.len() || t[i] == '=' || t[i] == ':' {
        i
    } else {
        separator_at(t, i + 1)
    }
}

/// The dotted path of `key` inside context `ctx`.
pub open spec fn join_path(ctx: Seq<char>, key: Seq<char>) -> Seq<char> {
    if ctx.len() == 0 {
        key
    } else {
        ctx + seq!['.'] + key
    }
}

/// What the flattening pass holds between lines: the flat mapping from dotted
/// paths to raw values, and the current context.
pub type FlatState = (Seq<(Seq<char>, Seq<char>)>, Seq<char>);

/// One source line read in state `st`: `raw` is the line as reported in an
/// error, `n` its 1-based number. An error is the pair (line number, text).
///
/// A `key:` line with nothing after the colon makes its path the context of
/// every later line. Nothing leads back to a shallower context: the context
/// only deepens, and indentation carries no meaning.
pub open spec fn read_line(st: FlatState, line: Seq<char>, raw: Seq<char>, n: int) -> Result<
    FlatState,
    (int, Seq<char>),
> {
    let t = trim(line);
    if t.len() == 0 || t[0] == '#' {
        Ok(st)
    } else {
        let p = separator_at(t, 0);
        if p >= t.len() {
            Err((n, raw))
        } else {
            let key = trim(t.subrange(0, p));
            let val = trim(t.subrange(p + 1, t.len() as int));
            let full = join_path(st.1, key);
            let ctx = if t[p] == ':' && val.len() == 0 {
                full
            } else {
                st.1
            };
            Ok((assign(st.0, full, val), ctx))
        }
    }
}

/// The text of the line `s[pos..q]` without the `\r` of a `\r\n` ending.
pub open spec fn line_text(s: Seq<char>, pos: int, q: int) -> Seq<char> {
    if pos < q < s.len() && s[q - 1] == '\r' {
        s.subrange(pos, q - 1)
    } else {
        s.subrange(pos, q)
    }
}

/// The flattening pass over the lines of `s` from position `pos`, after `n`
/// lines, in state `st`.
pub open spec fn flatten_from(s: Seq<char>, pos: int, n: int, st: FlatState) -> Result<
    FlatState,
    (int, Seq<char>),
>
    decreases s.len() - pos,
{
    let q = pos + run_len(s, pos, '\n');
    match read_line(st, s.subrange(pos, q), line_text(s, pos, q), n + 1) {
        Err(e) => Err(e),
        Ok(st2) => if q >= s.len() {
            Ok(st2)
        } else {
            flatten_from(s, q + 1, n + 1, st2)
        },
    }
}

/// The flattening pass over the whole text `s`, from an empty mapping and
/// an empty context.
pub open spec fn flatten(s: Seq<char>) -> Result<FlatState, (int, Seq<char>)> {
    flatten_from(s, 0, 0, (Seq::empty(), Seq::empty()))
}

/// The flat mapping in exec form: pairs of dotted path and raw value.
pub type Flat = Vec<(Vec<char>, Vec<char>)>;

pub open spec fn flat_view(f: Seq<(Vec<char>, Vec<char>)>) -> Seq<(Seq<char>, Seq<char>)> {
    f.map_values(|e: (Vec<char>, Vec<char>)| (e.0@, e.1@))
}

/// Binds `path` to `val` in the flat mapping, the later binding winning.
fn flat_assign(f: &mut Flat, path: Vec<char>, val: Vec<char>)
    ensures
        flat_view(final(f)@) == assign(flat_view(old(f)@), path@, val@),
{
    let ghost m = flat_view(f@);
    let mut i: usize = 0;
    while i < f.len()
        invariant
            i <= f@.len(),
            m == flat_view(f@),
            f@ == old(f)@,
            forall|j: int| 0 <= j < i ==> m[j].0 != path@,
        decreases f.len() - i,
    {
        if same_chars(&f[i].0, &path) {
            proof {
                lemma_find_key(m, path@, i as int);
            }
            let ghost e = (path@, val@);
            f.set(i, (path, val));
            assert(flat_view(f@) =~= m.update(i as int, e));
            return ;
        }
        i = i + 1;
    }
    proof {
        lemma_find_key(m, path@, i as int);
    }
    let ghost e = (path@, val@);
    f.push((path, val));
    assert(flat_view(f@) =~= m.push(e));
}

/// The end of the run that starts at `pos` and stops before the next `stop`.
fn run_end(cs: &Vec<char>, pos: usize, stop: char) -> (r: usize)
    requires
        pos <= cs@.len(),
    ensures
        r == pos + run_len(cs@, pos as int, stop),
        r <= cs@.len(),
{
    let mut q: usize = pos;
    while q < cs.len() && cs[q] != stop
        invariant
            pos <= q <= cs@.len(),
            q + run_len(cs@, q as int, stop) == pos + run_len(cs@, pos as int, stop),
        decreases cs.len() - q,
    {
        q = q + 1;
    }
    q
}

/// The first `=` or `:` in `cs[lo..hi]`, as a position within `cs`, or `hi`.
fn find_separator(cs: &Vec<char>, lo: usize, hi: usize) -> (r: usize)
    requires
        lo <= hi <= cs@.len(),
    ensures
        lo <= r <= hi,
        r - lo == separator_at(cs@.subrange(lo as int, hi as int), 0),
{
    let ghost t = cs@.subrange(lo as int, hi as int);
    let mut i: usize = lo;
    while i < hi && cs[i] != '=' && cs[i] != ':'
        invariant
            lo <= i <= hi <= cs@.len(),
            t == cs@.subrange(lo as int, hi as int),
            separator_at(t, i - lo) == separator_at(t, 0),
        decreases hi - i,
    {
        i = i + 1;
    }
    i
}

/// A copy of `cs[lo..hi]`.
fn sub_vec(cs: &Vec<char>, lo: usize, hi: usize) -> (r: Vec<char>)
    requires
        lo <= hi <= cs@.len(),
    ensures
        r@ == cs@.subrange(lo as int, hi as int),
{
    let mut r: Vec<char> = Vec::new();
    let mut i: usize = lo;
    while i < hi
        invariant
            lo <= i <= hi <= cs@.len(),
            r@ == cs@.subrange(lo as int, i as int),
        decreases hi - i,
    {
        r.push(cs[i]);
        i = i + 1;
        assert(r@ =~= cs@.subrange(lo as int, i as int));
    }
    r
}

/// The dotted path of `cs[lo..hi]` inside context `ctx`.
fn join_exec(ctx: &Vec<char>, cs: &Vec<char>, lo: usize, hi: usize) -> (r: Vec<char>)
    requires
        lo <= hi <= cs@.len(),
    ensures
        r@ == join_path(ctx@, cs@.subrange(lo as int, hi as int)),
{
    if ctx.len() == 0 {
        return sub_vec(cs, lo, hi);
    }
    let mut r = sub_vec(ctx, 0, ctx.len());
    assert(r@ =~= ctx@);
    r.push('.');
    let mut i: usize = lo;
    while i < hi
        invariant
            lo <= i <= hi <= cs@.len(),
            r@ == ctx@ + seq!['.'] + cs@.subrange(lo as int, i as int),
        decreases hi - i,
    {
        r.push(cs[i]);
        i = i + 1;
        assert(r@ =~= ctx@ + seq!['.'] + cs@.subrange(lo as int, i as int));
    }
    r
}

/// The flattening pass over the characters `cs`: the flat mapping and the
/// final context, or the number and text of the first malformed line.
pub fn flatten_chars(cs: &Vec<char>) -> (r: Result<(Flat, Vec<char>), (usize, String)>)
    ensures
        match flatten(cs@) {
            Ok(st) => match r {
                Ok((f, c)) => flat_view(f@) == st.0 && c@ == st.1,
                Err(_) => false,
            },
            Err(e) => match r {
                Ok(_) => false,
                Err((n, raw)) => n == e.0 && raw@ == e.1,
            },
        },
{
    let mut f: Flat = Vec::new();
    let mut ctx: Vec<char> = Vec::new();
    let mut pos: usize = 0;
    let mut n: usize = 0;
    proof {
        assert(flat_view(f@) =~= Seq::empty());
    }
    loop
        invariant
            pos <= cs@.len(),
            n <= pos,
            flatten_from(cs@, pos as int, n as int, (flat_view(f@), ctx@)) == flatten(cs@),
        decreases cs@.len() - pos,
    {
        let q = run_end(cs, pos, '\n');
        let ghost line = cs@.subrange(pos as int, q as int);
        let ghost st = (flat_view(f@), ctx@);
        let (a, b) = trim_bounds(cs, pos, q);
        let ghost t = trim(line);
        if a == b || cs[a] == '#' {
            assert(read_line(st, line, line_text(cs@, pos as int, q as int), n + 1) == Ok::<
                FlatState,
                (int, Seq<char>),
            >(st));
        } else {
            let p = find_separator(cs, a, b);
            if p == b {
                let end = if pos < q && q < cs.len() && cs[q - 1] == '\r' {
                    q - 1
                } else {
                    q
                };
                let raw = string_of(cs, pos, end);
                return Err((n + 1, raw));
            }
            let (k0, k1) = trim_bounds(cs, a, p);
            let (v0, v1) = trim_bounds(cs, p + 1, b);
            proof {
                assert(t.subrange(0, p - a) =~= cs@.subrange(a as int, p as int));
                assert(t.subrange(p - a + 1, t.len() as int) =~= cs@.subrange(p + 1, b as int));
            }
            let full = join_exec(&ctx, cs, k0, k1);
            let val = sub_vec(cs, v0, v1);
            if cs[p] == ':' && v0 == v1 {
                ctx = sub_vec(&full, 0, full.len());
                assert(ctx@ =~= full@);
            }
            flat_assign(&mut f, full, val);
        }
        if q >= cs.len() {
            return Ok((f, ctx));
        }
        pos = q + 1;
        n = n + 1;
    }
}

/// The tree `es` after placing raw value `val` at the dotted path whose
/// segments start at `start` in `path`: containers are made for missing
/// inner segments, a non-empty value becomes a leaf at the last segment, and
/// an empty one places nothing. An inner segment held by a leaf, or a last
/// segment held by a container when the value is not empty, is a conflict,
/// reported as the end of that segment within `path`.
pub open spec fn place(es: Seq<(Seq<char>, Tree)>, path: Seq<char>, start: int, val: Seq<char>) -> Result<
    Seq<(Seq<char>, Tree)>,
    int,
>
    decreases path.len() - start,
{
    let d = start + run_len(path, start, '.');
    let seg = path.subrange(start, d);
    if d >= path.len() {
        if val.len() == 0 {
            Ok(es)
        } else {
            match find_key(es, seg) {
                Some(i) if es[i].1 is Node => Err(d),
                _ => Ok(assign(es, seg, Tree::Leaf(val))),
            }
        }
    } else {
        match find_key(es, seg) {
            None => match place(Seq::empty(), path, d + 1, val) {
                Ok(sub) => Ok(es.push((seg, Tree::Node(sub)))),
                Err(e) => Err(e),
            },
            Some(i) => match es[i].1 {
                Tree::Leaf(_) => Err(d),
                Tree::Node(sub) => match place(sub, path, d + 1, val) {
                    Ok(sub2) => Ok(es.update(i, (seg, Tree::Node(sub2)))),
                    Err(e) => Err(e),
                },
            },
        }
    }
}

/// The tree `es` after placing the entries of the flat mapping `f` from
/// position `i` on, in order; a conflict is reported as its dotted prefix.
pub open spec fn build_from(f: Seq<(Seq<char>, Seq<char>)>, i: int, es: Seq<(Seq<char>, Tree)>) -> Result<
    Seq<(Seq<char>, Tree)>,
    Seq<char>,
>
    decreases f.len() - i,
{
    if i < 0 || i >= f.len() {
        Ok(es)
    } else {
        match place(es, f[i].0, 0, f[i].1) {
            Err(d) => Err(f[i].0.subrange(0, d)),
            Ok(es2) => build_from(f, i + 1, es2),
        }
    }
}

proof fn lemma_place_err_bound(es: Seq<(Seq<char>, Tree)>, path: Seq<char>, start: int, val: Seq<char>)
    requires
        0 <= start <= path.len(),
    ensures
        place(es, path, start, val) matches Err(d) ==> start <= d <= path.len(),
    decreases path.len() - start,
{
    let d = start + run_len(path, start, '.');
    lemma_run_len_bound(path, start, '.');
    if d < path.len() {
        lemma_place_err_bound(Seq::empty(), path, d + 1, val);
        match find_key(es, path.subrange(start, d)) {
            Some(i) => {
                lemma_find_key_some(es, path.subrange(start, d));
                if let Tree::Node(sub) = es[i].1 {
                    lemma_place_err_bound(sub, path, d + 1, val);
                }
            },
            None => {},
        }
    }
}

pub proof fn lemma_run_len_bound(s: Seq<char>, pos: int, stop: char)
    requires
        0 <= pos <= s.len(),
    ensures
        pos + run_len(s, pos, stop) <= s.len(),
    decreases s.len() - pos,
{
    if pos < s.len() && s[pos] != stop {
        lemma_run_len_bound(s, pos + 1, stop);
    }
}

/// Binds key `k` to `v` among the children `es`, in place if `k` is there.
fn assign_entry(es: &mut Vec<(String, Value)>, k: String, v: Value)
    ensures
        entries_view(final(es)@) == assign(entries_view(old(es)@), k@, v@),
{
    match position_of(es, k.as_str()) {
        Some(i) => {
            let ghost e = (k, v);
            proof {
                lemma_view_update(es@, i as int, e);
                assert(es@.remove(i as int).insert(i as int, e) =~= es@.update(i as int, e));
            }
            es.remove(i);
            es.insert(i, (k, v));
        },
        None => {
            let ghost e = (k, v);
            proof {
                lemma_view_push(es@, e);
            }
            es.push((k, v));
        },
    }
}

/// Places raw value `val` at the dotted path of `path` whose segments start
/// at `start`, as `place` says.
fn place_exec(es: &mut Vec<(String, Value)>, path: &Vec<char>, start: usize, val: &Vec<char>) -> (r:
    Result<(), usize>)
    requires
        start <= path@.len(),
    ensures
        match place(entries_view(old(es)@), path@, start as int, val@) {
            Ok(m) => r is Ok && entries_view(final(es)@) == m,
            Err(d) => match r {
                Ok(_) => false,
                Err(e) => e == d,
            },
        },
    decreases path@.len() - start,
{
    let ghost m = entries_view(es@);
    let d = run_end(path, start, '.');
    let seg = string_of(path, start, d);
    proof {
        lemma_place_err_bound(m, path@, start as int, val@);
    }
    if d >= path.len() {
        if val.len() > 0 {
            match position_of(es, seg.as_str()) {
                Some(i) => {
                    proof {
                        lemma_find_key_some(m, seg@);
                    }
                    assert(m[i as int] == (es@[i as int].0@, es@[i as int].1@));
                    if let Value::Object(_) = &es[i].1 {
                        return Err(d);
                    }
                },
                None => {},
            }
            let leaf = Value::String(string_of(val, 0, val.len()));
            assert(val@.subrange(0, val@.len() as int) =~= val@);
            assign_entry(es, seg, leaf);
        }
        return Ok(());
    }
    match position_of(es, seg.as_str()) {
        None => {
            let mut sub: Vec<(String, Value)> = Vec::new();
            proof {
                assert(entries_view(sub@) =~= Seq::<(Seq<char>, Tree)>::empty());
            }
            match place_exec(&mut sub, path, d + 1, val) {
                Err(e) => Err(e),
                Ok(()) => {
                    let ghost e = (seg, Value::Object(sub));
                    proof {
                        lemma_view_push(es@, e);
                    }
                    es.push((seg, Value::Object(sub)));
                    Ok(())
                },
            }
        },
        Some(i) => {
            proof {
                lemma_find_key_some(m, seg@);
            }
            let (k, v) = es.remove(i);
            match v {
                Value::String(s) => {
                    es.insert(i, (k, Value::String(s)));
                    Err(d)
                },
                Value::Object(mut sub) => {
                    let r = place_exec(&mut sub, path, d + 1, val);
                    let ghost e = (k, Value::Object(sub));
                    proof {
                        lemma_view_update(old(es)@, i as int, e);
                        assert(old(es)@.remove(i as int).insert(i as int, e) =~= old(es)@.update(
                            i as int,
                            e,
                        ));
                    }
                    es.insert(i, (k, Value::Object(sub)));
                    match r {
                        Ok(()) => Ok(()),
                        Err(e) => Err(e),
                    }
                },
            }
        },
    }
}

/// The tree built from the flat mapping `f`, or the dotted prefix at which
/// a leaf stood where a container was needed.
fn build(f: &Flat) -> (r: Result<Value, String>)
    ensures
        match build_from(flat_view(f@), 0, Seq::empty()) {
            Ok(es) => match r {
                Ok(v) => v@ == Tree::Node(es),
                Err(_) => false,
            },
            Err(p) => match r {
                Ok(_) => false,
                Err(s) => s@ == p,
            },
        },
{
    let ghost fv = flat_view(f@);
    let mut es: Vec<(String, Value)> = Vec::new();
    assert(entries_view(es@) =~= Seq::<(Seq<char>, Tree)>::empty());
    let mut i: usize = 0;
    while i < f.len()
        invariant
            i <= f@.len(),
            fv == flat_view(f@),
            build_from(fv, i as int, entries_view(es@)) == build_from(fv, 0, Seq::empty()),
        decreases f.len() - i,
    {
        assert(fv[i as int] == (f@[i as int].0@, f@[i as int].1@));
        proof {
            lemma_place_err_bound(entries_view(es@), fv[i as int].0, 0, fv[i as int].1);
        }
        match place_exec(&mut es, &f[i].0, 0, &f[i].1) {
            Err(d) => {
                return Err(string_of(&f[i].0, 0, d));
            },
            Ok(()) => {},
        }
        i = i + 1;
    }
    let v = Value::Object(es);
    assert(v@ == Tree::Node(entries_view(es@)));
    Ok(v)
}

/// Binding a key among children with unique keys keeps them unique.
proof fn lemma_assign_unique<V>(es: Seq<(Seq<char>, V)>, k: Seq<char>, v: V)
    requires
        keys_unique(es),
    ensures
        keys_unique(assign(es, k, v)),
        forall|j: int|
            0 <= j < assign(es, k, v).len() ==> (#[trigger] assign(es, k, v)[j]).0 == k || (j
                < es.len() && assign(es, k, v)[j] == es[j]),
{
    lemma_find_key_some(es, k);
}

/// Placing a value keeps every container's keys unique.
proof fn lemma_place_wf(es: Seq<(Seq<char>, Tree)>, path: Seq<char>, start: int, val: Seq<char>)
    requires
        Tree::Node(es).wf(),
    ensures
        place(es, path, start, val) matches Ok(es2) ==> Tree::Node(es2).wf(),
    decreases path.len() - start,
{
    let d = start + run_len(path, start, '.');
    let seg = path.subrange(start, d);
    lemma_find_key_some(es, seg);
    if d >= path.len() {
        if val.len() > 0 {
            lemma_assign_unique(es, seg, Tree::Leaf(val));
            let es2 = assign(es, seg, Tree::Leaf(val));
            assert forall|j: int| 0 <= j < es2.len() implies (#[trigger] es2[j]).1.wf() by {
                if es2[j].0 == seg {
                    lemma_find_key_some(es2, seg);
                }
            }
        }
    } else {
        match find_key(es, seg) {
            None => {
                lemma_place_wf(Seq::empty(), path, d + 1, val);
                if let Ok(sub) = place(Seq::empty(), path, d + 1, val) {
                    let es2 = es.push((seg, Tree::Node(sub)));
                    assert forall|j: int| 0 <= j < es2.len() implies (#[trigger] es2[j]).1.wf() by {
                        if j < es.len() {
                            assert(es2[j] == es[j]);
                        }
                    }
                }
            },
            Some(i) => {
                assert(es[i].1.wf());
                if let Tree::Node(sub) = es[i].1 {
                    lemma_place_wf(sub, path, d + 1, val);
                    if let Ok(sub2) = place(sub, path, d + 1, val) {
                        let es2 = es.update(i, (seg, Tree::Node(sub2)));
                        assert forall|j: int| 0 <= j < es2.len() implies (#[trigger] es2[j]).1.wf() by {
                            if j != i {
                                assert(es2[j] == es[j]);
                            }
                        }
                    }
                }
            },
        }
    }
}

/// Building from a flat mapping keeps every container's keys unique.
proof fn lemma_build_wf(f: Seq<(Seq<char>, Seq<char>)>, i: int, es: Seq<(Seq<char>, Tree)>)
    requires
        Tree::Node(es).wf(),
    ensures
        build_from(f, i, es) matches Ok(es2) ==> Tree::Node(es2).wf(),
    decreases f.len() - i,
{
    if 0 <= i < f.len() {
        lemma_place_wf(es, f[i].0, 0, f[i].1);
        if let Ok(es2) = place(es, f[i].0, 0, f[i].1) {
            lemma_build_wf(f, i + 1, es2);
        }
    }
}

/// Why a text failed to parse.
#[derive(Debug)]
pub enum ParseError {
    /// A line that is neither blank, a comment, nor holds `=` or `:`.
    MalformedLine { line_number: usize, raw_text: String },
    /// A dotted path prefix used both as a leaf and as a container.
    KeyConflict { dotted_path: String },
}

/// The model of a parse failure.
pub enum Failure {
    Malformed(int, Seq<char>),
    Conflict(Seq<char>),
}

impl View for ParseError {
    type V = Failure;

    open spec fn view(&self) -> Failure {
        match self {
            ParseError::MalformedLine { line_number, raw_text } => Failure::Malformed(
                *line_number as int,
                raw_text@,
            ),
            ParseError::KeyConflict { dotted_path } => Failure::Conflict(dotted_path@),
        }
    }
}

/// What parsing the text `s` gives: the flattening pass, then the tree built
/// from its flat mapping.
pub open spec fn parse_spec(s: Seq<char>) -> Result<Tree, Failure> {
    match flatten(s) {
        Err(e) => Err(Failure::Malformed(e.0, e.1)),
        Ok(st) => match build_from(st.0, 0, Seq::empty()) {
            Err(p) => Err(Failure::Conflict(p)),
            Ok(es) => Ok(Tree::Node(es)),
        },
    }
}

/// Parses a whole document into its root container. Each line is read in
/// turn into a binding of a dotted path to a raw value, a later binding of a
/// path replacing an earlier one; the tree is then built from the bindings
/// in the order in which their paths first appeared. The first malformed
/// line, or the first conflict, ends the parse.
pub fn parse(content: &str) -> (r: Result<Value, ParseError>)
    ensures
        match parse_spec(content@) {
            Ok(t) => match r {
                Ok(v) => v@ == t,
                Err(_) => false,
            },
            Err(e) => match r {
                Ok(_) => false,
                Err(pe) => pe@ == e,
            },
        },
        r matches Ok(v) ==> v@.wf(),
{
    proof {
        match flatten(content@) {
            Ok(st) => {
                assert(Tree::Node(Seq::empty()).wf());
                lemma_build_wf(st.0, 0, Seq::empty());
            },
            Err(_) => {},
        }
    }
    let cs = chars_of(content);
    match flatten_chars(&cs) {
        Err((n, raw)) => Err(ParseError::MalformedLine { line_number: n, raw_text: raw }),
        Ok((f, _)) => match build(&f) {
            Err(p) => Err(ParseError::KeyConflict { dotted_path: p }),
            Ok(v) => Ok(v),
        },
    }
}

/// Binding a dotted path twice leaves the mapping as binding it once to the
/// later value: a later line at the same path overwrites an earlier one, in
/// place.
pub proof fn lemma_last_write_wins(
    f: Seq<(Seq<char>, Seq<char>)>,
    p: Seq<char>,
    v1: Seq<char>,
    v2: Seq<char>,
)
    ensures
        assign(assign(f, p, v1), p, v2) == assign(f, p, v2),
{
    lemma_find_key_some(f, p);
    let g = assign(f, p, v1);
    match find_key(f, p) {
        Some(i) => {
            assert forall|j: int| 0 <= j < i implies g[j].0 != p by {}
            lemma_find_key(g, p, i);
            assert(g.update(i, (p, v2)) =~= f.update(i, (p, v2)));
        },
        None => {
            let n = f.len() as int;
            assert forall|j: int| 0 <= j < n implies g[j].0 != p by {}
            lemma_find_key(g, p, n);
            assert(g.update(n, (p, v2)) =~= f.push((p, v2)));
        },
    }
}

} // verus!
