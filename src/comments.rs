use vstd::prelude::*;
use crate::parser::{
    FlatState, Failure, flatten_from, line_text, parse_spec, read_line, run_len, separator_at,
};
use crate::round_trip::lemma_flatten_first_line;
use crate::text::trim;
use crate::value::Tree;

verus! {

/// `r` with the number of a malformed line raised by `k`.
pub open spec fn renumbered(r: Result<Tree, Failure>, k: int) -> Result<Tree, Failure> {
    match r {
        Err(Failure::Malformed(n, t)) => Err(Failure::Malformed(n + k, t)),
        _ => r,
    }
}

/// A line that the flattening pass skips: blank, or a comment.
pub open spec fn skipped_line(line: Seq<char>) -> bool {
    trim(line).len() == 0 || trim(line)[0] == '#'
}

proof fn lemma_flatten_renumber(s: Seq<char>, pos: int, n: int, k: int, st: FlatState)
    ensures
        flatten_from(s, pos, n + k, st) == match flatten_from(s, pos, n, st) {
            Ok(st2) => Ok(st2),
            Err(e) => Err((e.0 + k, e.1)),
        },
    decreases s.len() - pos,
{
    let q = pos + run_len(s, pos, '\n');
    let line = s.subrange(pos, q);
    let raw = line_text(s, pos, q);
    match read_line(st, line, raw, n + 1) {
        Ok(st2) => {
            assert(read_line(st, line, raw, n + k + 1) == Ok::<FlatState, (int, Seq<char>)>(st2));
            if q < s.len() {
                lemma_flatten_renumber(s, q + 1, n + 1, k, st2);
            }
        },
        Err(e) => {},
    }
}

/// A blank or comment line put before a document changes nothing but the
/// number of a malformed line, which grows by one.
pub proof fn lemma_skipped_line_before(line: Seq<char>, rest: Seq<char>)
    requires
        skipped_line(line),
        forall|m: int| 0 <= m < line.len() ==> line[m] != '\n',
    ensures
        parse_spec(line + seq!['\n'] + rest) == renumbered(parse_spec(rest), 1),
{
    let st: FlatState = (Seq::empty(), Seq::empty());
    let text = line + seq!['\n'] + rest;
    lemma_flatten_first_line(line, rest, 0, st);
    assert(read_line(st, line, line_text(text, 0, line.len() as int), 1) == Ok::<
        FlatState,
        (int, Seq<char>),
    >(st));
    lemma_flatten_renumber(rest, 0, 0, 1, st);
}

proof fn lemma_no_separator(t: Seq<char>, i: int)
    requires
        0 <= i <= t.len(),
        forall|m: int| 0 <= m < t.len() ==> t[m] != '=' && t[m] != ':',
    ensures
        separator_at(t, i) == t.len(),
    decreases t.len() - i,
{
    if i < t.len() {
        lemma_no_separator(t, i + 1);
    }
}

/// A first line that is neither blank, a comment, nor holds `=` or `:` is
/// reported as malformed line 1, with its text, whatever follows it.
pub proof fn lemma_malformed_first_line(line: Seq<char>, rest: Seq<char>)
    requires
        !skipped_line(line),
        forall|m: int| 0 <= m < trim(line).len() ==> trim(line)[m] != '=' && trim(line)[m] != ':',
        forall|m: int| 0 <= m < line.len() ==> line[m] != '\n',
        line.len() > 0 && line.last() != '\r',
    ensures
        parse_spec(line + seq!['\n'] + rest) == Err::<Tree, Failure>(Failure::Malformed(1, line)),
{
    let st: FlatState = (Seq::empty(), Seq::empty());
    let text = line + seq!['\n'] + rest;
    lemma_flatten_first_line(line, rest, 0, st);
    lemma_no_separator(trim(line), 0);
    assert(text.subrange(0, line.len() as int) =~= line);
    assert(line_text(text, 0, line.len() as int) == line);
}

} // verus!
