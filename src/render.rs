use vstd::prelude::*;
use vstd::string::StringExecFns;
use crate::text::push_char;
use crate::value::{Tree, Value, entries_view, lemma_child_decreases};

verus! {

/// `n` spaces.
pub open spec fn spaces(n: int) -> Seq<char> {
    Seq::new(n as nat, |_i: int| ' ')
}

/// The text of one entry under key `k` at `indent`: `k = s` and a newline
/// for a leaf `s`; `k:`, a newline, and `sub` for a container.
pub open spec fn entry_text(k: Seq<char>, t: Tree, indent: int, sub: Seq<char>) -> Seq<char> {
    match t {
        Tree::Leaf(s) => spaces(indent) + k + seq![' ', '=', ' '] + s + seq!['\n'],
        Tree::Node(_) => spaces(indent) + k + seq![':', '\n'] + sub,
    }
}

/// The text of each entry of `es` at `indent`, its children four spaces
/// further in.
pub open spec fn entry_texts(es: Seq<(Seq<char>, Tree)>, indent: int) -> Seq<Seq<char>>
    decreases es,
{
    Seq::new(
        es.len(),
        |i: int|
            if 0 <= i < es.len() {
                entry_text(es[i].0, es[i].1, indent, render(es[i].1, indent + 4))
            } else {
                Seq::empty()
            },
    )
}

/// The notation for `t` at `indent`: a leaf is its payload; a container is
/// its entries, one after the other.
pub open spec fn render(t: Tree, indent: int) -> Seq<char>
    decreases t,
{
    match t {
        Tree::Leaf(s) => s,
        Tree::Node(es) => entry_texts(es, indent).flatten(),
    }
}

/// Each nested container of `t`, starting at `indent`, is indented by a
/// width that fits in `usize`.
pub open spec fn fits(t: Tree, indent: int) -> bool
    decreases t,
{
    match t {
        Tree::Leaf(_) => true,
        Tree::Node(es) => forall|i: int|
            0 <= i < es.len() ==> match #[trigger] es[i].1 {
                Tree::Leaf(_) => true,
                Tree::Node(_) => indent + 4 <= usize::MAX && fits(es[i].1, indent + 4),
            },
    }
}

/// Whether `to_text` can render `value` from `indent`: every nested
/// container's indentation fits in `usize`.
pub fn indent_fits(value: &Value, indent: usize) -> (r: bool)
    ensures
        r == fits(value@, indent as int),
    decreases value@,
{
    match value {
        Value::String(_) => true,
        Value::Object(es) => {
            let ghost m = entries_view(es@);
            assert(value@ == Tree::Node(m));
            let mut i: usize = 0;
            while i < es.len()
                invariant
                    i <= es@.len(),
                    m == entries_view(es@),
                    value@ == Tree::Node(m),
                    forall|j: int|
                        0 <= j < i ==> match #[trigger] m[j].1 {
                            Tree::Leaf(_) => true,
                            Tree::Node(_) => indent + 4 <= usize::MAX && fits(m[j].1, indent + 4),
                        },
                decreases es.len() - i,
            {
                let v = &es[i].1;
                assert(m[i as int] == (es@[i as int].0@, v@));
                match v {
                    Value::String(_) => {},
                    Value::Object(_) => {
                        if indent > usize::MAX - 4 {
                            assert(m[i as int].1 is Node);
                            return false;
                        }
                        proof {
                            lemma_child_decreases(m, i as int);
                        }
                        if !indent_fits(v, indent + 4) {
                            return false;
                        }
                    },
                }
                i = i + 1;
            }
            true
        },
    }
}

fn push_spaces(r: &mut String, n: usize)
    ensures
        final(r)@ == old(r)@ + spaces(n as int),
{
    let mut i: usize = 0;
    while i < n
        invariant
            i <= n,
            r@ == old(r)@ + spaces(i as int),
        decreases n - i,
    {
        push_char(r, ' ');
        i = i + 1;
        assert(r@ =~= old(r)@ + spaces(i as int));
    }
}

/// Renders `value` in the notation, starting at `indent` spaces: each entry
/// of a container on a line of its own, `key = value` for a leaf and `key:`
/// followed by the nested container four spaces further in.
pub fn to_text(value: &Value, indent: usize) -> (r: String)
    requires
        fits(value@, indent as int),
    ensures
        r@ == render(value@, indent as int),
    decreases value@,
{
    match value {
        Value::String(s) => s.clone(),
        Value::Object(es) => {
            let ghost m = entries_view(es@);
            let ghost pieces = entry_texts(m, indent as int);
            assert(value@ == Tree::Node(m));
            let mut r = String::new();
            let mut i: usize = 0;
            assert(pieces.take(0) =~= Seq::<Seq<char>>::empty());
            while i < es.len()
                invariant
                    i <= es@.len(),
                    m == entries_view(es@),
                    pieces == entry_texts(m, indent as int),
                    fits(Tree::Node(m), indent as int),
                    *value == Value::Object(*es),
                    r@ == pieces.take(i as int).flatten(),
                decreases es.len() - i,
            {
                let ghost r0 = r@;
                let k = &es[i].0;
                let v = &es[i].1;
                assert(m[i as int] == (k@, v@));
                push_spaces(&mut r, indent);
                r.append(k.as_str());
                match v {
                    Value::String(s) => {
                        push_char(&mut r, ' ');
                        push_char(&mut r, '=');
                        push_char(&mut r, ' ');
                        r.append(s.as_str());
                        push_char(&mut r, '\n');
                        assert(r@ =~= r0 + pieces[i as int]);
                    },
                    Value::Object(_) => {
                        push_char(&mut r, ':');
                        push_char(&mut r, '\n');
                        proof {
                            assert(m[i as int].1 is Node);
                            assert(fits(m[i as int].1, indent + 4));
                            vstd::seq::axiom_seq_index_decreases(m, i as int);
                            assert(decreases_to!(value@ => v@));
                        }
                        let sub = to_text(v, indent + 4);
                        r.append(sub.as_str());
                        assert(r@ =~= r0 + pieces[i as int]);
                    },
                }
                proof {
                    assert(pieces.take(i + 1) =~= pieces.take(i as int).push(pieces[i as int]));
                    pieces.take(i as int).lemma_flatten_push(pieces[i as int]);
                }
                i = i + 1;
            }
            assert(pieces.take(i as int) =~= pieces);
            r
        },
    }
}

} // verus!
