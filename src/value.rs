use vstd::prelude::*;
use vstd::string::StringExecFns;

verus! {

/// The mathematical shape of a configuration value: a leaf string, or an
/// ordered list of keyed children.
pub enum Tree {
    Leaf(Seq<char>),
    Node(Seq<(Seq<char>, Tree)>),
}

/// A configuration value: a leaf string, or a container of keyed children.
#[derive(Debug)]
pub enum Value {
    String(String),
    Object(Vec<(String, Value)>),
}

/// The first position of key `k` among `es`, if any.
pub open spec fn find_key<V>(es: Seq<(Seq<char>, V)>, k: Seq<char>) -> Option<int>
    decreases es.len(),
{
    if es.len() == 0 {
        None
    } else if es[0].0 == k {
        Some(0)
    } else {
        match find_key(es.drop_first(), k) {
            Some(i) => Some(i + 1),
            None => None,
        }
    }
}

/// Scanning `es` from the front, the first position whose key is `k` is the
/// one `find_key` gives.
pub proof fn lemma_find_key<V>(es: Seq<(Seq<char>, V)>, k: Seq<char>, i: int)
    requires
        0 <= i <= es.len(),
        forall|j: int| 0 <= j < i ==> es[j].0 != k,
    ensures
        i < es.len() && es[i].0 == k ==> find_key(es, k) == Some(i),
        i == es.len() ==> find_key(es, k) is None,
    decreases i,
{
    if i > 0 {
        lemma_find_key(es.drop_first(), k, i - 1);
    } else if es.len() > 0 && es[0].0 != k {
        assert(i == es.len() ==> false);
    }
}

/// A position that `find_key` gives holds the key.
pub proof fn lemma_find_key_some<V>(es: Seq<(Seq<char>, V)>, k: Seq<char>)
    ensures
        find_key(es, k) matches Some(i) ==> 0 <= i < es.len() && es[i].0 == k && forall|j: int|
            0 <= j < i ==> es[j].0 != k,
        find_key(es, k) is None ==> forall|j: int| 0 <= j < es.len() ==> es[j].0 != k,
    decreases es.len(),
{
    if es.len() > 0 && es[0].0 != k {
        lemma_find_key_some(es.drop_first(), k);
        assert forall|j: int| 1 <= j < es.len() implies es[j] == es.drop_first()[j - 1] by {}
    }
}

/// A child is smaller than the container that holds it.
pub proof fn lemma_child_decreases(es: Seq<(Seq<char>, Tree)>, i: int)
    requires
        0 <= i < es.len(),
    ensures
        decreases_to!(Tree::Node(es) => es[i].1),
{
    let t = Tree::Node(es);
    assert(decreases_to!(t => t->Node_0));
    assert(decreases_to!(es => es[i]));
    let c = es[i];
    assert(decreases_to!(c => c.1));
}

/// Appending a child appends its model.
pub proof fn lemma_view_push(es: Seq<(String, Value)>, e: (String, Value))
    ensures
        entries_view(es.push(e)) == entries_view(es).push((e.0@, e.1@)),
{
    assert(entries_view(es.push(e)) =~= entries_view(es).push((e.0@, e.1@)));
}

/// Replacing a child replaces its model.
pub proof fn lemma_view_update(es: Seq<(String, Value)>, i: int, e: (String, Value))
    requires
        0 <= i < es.len(),
    ensures
        entries_view(es.update(i, e)) == entries_view(es).update(i, (e.0@, e.1@)),
{
    assert(entries_view(es.update(i, e)) =~= entries_view(es).update(i, (e.0@, e.1@)));
}

/// Each key appears at most once among `es`.
pub open spec fn keys_unique<V>(es: Seq<(Seq<char>, V)>) -> bool {
    forall|i: int, j: int| 0 <= i < j < es.len() ==> es[i].0 != es[j].0
}

impl Tree {
    /// Every container of the tree has unique keys.
    pub open spec fn wf(self) -> bool
        decreases self,
    {
        match self {
            Tree::Leaf(_) => true,
            Tree::Node(es) => keys_unique(es) && forall|i: int|
                0 <= i < es.len() ==> (#[trigger] es[i]).1.wf(),
        }
    }
}

/// The model of a list of children.
pub open spec fn entries_view(es: Seq<(String, Value)>) -> Seq<(Seq<char>, Tree)>
    decreases es,
{
    Seq::new(
        es.len(),
        |i: int|
            if 0 <= i < es.len() {
                (es[i].0@, tree_of(es[i].1))
            } else {
                (Seq::empty(), Tree::Leaf(Seq::empty()))
            },
    )
}

/// The model of a value.
pub open spec fn tree_of(v: Value) -> Tree
    decreases v,
{
    match v {
        Value::String(s) => Tree::Leaf(s@),
        Value::Object(es) => Tree::Node(entries_view(es@)),
    }
}

impl View for Value {
    type V = Tree;

    open spec fn view(&self) -> Tree {
        tree_of(*self)
    }
}

/// The child that `t` holds under key `k`, if `t` is a container holding one.
pub open spec fn child(t: Tree, k: Seq<char>) -> Option<Tree> {
    match t {
        Tree::Leaf(_) => None,
        Tree::Node(es) => match find_key(es, k) {
            Some(i) => Some(es[i].1),
            None => None,
        },
    }
}

/// The first position of `key` among the children `es`.
pub fn position_of(es: &Vec<(String, Value)>, key: &str) -> (r: Option<usize>)
    ensures
        match r {
            Some(i) => i < es@.len() && find_key(entries_view(es@), key@) == Some(i as int),
            None => find_key(entries_view(es@), key@) is None,
        },
{
    let ghost m = entries_view(es@);
    let k: String = key.to_owned();
    let mut i: usize = 0;
    while i < es.len()
        invariant
            i <= es.len(),
            m == entries_view(es@),
            k@ == key@,
            forall|j: int| 0 <= j < i ==> m[j].0 != key@,
        decreases es.len() - i,
    {
        if es[i].0 == k {
            proof {
                lemma_find_key(m, key@, i as int);
            }
            return Some(i);
        }
        i = i + 1;
    }
    proof {
        lemma_find_key(m, key@, i as int);
    }
    None
}

impl Value {
    /// A short text for debugging output: a leaf's payload as it is, and a
    /// fixed placeholder for a container, whatever it holds.
    pub fn display_text(&self) -> (r: String)
        ensures
            match self {
                Value::String(s) => r@ == s@,
                Value::Object(_) => r@ == "<Object>"@,
            },
    {
        match self {
            Value::String(s) => s.clone(),
            Value::Object(_) => {
                let r = String::from_str("<Object>");
                proof {
                    reveal_strlit("<Object>");
                }
                r
            },
        }
    }

    /// The payload of a leaf; nothing for a container.
    pub fn as_string(&self) -> (r: Option<&String>)
        ensures
            match self {
                Value::String(s) => r == Some(s),
                Value::Object(_) => r is None,
            },
    {
        match self {
            Value::String(s) => Some(s),
            Value::Object(_) => None,
        }
    }

    /// The children of a container; nothing for a leaf.
    pub fn as_object(&self) -> (r: Option<&Vec<(String, Value)>>)
        ensures
            match self {
                Value::Object(es) => r == Some(es),
                Value::String(_) => r is None,
            },
    {
        match self {
            Value::Object(es) => Some(es),
            Value::String(_) => None,
        }
    }

    /// The direct child under `key` of a container; nothing for a leaf or a
    /// missing key.
    pub fn get(&self, key: &str) -> (r: Option<&Value>)
        ensures
            match self {
                Value::String(_) => r is None,
                Value::Object(es) => match find_key(entries_view(es@), key@) {
                    Some(i) => r == Some(&es@[i].1),
                    None => r is None,
                },
            },
            match r {
                Some(v) => child(self@, key@) == Some(v@),
                None => child(self@, key@) is None,
            },
    {
        match self {
            Value::String(_) => None,
            Value::Object(es) => {
                proof {
                    assert(self@ == Tree::Node(entries_view(es@)));
                }
                match position_of(es, key) {
                    Some(i) => {
                        proof {
                            assert(entries_view(es@)[i as int].1 == es@[i as int].1@);
                        }
                        Some(&es[i].1)
                    },
                    None => None,
                }
            },
        }
    }

    /// The payload of the leaf under `key`, if there is one.
    pub fn get_string(&self, key: &str) -> (r: Option<&String>)
        ensures
            match self.get_spec(key@) {
                Some(Value::String(s)) => r == Some(&s),
                _ => r is None,
            },
            match r {
                Some(s) => child(self@, key@) == Some(Tree::Leaf(s@)),
                None => !(child(self@, key@) matches Some(Tree::Leaf(_))),
            },
    {
        match self.get(key) {
            Some(v) => v.as_string(),
            None => None,
        }
    }

    /// The children of the container under `key`, if there is one.
    pub fn get_object(&self, key: &str) -> (r: Option<&Vec<(String, Value)>>)
        ensures
            match self.get_spec(key@) {
                Some(Value::Object(es)) => r == Some(&es),
                _ => r is None,
            },
            match r {
                Some(es) => child(self@, key@) == Some(Tree::Node(entries_view(es@))),
                None => !(child(self@, key@) matches Some(Tree::Node(_))),
            },
    {
        match self.get(key) {
            Some(v) => v.as_object(),
            None => None,
        }
    }

    /// The direct child under `k`, as `get` finds it.
    pub open spec fn get_spec(&self, k: Seq<char>) -> Option<Value> {
        match self {
            Value::String(_) => None,
            Value::Object(es) => match find_key(entries_view(es@), k) {
                Some(i) => Some(es@[i].1),
                None => None,
            },
        }
    }
}

} // verus!
