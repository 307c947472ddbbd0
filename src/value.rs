use vstd::prelude::*;

verus! {

/// A number of the value tree: an integer held exactly, or a floating value
/// held as its decimal text.
#[derive(Debug, Clone, PartialEq)]
pub enum Number {
    PosInt(u64),
    NegInt(i64),
    Float(String),
}

/// The generic value tree: null, boolean, number, string, ordered list and
/// ordered map with string keys.
#[derive(Debug, PartialEq)]
pub enum Value {
    Null,
    Bool(bool),
    Number(Number),
    String(String),
    Array(Vec<Value>),
    Object(Vec<(String, Value)>),
}

/// The mathematical model of a [`Number`].
pub ghost enum NumberModel {
    Int(int),
    Float(Seq<char>),
}

/// The mathematical model of a [`Value`].
pub ghost enum Tree {
    Null,
    Bool(bool),
    Number(NumberModel),
    Str(Seq<char>),
    Array(Seq<Tree>),
    Object(Seq<(Seq<char>, Tree)>),
}

pub open spec fn number_model(n: Number) -> NumberModel {
    match n {
        Number::PosInt(u) => NumberModel::Int(u as int),
        Number::NegInt(i) => NumberModel::Int(i as int),
        Number::Float(s) => NumberModel::Float(s@),
    }
}

pub open spec fn tree_of(v: Value) -> Tree
    decreases v,
{
    match v {
        Value::Null => Tree::Null,
        Value::Bool(b) => Tree::Bool(b),
        Value::Number(n) => Tree::Number(number_model(n)),
        Value::String(s) => Tree::Str(s@),
        Value::Array(a) => Tree::Array(trees_of(a@)),
        Value::Object(m) => Tree::Object(entries_of(m@)),
    }
}

pub open spec fn trees_of(s: Seq<Value>) -> Seq<Tree>
    decreases s,
{
    if s.len() == 0 {
        Seq::empty()
    } else {
        trees_of(s.drop_last()).push(tree_of(s.last()))
    }
}

pub open spec fn entries_of(s: Seq<(String, Value)>) -> Seq<(Seq<char>, Tree)>
    decreases s,
{
    if s.len() == 0 {
        Seq::empty()
    } else {
        entries_of(s.drop_last()).push((s.last().0@, tree_of(s.last().1)))
    }
}

/// No key occurs twice.
pub open spec fn keys_unique<K, T>(e: Seq<(K, T)>) -> bool {
    forall|i: int, j: int| 0 <= i < j < e.len() ==> #[trigger] e[i].0 != #[trigger] e[j].0
}

/// Position of the first entry with key `k`, or -1 when there is none.
pub open spec fn key_index<K, T>(e: Seq<(K, T)>, k: K) -> int
    decreases e.len(),
{
    if e.len() == 0 {
        -1
    } else if e[0].0 == k {
        0
    } else {
        let r = key_index(e.drop_first(), k);
        if r < 0 {
            -1
        } else {
            r + 1
        }
    }
}

/// Map insertion: the value under an existing key is replaced in place, a new
/// key goes to the end.
pub open spec fn entries_insert(e: Seq<(Seq<char>, Tree)>, k: Seq<char>, v: Tree) -> Seq<
    (Seq<char>, Tree),
> {
    let i = key_index(e, k);
    if i < 0 {
        e.push((k, v))
    } else {
        e.update(i, (k, v))
    }
}

/// Insert-or-promote: a new key is inserted; under an existing key, an array
/// gets `v` appended and any other value becomes the array `[old, v]`.
pub open spec fn entries_promote(e: Seq<(Seq<char>, Tree)>, k: Seq<char>, v: Tree) -> Seq<
    (Seq<char>, Tree),
> {
    let i = key_index(e, k);
    if i < 0 {
        e.push((k, v))
    } else {
        match e[i].1 {
            Tree::Array(a) => e.update(i, (k, Tree::Array(a.push(v)))),
            old => e.update(i, (k, Tree::Array(seq![old, v]))),
        }
    }
}

pub proof fn lemma_key_index_bounds<K, T>(e: Seq<(K, T)>, k: K)
    ensures
        -1 <= key_index(e, k) < e.len(),
        key_index(e, k) >= 0 ==> e[key_index(e, k)].0 == k,
        key_index(e, k) < 0 ==> forall|i: int| 0 <= i < e.len() ==> e[i].0 != k,
    decreases e.len(),
{
    if e.len() > 0 && e[0].0 != k {
        lemma_key_index_bounds(e.drop_first(), k);
        assert forall|i: int| 0 <= i < e.len() && key_index(e, k) < 0 implies e[i].0 != k by {
            if i > 0 {
                assert(e[i] == e.drop_first()[i - 1]);
            }
        }
    }
}

/// The first `j` keys differ from `k` and the key at `j` (if any) is `k`.
pub proof fn lemma_key_index_found<K, T>(e: Seq<(K, T)>, k: K, j: int)
    requires
        0 <= j <= e.len(),
        forall|i: int| 0 <= i < j ==> e[i].0 != k,
        j < e.len() ==> e[j].0 == k,
    ensures
        key_index(e, k) == (if j < e.len() { j } else { -1 }),
    decreases j,
{
    if j > 0 {
        assert forall|i: int| 0 <= i < j - 1 implies e.drop_first()[i].0 != k by {
            assert(e.drop_first()[i] == e[i + 1]);
        }
        if j < e.len() {
            assert(e.drop_first()[j - 1] == e[j]);
        }
        lemma_key_index_found(e.drop_first(), k, j - 1);
    }
}

/// Insertion and promotion keep the keys unique.
pub proof fn lemma_insert_unique(e: Seq<(Seq<char>, Tree)>, k: Seq<char>, v: Tree)
    requires
        keys_unique(e),
    ensures
        keys_unique(entries_insert(e, k, v)),
        keys_unique(entries_promote(e, k, v)),
{
    lemma_key_index_bounds(e, k);
    let i = key_index(e, k);
    if i < 0 {
        let f = e.push((k, v));
        assert forall|a: int, b: int| 0 <= a < b < f.len() implies #[trigger] f[a].0
            != #[trigger] f[b].0 by {
            if b == e.len() {
                assert(f[a] == e[a]);
            } else {
                assert(f[a] == e[a] && f[b] == e[b]);
            }
        }
        assert(keys_unique(entries_insert(e, k, v)));
        assert(keys_unique(entries_promote(e, k, v)));
    } else {
        let w = entries_promote(e, k, v);
        assert(w.len() == e.len());
        assert forall|a: int| 0 <= a < e.len() implies #[trigger] w[a].0 == e[a].0 by {}
        assert forall|a: int| 0 <= a < e.len() implies #[trigger] entries_insert(e, k, v)[a].0
            == e[a].0 by {}
        assert(keys_unique(w)) by {
            assert forall|a: int, b: int| 0 <= a < b < w.len() implies #[trigger] w[a].0
                != #[trigger] w[b].0 by {
                assert(w[a].0 == e[a].0 && w[b].0 == e[b].0);
            }
        }
        let n = entries_insert(e, k, v);
        assert(keys_unique(n)) by {
            assert forall|a: int, b: int| 0 <= a < b < n.len() implies #[trigger] n[a].0
                != #[trigger] n[b].0 by {
                assert(n[a].0 == e[a].0 && n[b].0 == e[b].0);
            }
        }
    }
}

pub proof fn lemma_trees_index(s: Seq<Value>)
    ensures
        trees_of(s).len() == s.len(),
        forall|i: int| 0 <= i < s.len() ==> #[trigger] trees_of(s)[i] == tree_of(s[i]),
    decreases s.len(),
{
    if s.len() > 0 {
        lemma_trees_index(s.drop_last());
        assert forall|i: int| 0 <= i < s.len() implies #[trigger] trees_of(s)[i] == tree_of(s[i]) by {
            if i < s.len() - 1 {
                assert(s.drop_last()[i] == s[i]);
            }
        }
    }
}

pub proof fn lemma_entries_index(s: Seq<(String, Value)>)
    ensures
        entries_of(s).len() == s.len(),
        forall|i: int|
            0 <= i < s.len() ==> #[trigger] entries_of(s)[i] == (s[i].0@, tree_of(s[i].1)),
    decreases s.len(),
{
    if s.len() > 0 {
        lemma_entries_index(s.drop_last());
        assert forall|i: int| 0 <= i < s.len() implies #[trigger] entries_of(s)[i] == (
            s[i].0@,
            tree_of(s[i].1),
        ) by {
            if i < s.len() - 1 {
                assert(s.drop_last()[i] == s[i]);
            }
        }
    }
}

pub proof fn lemma_entries_update(s: Seq<(String, Value)>, i: int, x: (String, Value))
    requires
        0 <= i < s.len(),
    ensures
        entries_of(s.update(i, x)) == entries_of(s).update(i, (x.0@, tree_of(x.1))),
{
    lemma_entries_index(s);
    lemma_entries_index(s.update(i, x));
    assert(entries_of(s.update(i, x)) =~= entries_of(s).update(i, (x.0@, tree_of(x.1))));
}

pub proof fn lemma_trees_push(s: Seq<Value>, x: Value)
    ensures
        trees_of(s.push(x)) == trees_of(s).push(tree_of(x)),
{
    assert(s.push(x).drop_last() =~= s);
}

pub proof fn lemma_entries_push(s: Seq<(String, Value)>, x: (String, Value))
    ensures
        entries_of(s.push(x)) == entries_of(s).push((x.0@, tree_of(x.1))),
{
    assert(s.push(x).drop_last() =~= s);
}

/// The keys of the model are the views of the keys.
pub proof fn lemma_entries_key_index(s: Seq<(String, Value)>, k: Seq<char>, j: int)
    requires
        0 <= j <= s.len(),
        forall|i: int| 0 <= i < j ==> s[i].0@ != k,
        j < s.len() ==> s[j].0@ == k,
    ensures
        key_index(entries_of(s), k) == (if j < s.len() { j } else { -1 }),
{
    lemma_entries_index(s);
    let e = entries_of(s);
    assert forall|i: int| 0 <= i < j implies e[i].0 != k by {
        assert(e[i] == (s[i].0@, tree_of(s[i].1)));
    }
    if j < s.len() {
        assert(e[j] == (s[j].0@, tree_of(s[j].1)));
    }
    lemma_key_index_found(e, k, j);
}

/// Finds the first entry of `m` whose key is `k`.
pub fn find_key(m: &Vec<(String, Value)>, k: &String) -> (r: Option<usize>)
    ensures
        match r {
            Some(i) => i < m@.len() && m@[i as int].0@ == k@ && key_index(entries_of(m@), k@)
                == i as int,
            None => key_index(entries_of(m@), k@) == -1,
        },
{
    let mut j: usize = 0;
    while j < m.len()
        invariant
            j <= m.len(),
            forall|i: int| 0 <= i < j ==> m@[i].0@ != k@,
        decreases m.len() - j,
    {
        if m[j].0 == *k {
            proof {
                lemma_entries_key_index(m@, k@, j as int);
            }
            return Some(j);
        }
        j = j + 1;
    }
    proof {
        lemma_entries_key_index(m@, k@, j as int);
    }
    None
}

/// Inserts `v` under `k`, replacing the value of an existing entry in place.
pub fn object_insert(m: &mut Vec<(String, Value)>, k: String, v: Value)
    ensures
        entries_of(final(m)@) == entries_insert(entries_of(old(m)@), k@, v@),
        keys_unique(entries_of(old(m)@)) ==> keys_unique(entries_of(final(m)@)),
{
    proof {
        if keys_unique(entries_of(m@)) {
            lemma_insert_unique(entries_of(m@), k@, v@);
        }
    }
    match find_key(m, &k) {
        None => {
            proof {
                lemma_entries_push(m@, (k, v));
            }
            m.push((k, v));
        },
        Some(i) => {
            let ghost before = m@;
            let _ = m.remove(i);
            m.insert(i, (k, v));
            proof {
                assert(m@ =~= before.update(i as int, (k, v)));
                lemma_entries_update(before, i as int, (k, v));
            }
        },
    }
}

/// Attaches `v` under `k`: a new key is inserted, and repeated keys are
/// coalesced into an array of the values in order of arrival.
pub fn object_promote(m: &mut Vec<(String, Value)>, k: String, v: Value)
    ensures
        entries_of(final(m)@) == entries_promote(entries_of(old(m)@), k@, v@),
        keys_unique(entries_of(old(m)@)) ==> keys_unique(entries_of(final(m)@)),
{
    proof {
        if keys_unique(entries_of(m@)) {
            lemma_insert_unique(entries_of(m@), k@, v@);
        }
    }
    match find_key(m, &k) {
        None => {
            proof {
                lemma_entries_push(m@, (k, v));
            }
            m.push((k, v));
        },
        Some(i) => {
            let ghost before = m@;
            proof {
                lemma_entries_index(before);
            }
            let (k0, existing) = m.remove(i);
            let merged = match existing {
                Value::Array(mut a) => {
                    proof {
                        lemma_trees_push(a@, v);
                    }
                    a.push(v);
                    Value::Array(a)
                },
                other => {
                    let a = vec![other, v];
                    proof {
                        lemma_trees_push(seq![other], v);
                        lemma_trees_push(Seq::empty(), other);
                        assert(seq![other] =~= Seq::<Value>::empty().push(other));
                        assert(a@ =~= seq![other].push(v));
                        assert(trees_of(a@) =~= seq![tree_of(other), tree_of(v)]);
                    }
                    Value::Array(a)
                },
            };
            m.insert(i, (k0, merged));
            proof {
                assert(m@ =~= before.update(i as int, (k0, merged)));
                lemma_entries_update(before, i as int, (k0, merged));
                assert(entries_of(before)[i as int] == (k0@, tree_of(existing)));
            }
        },
    }
}

impl View for Value {
    type V = Tree;

    open spec fn view(&self) -> Tree {
        tree_of(*self)
    }
}

} // verus!
