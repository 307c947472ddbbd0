use crate::events::EventModel;
use crate::parse::{
    attach, attribute_entries, element_value, flush, initial_model, merge_entries, note_root_name,
    parse_model, past_root, run_from, step, text_key, ParseModel,
};
use crate::serialize::is_attribute_key;
use crate::value::{entries_insert, entries_promote, key_index, lemma_key_index_bounds, Tree};
use vstd::prelude::*;

verus! {

pub open spec fn no_text_key(es: Seq<(Seq<char>, Tree)>) -> bool {
    forall|i: int| 0 <= i < es.len() ==> #[trigger] es[i].0 != text_key()
}

pub open spec fn attribute_keys(es: Seq<(Seq<char>, Tree)>) -> bool {
    forall|i: int| 0 <= i < es.len() ==> is_attribute_key(#[trigger] es[i].0)
}

/// A map holds no `#text` entry, or holds it first with only attributes after
/// it.
pub open spec fn text_alone(es: Seq<(Seq<char>, Tree)>) -> bool {
    no_text_key(es) || (es.len() > 0 && es[0].0 == text_key() && attribute_keys(es.drop_first()))
}

/// Every map of the tree keeps its `#text` entry alone with attributes.
pub open spec fn text_apart(t: Tree) -> bool
    decreases t,
{
    match t {
        Tree::Array(items) => forall|i: int| 0 <= i < items.len() ==> text_apart(#[trigger] items[i]),
        Tree::Object(es) => text_alone(es) && forall|i: int|
            0 <= i < es.len() ==> text_apart(#[trigger] es[i].1),
        _ => true,
    }
}

pub open spec fn values_apart(es: Seq<(Seq<char>, Tree)>) -> bool {
    forall|i: int| 0 <= i < es.len() ==> text_apart(#[trigger] es[i].1)
}

/// What the engine builds inside an element: child entries, none of them
/// `#text`.
pub open spec fn building(o: Option<Tree>) -> bool {
    match o {
        Some(Tree::Object(m)) => no_text_key(m) && values_apart(m),
        Some(t) => text_apart(t),
        None => true,
    }
}

pub open spec fn apart_state(st: ParseModel) -> bool {
    &&& building(st.current)
    &&& attribute_keys(st.attrs) && values_apart(st.attrs)
    &&& match st.root {
        Some(r) => text_apart(r),
        None => true,
    }
    &&& st.root_name != Some(text_key())
    &&& forall|i: int|
        0 <= i < st.stack.len() ==> building(#[trigger] st.stack[i].parent) && attribute_keys(
            st.stack[i].parent_attrs,
        ) && values_apart(st.stack[i].parent_attrs) && st.stack[i].name != text_key()
}

/// Element names of the events are not `#text`.
pub open spec fn names_apart(evs: Seq<EventModel>) -> bool {
    forall|i: int|
        0 <= i < evs.len() ==> match #[trigger] evs[i] {
            EventModel::Start { name, .. } => name != text_key(),
            EventModel::Empty { name, .. } => name != text_key(),
            _ => true,
        }
}

/// Insertion keeps the keys in place and adds `k` at the end, if at all.
pub proof fn lemma_insert_keys(e: Seq<(Seq<char>, Tree)>, k: Seq<char>, v: Tree)
    ensures
        ({
            let r = entries_insert(e, k, v);
            let p = entries_promote(e, k, v);
            &&& e.len() <= r.len() <= e.len() + 1
            &&& p.len() == r.len()
            &&& forall|i: int| 0 <= i < e.len() ==> #[trigger] r[i].0 == e[i].0 && p[i].0 == e[i].0
            &&& r.len() > e.len() ==> r[e.len() as int].0 == k && p[e.len() as int].0 == k
            &&& forall|i: int| 0 <= i < r.len() ==> #[trigger] r[i].1 == v || (i < e.len() && r[i].1 == e[i].1)
        }),
{
    lemma_key_index_bounds(e, k);
}

pub proof fn lemma_insert_apart(e: Seq<(Seq<char>, Tree)>, k: Seq<char>, v: Tree)
    requires
        values_apart(e),
        text_apart(v),
    ensures
        values_apart(entries_insert(e, k, v)),
        values_apart(entries_promote(e, k, v)),
        k != text_key() && no_text_key(e) ==> no_text_key(entries_insert(e, k, v)) && no_text_key(
            entries_promote(e, k, v),
        ),
        is_attribute_key(k) && attribute_keys(e) ==> attribute_keys(entries_insert(e, k, v)),
        is_attribute_key(k) && e.len() > 0 && e[0].0 == text_key() && attribute_keys(e.drop_first())
            ==> ({
            let r = entries_insert(e, k, v);
            r[0].0 == text_key() && attribute_keys(r.drop_first())
        }),
{
    lemma_insert_keys(e, k, v);
    lemma_key_index_bounds(e, k);
    let i = key_index(e, k);
    if i >= 0 {
        match e[i].1 {
            Tree::Array(a) => {
                assert(text_apart(Tree::Array(a.push(v))));
            },
            old => {
                assert(text_apart(Tree::Array(seq![old, v])));
            },
        }
    }
    let r = entries_insert(e, k, v);
    let p = entries_promote(e, k, v);
    assert(values_apart(p));
    if is_attribute_key(k) && e.len() > 0 && e[0].0 == text_key() && attribute_keys(e.drop_first()) {
        assert forall|j: int| 0 <= j < r.drop_first().len() implies is_attribute_key(
            #[trigger] r.drop_first()[j].0,
        ) by {
            assert(r.drop_first()[j] == r[j + 1]);
            if j + 1 < e.len() {
                assert(e.drop_first()[j] == e[j + 1]);
            }
        }
    }
}

pub proof fn lemma_merge_apart(obj: Seq<(Seq<char>, Tree)>, a: Seq<(Seq<char>, Tree)>)
    requires
        values_apart(obj),
        values_apart(a),
        attribute_keys(a),
    ensures
        values_apart(merge_entries(obj, a)),
        no_text_key(obj) ==> no_text_key(merge_entries(obj, a)),
        obj.len() > 0 && obj[0].0 == text_key() && attribute_keys(obj.drop_first()) ==> ({
            let m = merge_entries(obj, a);
            m.len() > 0 && m[0].0 == text_key() && attribute_keys(m.drop_first())
        }),
    decreases a.len(),
{
    if a.len() > 0 {
        let d = a.drop_last();
        assert(values_apart(d) && attribute_keys(d)) by {
            assert forall|i: int| 0 <= i < d.len() implies text_apart(#[trigger] d[i].1)
                && is_attribute_key(d[i].0) by {
                assert(d[i] == a[i]);
            }
        }
        lemma_merge_apart(obj, d);
        let (k, v) = a.last();
        assert(is_attribute_key(a[a.len() - 1].0) && text_apart(a[a.len() - 1].1));
        assert(k != text_key()) by {
            assert(k[0] == '@');
        }
        lemma_insert_apart(merge_entries(obj, d), k, v);
        lemma_insert_keys(merge_entries(obj, d), k, v);
    }
}

pub proof fn lemma_attributes_apart(a: Seq<(Seq<char>, Seq<char>)>)
    ensures
        attribute_keys(attribute_entries(a)),
        values_apart(attribute_entries(a)),
    decreases a.len(),
{
    if a.len() > 0 {
        lemma_attributes_apart(a.drop_last());
        let k = seq!['@'] + a.last().0;
        assert(is_attribute_key(k)) by {
            assert(k[0] == '@');
        }
        lemma_insert_apart(attribute_entries(a.drop_last()), k, Tree::Str(a.last().1));
    }
}

pub proof fn lemma_attach_apart(st: ParseModel, name: Seq<char>, v: Tree, keep_null: bool)
    requires
        apart_state(st),
        text_apart(v),
        name != text_key(),
    ensures
        apart_state(attach(st, name, v, keep_null)),
{
    match st.current {
        Some(Tree::Object(m)) => {
            lemma_insert_apart(m, name, v);
        },
        _ => {},
    }
}

pub proof fn lemma_step_apart(st: ParseModel, ev: EventModel, keep_null: bool)
    requires
        apart_state(st),
        names_apart(seq![ev]),
    ensures
        step(st, ev, keep_null) is Ok ==> apart_state(step(st, ev, keep_null)->Ok_0),
{
    assert(seq![ev][0] == ev);
    let f = flush(st);
    assert(apart_state(f));
    match ev {
        EventModel::Start { name, attributes } => if !past_root(st) {
            let g = note_root_name(f, name);
            lemma_attributes_apart(attributes);
            let s = step(st, ev, keep_null)->Ok_0;
            assert(building(Some(Tree::Object(Seq::<(Seq<char>, Tree)>::empty()))));
            assert forall|i: int| 0 <= i < s.stack.len() implies building(
                #[trigger] s.stack[i].parent,
            ) && attribute_keys(s.stack[i].parent_attrs) && values_apart(
                s.stack[i].parent_attrs,
            ) && s.stack[i].name != text_key() by {
                if i < g.stack.len() {
                    assert(s.stack[i] == g.stack[i]);
                }
            }
        },
        EventModel::Empty { name, attributes } => if !past_root(st) {
            let g = note_root_name(f, name);
            lemma_attributes_apart(attributes);
            let a = attribute_entries(attributes);
            assert(no_text_key(a)) by {
                assert forall|i: int| 0 <= i < a.len() implies #[trigger] a[i].0 != text_key() by {
                    assert(is_attribute_key(a[i].0));
                    assert(a[i].0[0] == '@');
                }
            }
            let v = if keep_null {
                Tree::Null
            } else {
                Tree::Object(a)
            };
            lemma_attach_apart(g, name, v, keep_null);
        },
        EventModel::End { .. } => {
            if f.stack.len() > 0 {
                let fr = f.stack.last();
                assert(building(fr.parent) && attribute_keys(fr.parent_attrs) && values_apart(
                    fr.parent_attrs,
                ) && fr.name != text_key());
                let obj = match f.current {
                    Some(Tree::Object(m)) => m,
                    Some(v) => seq![(text_key(), v)],
                    None => Seq::empty(),
                };
                assert(values_apart(obj));
                match f.current {
                    Some(Tree::Object(m)) => {},
                    Some(v) => {
                        assert(obj.drop_first() =~= Seq::<(Seq<char>, Tree)>::empty());
                    },
                    None => {},
                }
                lemma_merge_apart(obj, f.attrs);
                let merged = merge_entries(obj, f.attrs);
                if merged.len() == 1 {
                    assert(text_apart(merged[0].1));
                }
                let v = element_value(f.current, f.attrs);
                assert(text_apart(v));
                let resumed = ParseModel {
                    stack: f.stack.drop_last(),
                    current: fr.parent,
                    attrs: fr.parent_attrs,
                    ..f
                };
                assert forall|i: int| 0 <= i < resumed.stack.len() implies building(
                    #[trigger] resumed.stack[i].parent,
                ) && attribute_keys(resumed.stack[i].parent_attrs) && values_apart(
                    resumed.stack[i].parent_attrs,
                ) && resumed.stack[i].name != text_key() by {
                    assert(resumed.stack[i] == f.stack[i]);
                }
                lemma_attach_apart(resumed, fr.name, v, keep_null);
            }
        },
        _ => {},
    }
}

pub proof fn lemma_run_apart(st: ParseModel, evs: Seq<EventModel>, keep_null: bool)
    requires
        apart_state(st),
        names_apart(evs),
    ensures
        run_from(st, evs, keep_null) is Ok ==> apart_state(run_from(st, evs, keep_null)->Ok_0),
    decreases evs.len(),
{
    if evs.len() > 0 {
        let d = evs.drop_last();
        assert(names_apart(d)) by {
            assert forall|i: int| 0 <= i < d.len() implies match #[trigger] d[i] {
                EventModel::Start { name, .. } => name != text_key(),
                EventModel::Empty { name, .. } => name != text_key(),
                _ => true,
            } by {
                assert(d[i] == evs[i]);
            }
        }
        lemma_run_apart(st, d, keep_null);
        assert(names_apart(seq![evs.last()])) by {
            assert(seq![evs.last()][0] == evs[evs.len() - 1]);
        }
        match run_from(st, d, keep_null) {
            Ok(s) => lemma_step_apart(s, evs.last(), keep_null),
            Err(_) => {},
        }
    }
}

/// The text of an element stays apart from its children: in a tree that
/// parsing yields, a map that holds `#text` holds it first and only
/// attributes after it, whenever no element of the document is named
/// `#text`.
pub proof fn lemma_parse_keeps_text_apart(evs: Seq<EventModel>, keep_null: bool)
    requires
        names_apart(evs),
    ensures
        parse_model(evs, keep_null) is Ok ==> text_apart(parse_model(evs, keep_null)->Ok_0),
{
    assert(initial_model().stack =~= Seq::<crate::parse::FrameModel>::empty());
    lemma_run_apart(initial_model(), evs, keep_null);
    match run_from(initial_model(), evs, keep_null) {
        Ok(s) => {
            match s.root {
                Some(r) => {
                    let name = match s.root_name {
                        Some(n) => n,
                        None => Seq::empty(),
                    };
                    let es = seq![(name, r)];
                    assert(name != text_key()) by {
                        if s.root_name is None {
                            assert(name.len() == 0);
                        }
                    }
                    assert(no_text_key(es));
                    assert(text_apart(Tree::Object(es)));
                },
                None => {},
            }
        },
        Err(_) => {},
    }
}

} // verus!