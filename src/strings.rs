use crate::events::EventModel;
use crate::parse::{
    attach, attribute_entries, element_value, flush, initial_model, merge_entries, note_root_name,
    parse_model, past_root, run_from, step, text_key, ParseModel,
};
use crate::value::{
    entries_insert, entries_promote, key_index, keys_unique, lemma_insert_unique,
    lemma_key_index_bounds, Tree,
};
use vstd::prelude::*;

verus! {

/// A tree whose leaves are nulls and strings only (no boolean, no number) and
/// whose maps hold each key once.
pub open spec fn plain_tree(t: Tree) -> bool
    decreases t,
{
    match t {
        Tree::Bool(_) => false,
        Tree::Number(_) => false,
        Tree::Array(items) => forall|i: int| 0 <= i < items.len() ==> plain_tree(#[trigger] items[i]),
        Tree::Object(es) => keys_unique(es) && forall|i: int|
            0 <= i < es.len() ==> plain_tree(#[trigger] es[i].1),
        _ => true,
    }
}

pub open spec fn plain_entries(es: Seq<(Seq<char>, Tree)>) -> bool {
    keys_unique(es) && forall|i: int| 0 <= i < es.len() ==> plain_tree(#[trigger] es[i].1)
}

pub open spec fn plain_option(o: Option<Tree>) -> bool {
    match o {
        Some(t) => plain_tree(t),
        None => true,
    }
}

/// Every value the engine holds, in its state and on its stack, is textual.
pub open spec fn plain_state(st: ParseModel) -> bool {
    &&& plain_option(st.current)
    &&& plain_entries(st.attrs)
    &&& plain_option(st.root)
    &&& forall|i: int|
        0 <= i < st.stack.len() ==> plain_option(#[trigger] st.stack[i].parent)
            && plain_entries(st.stack[i].parent_attrs)
}

pub proof fn lemma_insert_plain_tree(e: Seq<(Seq<char>, Tree)>, k: Seq<char>, v: Tree)
    requires
        plain_entries(e),
        plain_tree(v),
    ensures
        plain_entries(entries_insert(e, k, v)),
        plain_entries(entries_promote(e, k, v)),
{
    lemma_key_index_bounds(e, k);
    lemma_insert_unique(e, k, v);
    let i = key_index(e, k);
    if i >= 0 {
        assert(plain_tree(e[i].1));
        match e[i].1 {
            Tree::Array(a) => {
                assert(plain_tree(Tree::Array(a.push(v))));
            },
            old => {
                assert(plain_tree(Tree::Array(seq![old, v])));
            },
        }
    }
    assert(plain_entries(entries_insert(e, k, v)));
    assert(plain_entries(entries_promote(e, k, v)));
}

pub proof fn lemma_merge_plain_tree(obj: Seq<(Seq<char>, Tree)>, a: Seq<(Seq<char>, Tree)>)
    requires
        plain_entries(obj),
        plain_entries(a),
    ensures
        plain_entries(merge_entries(obj, a)),
    decreases a.len(),
{
    if a.len() > 0 {
        assert(plain_entries(a.drop_last()));
        lemma_merge_plain_tree(obj, a.drop_last());
        assert(plain_tree(a.last().1));
        lemma_insert_plain_tree(merge_entries(obj, a.drop_last()), a.last().0, a.last().1);
    }
}

pub proof fn lemma_attributes_plain_tree(a: Seq<(Seq<char>, Seq<char>)>)
    ensures
        plain_entries(attribute_entries(a)),
    decreases a.len(),
{
    if a.len() > 0 {
        lemma_attributes_plain_tree(a.drop_last());
        lemma_insert_plain_tree(
            attribute_entries(a.drop_last()),
            seq!['@'] + a.last().0,
            Tree::Str(a.last().1),
        );
    }
}

pub proof fn lemma_attach_plain_tree(st: ParseModel, name: Seq<char>, v: Tree, keep_null: bool)
    requires
        plain_state(st),
        plain_tree(v),
    ensures
        plain_state(attach(st, name, v, keep_null)),
{
    match st.current {
        Some(Tree::Object(m)) => {
            lemma_insert_plain_tree(m, name, v);
        },
        _ => {},
    }
}

pub proof fn lemma_step_plain_tree(st: ParseModel, ev: EventModel, keep_null: bool)
    requires
        plain_state(st),
    ensures
        step(st, ev, keep_null) is Ok ==> plain_state(step(st, ev, keep_null)->Ok_0),
{
    let f = flush(st);
    assert(plain_state(f));
    match ev {
        EventModel::Start { name, attributes } => if !past_root(st) {
            let g = note_root_name(f, name);
            lemma_attributes_plain_tree(attributes);
            let s = step(st, ev, keep_null)->Ok_0;
            assert(plain_tree(Tree::Object(Seq::<(Seq<char>, Tree)>::empty())));
            assert forall|i: int| 0 <= i < s.stack.len() implies plain_option(
                #[trigger] s.stack[i].parent,
            ) && plain_entries(s.stack[i].parent_attrs) by {
                if i < g.stack.len() {
                    assert(s.stack[i] == g.stack[i]);
                }
            }
        }
        EventModel::Empty { name, attributes } => {
            let g = note_root_name(f, name);
            lemma_attributes_plain_tree(attributes);
            let v = if keep_null {
                Tree::Null
            } else {
                Tree::Object(attribute_entries(attributes))
            };
            lemma_attach_plain_tree(g, name, v, keep_null);
        },
        EventModel::End { .. } => {
            if f.stack.len() > 0 {
                let fr = f.stack.last();
                assert(plain_option(fr.parent) && plain_entries(fr.parent_attrs));
                let obj = match f.current {
                    Some(Tree::Object(m)) => m,
                    Some(v) => seq![(text_key(), v)],
                    None => Seq::empty(),
                };
                assert(plain_entries(obj));
                lemma_merge_plain_tree(obj, f.attrs);
                let merged = merge_entries(obj, f.attrs);
                if merged.len() == 1 {
                    assert(plain_tree(merged[0].1));
                }
                let v = element_value(f.current, f.attrs);
                assert(plain_tree(v));
                let resumed = ParseModel {
                    stack: f.stack.drop_last(),
                    current: fr.parent,
                    attrs: fr.parent_attrs,
                    ..f
                };
                assert forall|i: int| 0 <= i < resumed.stack.len() implies plain_option(
                    #[trigger] resumed.stack[i].parent,
                ) && plain_entries(resumed.stack[i].parent_attrs) by {
                    assert(resumed.stack[i] == f.stack[i]);
                }
                lemma_attach_plain_tree(resumed, fr.name, v, keep_null);
            }
        },
        _ => {},
    }
}

pub proof fn lemma_run_plain_tree(st: ParseModel, evs: Seq<EventModel>, keep_null: bool)
    requires
        plain_state(st),
    ensures
        run_from(st, evs, keep_null) is Ok ==> plain_state(run_from(st, evs, keep_null)->Ok_0),
    decreases evs.len(),
{
    if evs.len() > 0 {
        lemma_run_plain_tree(st, evs.drop_last(), keep_null);
        match run_from(st, evs.drop_last(), keep_null) {
            Ok(s) => lemma_step_plain_tree(s, evs.last(), keep_null),
            Err(_) => {},
        }
    }
}

/// Text content is always a string: a tree that parsing yields holds no
/// boolean and no number, whatever the text looks like. Its maps hold each
/// key once: repeated sibling elements are coalesced into a list.
pub proof fn lemma_parse_yields_plain_trees(evs: Seq<EventModel>, keep_null: bool)
    ensures
        parse_model(evs, keep_null) is Ok ==> plain_tree(parse_model(evs, keep_null)->Ok_0),
{
    lemma_run_plain_tree(initial_model(), evs, keep_null);
    match run_from(initial_model(), evs, keep_null) {
        Ok(s) => {
            match s.root {
                Some(r) => {
                    let name = match s.root_name {
                        Some(n) => n,
                        None => Seq::empty(),
                    };
                    assert(plain_tree(Tree::Object(seq![(name, r)])));
                },
                None => {},
            }
        },
        Err(_) => {},
    }
}

} // verus!
