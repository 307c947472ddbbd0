use crate::events::EventModel;
use crate::parse::{
    attach, attribute_entries, element_value, flush, initial_model, merge_entries, note_root_name,
    parse_model, past_root, run_from, step, text_key, FrameModel, ParseFailure, ParseModel,
};
use crate::serialize::{
    attributes_text, children_text, close_tag, direct_text, document_text, element_text,
    elements_text, empty_tag, has_children, is_attribute_key, is_child_key, lemma_no_children,
    open_tag, root_content, xml_declaration,
};
use crate::text::{attribute_escaped, escaped};
use crate::text::trim_of;
use crate::value::{
    entries_insert, entries_promote, key_index, lemma_key_index_bounds, lemma_key_index_found, Tree,
};
use vstd::prelude::*;

verus! {

/// Text that parsing can yield: not empty, and unchanged by trimming.
pub open spec fn text_ok(t: Seq<char>) -> bool {
    t.len() > 0 && trim_of(t) == t
}

/// Attribute entries as parsing yields them: `@` keys, string values, no key
/// twice.
pub open spec fn attrs_ok(a: Seq<(Seq<char>, Tree)>) -> bool {
    &&& forall|i: int| 0 <= i < a.len() ==> is_attribute_key(#[trigger] a[i].0) && a[i].1 is Str
    &&& forall|i: int, j: int| 0 <= i < j < a.len() ==> #[trigger] a[i].0 != #[trigger] a[j].0
}

/// The number of leading entries that are not attributes.
pub open spec fn child_count(es: Seq<(Seq<char>, Tree)>) -> nat
    decreases es.len(),
{
    if es.len() == 0 || is_attribute_key(es[0].0) {
        0
    } else {
        1 + child_count(es.drop_first())
    }
}

/// The value of an element as parsing with nulls kept yields it, and as
/// writing it and parsing it again keeps it: null, trimmed text, text with
/// attributes, or child elements followed by attributes. A map with neither
/// text nor children is left out: it is written `<name/>` (with its
/// attributes), which reads back as null.
pub open spec fn element_ok(v: Tree) -> bool
    decreases v, 1int,
{
    match v {
        Tree::Null => true,
        Tree::Str(t) => text_ok(t),
        Tree::Object(es) => if es.len() > 0 && es[0].0 == text_key() {
            &&& es.len() > 1
            &&& attrs_ok(es.drop_first())
            &&& match es[0].1 {
                Tree::Str(t) => text_ok(t),
                _ => false,
            }
        } else {
            &&& 0 < child_count(es) <= es.len()
            &&& children_ok(es, child_count(es) as int)
            &&& attrs_ok(es.skip(child_count(es) as int))
        },
        _ => false,
    }
}

/// The first `c` entries are child entries: element names, each once, each
/// holding an element value or a list of two or more of them.
pub open spec fn children_ok(es: Seq<(Seq<char>, Tree)>, c: int) -> bool
    decreases es, c,
{
    if c <= 0 || c > es.len() {
        c == 0
    } else {
        &&& children_ok(es, c - 1)
        &&& is_child_key(es[c - 1].0)
        &&& key_index(es.take(c - 1), es[c - 1].0) < 0
        &&& match es[c - 1].1 {
            Tree::Array(items) => items.len() >= 2 && items_ok(items),
            v => element_ok(v),
        }
    }
}

pub open spec fn items_ok(items: Seq<Tree>) -> bool
    decreases items, 0int,
{
    if items.len() == 0 {
        true
    } else {
        &&& items_ok(items.drop_last())
        &&& !(items.last() is Array)
        &&& element_ok(items.last())
    }
}

pub open spec fn string_of(v: Tree) -> Seq<char> {
    match v {
        Tree::Str(t) => t,
        _ => Seq::empty(),
    }
}

/// The attributes of a tag for attribute entries: names without the `@`.
pub open spec fn attribute_events(a: Seq<(Seq<char>, Tree)>) -> Seq<(Seq<char>, Seq<char>)> {
    a.map_values(|p: (Seq<char>, Tree)| (p.0.drop_first(), string_of(p.1)))
}

/// The events of the element `name` holding `v`, as the document written for
/// it consists of.
pub open spec fn element_events(v: Tree, name: Seq<char>) -> Seq<EventModel>
    decreases v, 1int,
{
    match v {
        Tree::Null => seq![EventModel::Empty { name, attributes: Seq::empty() }],
        Tree::Str(t) => seq![
            EventModel::Start { name, attributes: Seq::empty() },
            EventModel::Text { content: t },
            EventModel::End { name },
        ],
        Tree::Array(items) => items_events(items, name),
        Tree::Object(es) => if es.len() > 0 && es[0].0 == text_key() {
            seq![
                EventModel::Start { name, attributes: attribute_events(es.drop_first()) },
                EventModel::Text { content: string_of(es[0].1) },
                EventModel::End { name },
            ]
        } else {
            seq![
                EventModel::Start {
                    name,
                    attributes: attribute_events(es.skip(child_count(es) as int)),
                },
            ] + children_events(es, child_count(es) as int) + seq![EventModel::End { name }]
        },
        _ => Seq::empty(),
    }
}

/// The events of the first `c` entries, each an element (or a run of
/// elements) named by its key.
pub open spec fn children_events(es: Seq<(Seq<char>, Tree)>, c: int) -> Seq<EventModel>
    decreases es, c,
{
    if c <= 0 || c > es.len() {
        Seq::empty()
    } else {
        children_events(es, c - 1) + element_events(es[c - 1].1, es[c - 1].0)
    }
}

pub open spec fn items_events(items: Seq<Tree>, name: Seq<char>) -> Seq<EventModel>
    decreases items, 0int,
{
    if items.len() == 0 {
        Seq::empty()
    } else {
        items_events(items.drop_last(), name) + element_events(items.last(), name)
    }
}

pub proof fn lemma_child_count_bound(es: Seq<(Seq<char>, Tree)>)
    ensures
        child_count(es) <= es.len(),
        forall|i: int| 0 <= i < child_count(es) ==> !is_attribute_key(#[trigger] es[i].0),
        child_count(es) < es.len() ==> is_attribute_key(es[child_count(es) as int].0),
    decreases es.len(),
{
    if es.len() > 0 && !is_attribute_key(es[0].0) {
        lemma_child_count_bound(es.drop_first());
        assert forall|i: int| 0 <= i < child_count(es) implies !is_attribute_key(
            #[trigger] es[i].0,
        ) by {
            if i > 0 {
                assert(es[i] == es.drop_first()[i - 1]);
            }
        }
        if child_count(es) < es.len() {
            assert(es[child_count(es) as int] == es.drop_first()[child_count(es) - 1]);
        }
    }
}

pub proof fn lemma_run_concat(st: ParseModel, a: Seq<EventModel>, b: Seq<EventModel>)
    ensures
        run_from(st, a + b, true) == match run_from(st, a, true) {
            Ok(s) => run_from(s, b, true),
            Err(e) => Err(e),
        },
    decreases b.len(),
{
    if b.len() == 0 {
        assert(a + b =~= a);
    } else {
        assert((a + b).drop_last() =~= a + b.drop_last());
        assert((a + b).last() == b.last());
        lemma_run_concat(st, a, b.drop_last());
    }
}

pub proof fn lemma_run_one(st: ParseModel, e: EventModel)
    ensures
        run_from(st, seq![e], true) == step(st, e, true),
{
    assert(seq![e].drop_last() =~= Seq::<EventModel>::empty());
    assert(run_from(st, Seq::<EventModel>::empty(), true) == Ok::<ParseModel, ParseFailure>(st));
}

/// A key that no entry has is inserted at the end.
pub proof fn lemma_insert_new(e: Seq<(Seq<char>, Tree)>, k: Seq<char>, v: Tree)
    requires
        forall|i: int| 0 <= i < e.len() ==> e[i].0 != k,
    ensures
        entries_insert(e, k, v) == e.push((k, v)),
        entries_promote(e, k, v) == e.push((k, v)),
{
    lemma_key_index_bounds(e, k);
}

pub proof fn lemma_attribute_entries(a: Seq<(Seq<char>, Tree)>)
    requires
        attrs_ok(a),
    ensures
        attribute_entries(attribute_events(a)) == a,
    decreases a.len(),
{
    if a.len() > 0 {
        let d = a.drop_last();
        assert(attrs_ok(d)) by {
            assert forall|i: int| 0 <= i < d.len() implies is_attribute_key(#[trigger] d[i].0)
                && d[i].1 is Str by {
                assert(d[i] == a[i]);
            }
            assert forall|i: int, j: int| 0 <= i < j < d.len() implies #[trigger] d[i].0
                != #[trigger] d[j].0 by {
                assert(d[i] == a[i] && d[j] == a[j]);
            }
        }
        lemma_attribute_entries(d);
        assert(attribute_events(a).drop_last() =~= attribute_events(d));
        let (k, v) = a.last();
        assert(is_attribute_key(a[a.len() - 1].0));
        assert(seq!['@'] + k.drop_first() =~= k);
        assert(Tree::Str(string_of(v)) == v);
        assert forall|i: int| 0 <= i < d.len() implies d[i].0 != k by {
            assert(d[i] == a[i]);
        }
        lemma_insert_new(d, k, v);
        assert(d.push((k, v)) =~= a);
    }
}

/// Inserting entries with fresh, distinct keys appends them.
pub proof fn lemma_merge_fresh(obj: Seq<(Seq<char>, Tree)>, a: Seq<(Seq<char>, Tree)>)
    requires
        forall|i: int, j: int| 0 <= i < j < a.len() ==> #[trigger] a[i].0 != #[trigger] a[j].0,
        forall|i: int, j: int| 0 <= i < obj.len() && 0 <= j < a.len() ==> #[trigger] obj[i].0
            != #[trigger] a[j].0,
    ensures
        merge_entries(obj, a) == obj + a,
    decreases a.len(),
{
    if a.len() > 0 {
        let d = a.drop_last();
        assert forall|i: int, j: int| 0 <= i < j < d.len() implies #[trigger] d[i].0
            != #[trigger] d[j].0 by {
            assert(d[i] == a[i] && d[j] == a[j]);
        }
        assert forall|i: int, j: int| 0 <= i < obj.len() && 0 <= j < d.len() implies #[trigger] obj[i].0
            != #[trigger] d[j].0 by {
            assert(d[j] == a[j]);
        }
        lemma_merge_fresh(obj, d);
        let (k, v) = a.last();
        assert forall|i: int| 0 <= i < (obj + d).len() implies (obj + d)[i].0 != k by {
            if i < obj.len() {
                assert((obj + d)[i] == obj[i]);
            } else {
                assert((obj + d)[i] == a[i - obj.len()]);
            }
        }
        lemma_insert_new(obj + d, k, v);
        assert((obj + d).push((k, v)) =~= obj + a);
    }
}

/// A state inside an open element, with no pending text.
pub open spec fn inside(st: ParseModel) -> bool {
    st.text.len() == 0 && st.stack.len() > 0 && st.root_name is Some
}

pub open spec fn with_current(st: ParseModel, m: Seq<(Seq<char>, Tree)>) -> ParseModel {
    ParseModel { current: Some(Tree::Object(m)), ..st }
}

pub proof fn lemma_run_three(st: ParseModel, a: EventModel, b: EventModel, c: EventModel)
    ensures
        run_from(st, seq![a, b, c], true) == match step(st, a, true) {
            Ok(s1) => match step(s1, b, true) {
                Ok(s2) => step(s2, c, true),
                Err(e) => Err(e),
            },
            Err(e) => Err(e),
        },
{
    lemma_run_concat(st, seq![a], seq![b, c]);
    assert(seq![a] + seq![b, c] =~= seq![a, b, c]);
    lemma_run_one(st, a);
    match step(st, a, true) {
        Ok(s1) => {
            lemma_run_concat(s1, seq![b], seq![c]);
            assert(seq![b] + seq![c] =~= seq![b, c]);
            lemma_run_one(s1, b);
            match step(s1, b, true) {
                Ok(s2) => {
                    lemma_run_one(s2, c);
                },
                Err(e) => {},
            }
        },
        Err(e) => {},
    }
}

/// The state after the opening tag of `name` with attribute entries `a`.
pub open spec fn opened(st: ParseModel, name: Seq<char>, a: Seq<(Seq<char>, Tree)>) -> ParseModel {
    let f = note_root_name(st, name);
    ParseModel {
        stack: f.stack.push(FrameModel { name, parent: f.current, parent_attrs: f.attrs }),
        current: Some(Tree::Object(Seq::empty())),
        attrs: a,
        ..f
    }
}

pub proof fn lemma_open(st: ParseModel, name: Seq<char>, a: Seq<(Seq<char>, Tree)>)
    requires
        st.text.len() == 0,
        !past_root(st),
        attrs_ok(a),
    ensures
        step(st, EventModel::Start { name, attributes: attribute_events(a) }, true) == Ok::<
            ParseModel,
            ParseFailure,
        >(opened(st, name, a)),
        inside(opened(st, name, a)),
{
    lemma_attribute_entries(a);
}

/// Closing an element whose value `v` was built leaves the state as it was
/// before the opening tag, with `v` attached.
pub proof fn lemma_close(st: ParseModel, name: Seq<char>, s: ParseModel, v: Tree)
    requires
        st.text.len() == 0,
        flush(s).stack == opened(st, name, s.attrs).stack,
        flush(s).root == st.root,
        flush(s).root_name == note_root_name(st, name).root_name,
        flush(s).text.len() == 0,
        element_value(flush(s).current, flush(s).attrs) == v,
    ensures
        step(s, EventModel::End { name }, true) == Ok::<ParseModel, ParseFailure>(
            attach(note_root_name(st, name), name, v, true),
        ),
{
    let f = flush(s);
    let n = note_root_name(st, name);
    assert(f.stack.drop_last() =~= n.stack);
    let fr = f.stack.last();
    let resumed = ParseModel {
        stack: f.stack.drop_last(),
        current: fr.parent,
        attrs: fr.parent_attrs,
        ..f
    };
    assert(resumed.text =~= n.text);
    assert(resumed == n);
}

/// The events of an element value, fed with no text pending, attach that
/// value under the element's name.
#[verifier::rlimit(30)]
pub proof fn lemma_element_events(st: ParseModel, v: Tree, name: Seq<char>)
    requires
        element_ok(v),
        st.text.len() == 0,
        !past_root(st),
    ensures
        run_from(st, element_events(v, name), true) == Ok::<ParseModel, ParseFailure>(
            attach(note_root_name(st, name), name, v, true),
        ),
    decreases v, 1int,
{
    let n = note_root_name(st, name);
    match v {
        Tree::Null => {
            lemma_run_one(st, EventModel::Empty { name, attributes: Seq::empty() });
        },
        Tree::Str(t) => {
            let empty = Seq::<(Seq<char>, Tree)>::empty();
            assert(attrs_ok(empty));
            assert(attribute_events(empty) =~= Seq::empty());
            lemma_open(st, name, empty);
            let s1 = opened(st, name, empty);
            let s2 = ParseModel { text: s1.text + t, ..s1 };
            assert(s2.text =~= t);
            assert(merge_entries(seq![(text_key(), Tree::Str(t))], empty) == seq![
                (text_key(), Tree::Str(t)),
            ]);
            lemma_close(st, name, s2, v);
            lemma_run_three(
                st,
                EventModel::Start { name, attributes: Seq::empty() },
                EventModel::Text { content: t },
                EventModel::End { name },
            );
        },
        Tree::Object(es) => {
            if es.len() > 0 && es[0].0 == text_key() {
                let a = es.drop_first();
                let t = string_of(es[0].1);
                lemma_open(st, name, a);
                let s1 = opened(st, name, a);
                let s2 = ParseModel { text: s1.text + t, ..s1 };
                assert(s2.text =~= t);
                let head = seq![(text_key(), Tree::Str(t))];
                assert forall|i: int, j: int| 0 <= i < head.len() && 0 <= j < a.len() implies #[trigger] head[i].0
                    != #[trigger] a[j].0 by {
                    assert(is_attribute_key(a[j].0));
                }
                lemma_merge_fresh(head, a);
                assert(head + a =~= es);
                lemma_close(st, name, s2, v);
                lemma_run_three(
                    st,
                    EventModel::Start { name, attributes: attribute_events(a) },
                    EventModel::Text { content: t },
                    EventModel::End { name },
                );
            } else {
                let c = child_count(es) as int;
                let a = es.skip(c);
                lemma_child_count_bound(es);
                lemma_open(st, name, a);
                let s1 = opened(st, name, a);
                assert(s1.current == Some(Tree::Object(Seq::<(Seq<char>, Tree)>::empty())));
                lemma_children_events(s1, es, c);
                let s2 = with_current(s1, es.take(c));
                let kids = es.take(c);
                assert forall|i: int, j: int| 0 <= i < kids.len() && 0 <= j < a.len() implies #[trigger] kids[i].0
                    != #[trigger] a[j].0 by {
                    assert(kids[i] == es[i]);
                    assert(!is_attribute_key(es[i].0));
                    assert(is_attribute_key(a[j].0));
                }
                lemma_merge_fresh(kids, a);
                assert(kids + a =~= es);
                lemma_close(st, name, s2, v);
                let start = seq![EventModel::Start { name, attributes: attribute_events(a) }];
                let middle = children_events(es, c);
                let end = seq![EventModel::End { name }];
                lemma_run_concat(st, start + middle, end);
                lemma_run_concat(st, start, middle);
                lemma_run_one(st, start[0]);
                lemma_run_one(s2, end[0]);
            }
        },
        _ => {},
    }
}

/// The events of the first `c` child entries, fed inside an element that has
/// built nothing yet, build those entries.
pub proof fn lemma_children_events(st: ParseModel, es: Seq<(Seq<char>, Tree)>, c: int)
    requires
        inside(st),
        st.current == Some(Tree::Object(Seq::<(Seq<char>, Tree)>::empty())),
        children_ok(es, c),
    ensures
        run_from(st, children_events(es, c), true) == Ok::<ParseModel, ParseFailure>(
            with_current(st, es.take(c)),
        ),
    decreases es, c,
{
    if c == 0 {
        assert(es.take(0) =~= Seq::<(Seq<char>, Tree)>::empty());
        assert(with_current(st, es.take(0)) == st);
    } else {
        lemma_children_events(st, es, c - 1);
        let prev = es.take(c - 1);
        let s1 = with_current(st, prev);
        let (k, val) = es[c - 1];
        lemma_key_index_bounds(prev, k);
        assert(es.take(c) =~= prev.push((k, val)));
        match val {
            Tree::Array(items) => {
                lemma_items_events(s1, items, k, prev);
            },
            _ => {
                lemma_element_events(s1, val, k);
                lemma_insert_new(prev, k, val);
                assert(note_root_name(s1, k) == s1);
            },
        }
        lemma_run_concat(st, children_events(es, c - 1), element_events(val, k));
    }
}

/// A run of sibling elements `name` attaches a single value, or the list of
/// all of them.
pub proof fn lemma_items_events(st: ParseModel, items: Seq<Tree>, name: Seq<char>, m: Seq<(Seq<char>, Tree)>)
    requires
        inside(st),
        st.current == Some(Tree::Object(m)),
        forall|i: int| 0 <= i < m.len() ==> m[i].0 != name,
        items.len() >= 1,
        items_ok(items),
    ensures
        run_from(st, items_events(items, name), true) == Ok::<ParseModel, ParseFailure>(
            with_current(
                st,
                m.push(
                    (
                        name,
                        if items.len() == 1 {
                            items[0]
                        } else {
                            Tree::Array(items)
                        },
                    ),
                ),
            ),
        ),
    decreases items, 0int,
{
    let last = items.last();
    let d = items.drop_last();
    if items.len() == 1 {
        assert(d =~= Seq::<Tree>::empty());
        assert(items_events(items, name) =~= element_events(last, name));
        lemma_element_events(st, last, name);
        lemma_insert_new(m, name, last);
        assert(note_root_name(st, name) == st);
    } else {
        lemma_items_events(st, d, name, m);
        let x = if d.len() == 1 {
            d[0]
        } else {
            Tree::Array(d)
        };
        let s1 = with_current(st, m.push((name, x)));
        lemma_element_events(s1, last, name);
        assert(note_root_name(s1, name) == s1);
        let e = m.push((name, x));
        assert forall|i: int| 0 <= i < m.len() implies e[i].0 != name by {
            assert(e[i] == m[i]);
        }
        lemma_key_index_found(e, name, m.len() as int);
        if d.len() == 1 {
            assert(items_ok(d));
            assert(!(d.last() is Array));
            assert(seq![d[0], last] =~= items);
        } else {
            assert(d.push(last) =~= items);
        }
        assert(entries_promote(e, name, last) =~= m.push((name, Tree::Array(items))));
        lemma_run_concat(st, items_events(d, name), element_events(last, name));
    }
}

/// The markup of a tag's attributes, each ` name="value"` with the value
/// escaped.
pub open spec fn attributes_markup(a: Seq<(Seq<char>, Seq<char>)>) -> Seq<char>
    decreases a.len(),
{
    if a.len() == 0 {
        Seq::empty()
    } else {
        attributes_markup(a.drop_last()) + seq![' '] + a.last().0 + seq!['=', '"'] + attribute_escaped(
            a.last().1,
        ) + seq!['"']
    }
}

/// The markup of one event.
pub open spec fn event_markup(e: EventModel) -> Seq<char> {
    match e {
        EventModel::Start { name, attributes } => open_tag(name, attributes_markup(attributes)),
        EventModel::Empty { name, attributes } => empty_tag(name, attributes_markup(attributes)),
        EventModel::End { name } => close_tag(name),
        EventModel::Text { content } => escaped(content),
        EventModel::Reference { name } => seq!['&'] + name + seq![';'],
        _ => Seq::empty(),
    }
}

/// The markup of an event sequence.
pub open spec fn markup(evs: Seq<EventModel>) -> Seq<char>
    decreases evs.len(),
{
    if evs.len() == 0 {
        Seq::empty()
    } else {
        markup(evs.drop_last()) + event_markup(evs.last())
    }
}

pub proof fn lemma_markup_concat(a: Seq<EventModel>, b: Seq<EventModel>)
    ensures
        markup(a + b) == markup(a) + markup(b),
    decreases b.len(),
{
    if b.len() == 0 {
        assert(a + b =~= a);
        assert(markup(a) + markup(b) =~= markup(a));
    } else {
        assert((a + b).drop_last() =~= a + b.drop_last());
        lemma_markup_concat(a, b.drop_last());
        assert(markup(a) + markup(b.drop_last()) + event_markup(b.last()) =~= markup(a) + (markup(
            b.drop_last(),
        ) + event_markup(b.last())));
    }
}

pub proof fn lemma_markup_one(e: EventModel)
    ensures
        markup(seq![e]) == event_markup(e),
{
    assert(seq![e].drop_last() =~= Seq::<EventModel>::empty());
    assert(markup(Seq::<EventModel>::empty()) == Seq::<char>::empty());
    assert(Seq::<char>::empty() + event_markup(e) =~= event_markup(e));
}

pub proof fn lemma_markup_three(a: EventModel, b: EventModel, c: EventModel)
    ensures
        markup(seq![a, b, c]) == event_markup(a) + event_markup(b) + event_markup(c),
{
    lemma_markup_concat(seq![a, b], seq![c]);
    lemma_markup_concat(seq![a], seq![b]);
    lemma_markup_one(a);
    lemma_markup_one(b);
    lemma_markup_one(c);
    assert(seq![a] + seq![b] =~= seq![a, b]);
    assert(seq![a, b] + seq![c] =~= seq![a, b, c]);
}

/// Attribute entries are written as the markup of their tag attributes.
pub proof fn lemma_attributes_markup(a: Seq<(Seq<char>, Tree)>)
    requires
        attrs_ok(a),
    ensures
        attributes_text(a) == Some(attributes_markup(attribute_events(a))),
    decreases a.len(),
{
    if a.len() > 0 {
        let d = a.drop_last();
        assert(attrs_ok(d)) by {
            assert forall|i: int| 0 <= i < d.len() implies is_attribute_key(#[trigger] d[i].0)
                && d[i].1 is Str by {
                assert(d[i] == a[i]);
            }
            assert forall|i: int, j: int| 0 <= i < j < d.len() implies #[trigger] d[i].0
                != #[trigger] d[j].0 by {
                assert(d[i] == a[i] && d[j] == a[j]);
            }
        }
        lemma_attributes_markup(d);
        assert(attribute_events(a).drop_last() =~= attribute_events(d));
        assert(is_attribute_key(a[a.len() - 1].0) && a[a.len() - 1].1 is Str);
    }
}

/// Entries that are not attributes add nothing to the attribute markup, and
/// entries that are not `#text` leave the direct text as it is.
pub proof fn lemma_prefix_no_attributes(p: Seq<(Seq<char>, Tree)>, a: Seq<(Seq<char>, Tree)>)
    requires
        forall|i: int| 0 <= i < p.len() ==> !is_attribute_key(#[trigger] p[i].0),
    ensures
        attributes_text(p + a) == attributes_text(a),
    decreases a.len(),
{
    if a.len() == 0 {
        lemma_no_attributes(p);
        assert(p + a =~= p);
    } else {
        assert((p + a).drop_last() =~= p + a.drop_last());
        lemma_prefix_no_attributes(p, a.drop_last());
    }
}

pub proof fn lemma_no_attributes(p: Seq<(Seq<char>, Tree)>)
    requires
        forall|i: int| 0 <= i < p.len() ==> !is_attribute_key(#[trigger] p[i].0),
    ensures
        attributes_text(p) == Some(Seq::<char>::empty()),
    decreases p.len(),
{
    if p.len() > 0 {
        let d = p.drop_last();
        assert forall|i: int| 0 <= i < d.len() implies !is_attribute_key(#[trigger] d[i].0) by {
            assert(d[i] == p[i]);
        }
        lemma_no_attributes(d);
        assert(!is_attribute_key(p[p.len() - 1].0));
    }
}

pub proof fn lemma_suffix_keeps_direct_text(p: Seq<(Seq<char>, Tree)>, a: Seq<(Seq<char>, Tree)>)
    requires
        forall|i: int| 0 <= i < a.len() ==> #[trigger] a[i].0 != text_key(),
    ensures
        direct_text(p + a) == direct_text(p),
    decreases a.len(),
{
    if a.len() == 0 {
        assert(p + a =~= p);
    } else {
        let d = a.drop_last();
        assert forall|i: int| 0 <= i < d.len() implies #[trigger] d[i].0 != text_key() by {
            assert(d[i] == a[i]);
        }
        assert((p + a).drop_last() =~= p + d);
        lemma_suffix_keeps_direct_text(p, d);
        assert(a[a.len() - 1].0 != text_key());
    }
}

pub proof fn lemma_suffix_keeps_children(p: Seq<(Seq<char>, Tree)>, a: Seq<(Seq<char>, Tree)>)
    requires
        forall|i: int| 0 <= i < a.len() ==> !is_child_key(#[trigger] a[i].0),
    ensures
        children_text(p + a) == children_text(p),
    decreases a.len(),
{
    if a.len() == 0 {
        assert(p + a =~= p);
    } else {
        let d = a.drop_last();
        assert forall|i: int| 0 <= i < d.len() implies !is_child_key(#[trigger] d[i].0) by {
            assert(d[i] == a[i]);
        }
        assert((p + a).drop_last() =~= p + d);
        lemma_suffix_keeps_children(p, d);
        assert(!is_child_key(a[a.len() - 1].0));
    }
}

pub proof fn lemma_children_keys(es: Seq<(Seq<char>, Tree)>, c: int)
    requires
        children_ok(es, c),
    ensures
        0 <= c <= es.len(),
        forall|i: int| 0 <= i < c ==> is_child_key(#[trigger] es[i].0),
    decreases c,
{
    if c > 0 {
        lemma_children_keys(es, c - 1);
    }
}

/// The serializer writes an element value as the markup of its events.
pub proof fn lemma_element_markup(v: Tree, name: Seq<char>)
    requires
        element_ok(v),
    ensures
        element_text(v, name) == Some(markup(element_events(v, name))),
    decreases v, 1int,
{
    match v {
        Tree::Null => {
            lemma_markup_one(EventModel::Empty { name, attributes: Seq::empty() });
            assert(attributes_markup(Seq::empty()) == Seq::<char>::empty());
        },
        Tree::Str(t) => {
            lemma_markup_three(
                EventModel::Start { name, attributes: Seq::empty() },
                EventModel::Text { content: t },
                EventModel::End { name },
            );
            assert(attributes_markup(Seq::empty()) == Seq::<char>::empty());
        },
        Tree::Object(es) => {
            if es.len() > 0 && es[0].0 == text_key() {
                let a = es.drop_first();
                let t = string_of(es[0].1);
                let head = seq![es[0]];
                assert(head + a =~= es);
                assert forall|i: int| 0 <= i < head.len() implies !is_attribute_key(
                    #[trigger] head[i].0,
                ) by {
                    assert(head[i].0 == text_key());
                }
                lemma_prefix_no_attributes(head, a);
                lemma_attributes_markup(a);
                assert forall|i: int| 0 <= i < a.len() implies #[trigger] a[i].0 != text_key() by {
                    assert(is_attribute_key(a[i].0));
                }
                lemma_suffix_keeps_direct_text(head, a);
                assert(head.drop_last() =~= Seq::<(Seq<char>, Tree)>::empty());
                assert(direct_text(head.drop_last()) == Some(None::<Seq<char>>));
                assert(es[0].1 == Tree::Str(t));
                assert(head.last() == es[0]);
                assert(direct_text(head) == Some(Some(t)));
                assert(!has_children(es)) by {
                    assert forall|i: int| 0 <= i < es.len() implies !is_child_key(
                        #[trigger] es[i].0,
                    ) by {
                        if i > 0 {
                            assert(es[i] == a[i - 1]);
                        }
                    }
                }
                lemma_no_children(es);
                lemma_markup_three(
                    EventModel::Start { name, attributes: attribute_events(a) },
                    EventModel::Text { content: t },
                    EventModel::End { name },
                );
                assert(escaped(t) + Seq::<char>::empty() =~= escaped(t));
                assert(open_tag(name, attributes_markup(attribute_events(a))) + escaped(t)
                    + Seq::<char>::empty() + close_tag(name) =~= open_tag(
                    name,
                    attributes_markup(attribute_events(a)),
                ) + escaped(t) + close_tag(name));
            } else {
                let c = child_count(es) as int;
                let a = es.skip(c);
                let kids = es.take(c);
                lemma_child_count_bound(es);
                lemma_children_keys(es, c);
                assert(kids + a =~= es);
                assert forall|i: int| 0 <= i < kids.len() implies !is_attribute_key(
                    #[trigger] kids[i].0,
                ) by {
                    assert(kids[i] == es[i]);
                }
                lemma_prefix_no_attributes(kids, a);
                lemma_attributes_markup(a);
                assert forall|i: int| 0 <= i < a.len() implies #[trigger] a[i].0 != text_key() by {
                    assert(is_attribute_key(a[i].0));
                }
                lemma_suffix_keeps_direct_text(kids, a);
                assert forall|i: int| 0 <= i < kids.len() implies #[trigger] kids[i].0
                    != text_key() by {
                    assert(kids[i] == es[i]);
                    assert(is_child_key(es[i].0));
                }
                lemma_suffix_keeps_direct_text(Seq::empty(), kids);
                assert(Seq::<(Seq<char>, Tree)>::empty() + kids =~= kids);
                assert forall|i: int| 0 <= i < a.len() implies !is_child_key(#[trigger] a[i].0) by {
                    assert(is_attribute_key(a[i].0));
                }
                lemma_suffix_keeps_children(kids, a);
                lemma_children_markup(es, c);
                assert(is_child_key(es[0].0));
                assert(has_children(es));
                let start = seq![EventModel::Start { name, attributes: attribute_events(a) }];
                let middle = children_events(es, c);
                let end = seq![EventModel::End { name }];
                lemma_markup_concat(start + middle, end);
                lemma_markup_concat(start, middle);
                lemma_markup_one(start[0]);
                lemma_markup_one(end[0]);
                assert(escaped(Seq::<char>::empty()) == Seq::<char>::empty());
                assert(open_tag(name, attributes_markup(attribute_events(a))) + escaped(
                    Seq::<char>::empty(),
                ) + markup(middle) + close_tag(name) =~= open_tag(
                    name,
                    attributes_markup(attribute_events(a)),
                ) + markup(middle) + close_tag(name));
            }
        },
        _ => {},
    }
}

pub proof fn lemma_children_markup(es: Seq<(Seq<char>, Tree)>, c: int)
    requires
        children_ok(es, c),
    ensures
        children_text(es.take(c)) == Some(markup(children_events(es, c))),
    decreases es, c,
{
    if c == 0 {
        assert(es.take(0) =~= Seq::<(Seq<char>, Tree)>::empty());
    } else {
        lemma_children_markup(es, c - 1);
        assert(es.take(c).drop_last() =~= es.take(c - 1));
        assert(es.take(c).last() == es[c - 1]);
        let (k, val) = es[c - 1];
        assert(is_child_key(k));
        match val {
            Tree::Array(items) => {
                lemma_items_markup(items, k);
            },
            _ => {
                lemma_element_markup(val, k);
            },
        }
        lemma_markup_concat(children_events(es, c - 1), element_events(val, k));
    }
}

pub proof fn lemma_items_markup(items: Seq<Tree>, name: Seq<char>)
    requires
        items_ok(items),
    ensures
        elements_text(items, name) == Some(markup(items_events(items, name))),
    decreases items, 0int,
{
    if items.len() > 0 {
        lemma_items_markup(items.drop_last(), name);
        lemma_element_markup(items.last(), name);
        lemma_markup_concat(items_events(items.drop_last(), name), element_events(items.last(), name));
    }
}

/// The document that the serializer writes for `{root: content}` is the XML
/// declaration followed by the markup of the events that the round trip
/// feeds to the engine.
pub proof fn lemma_document_markup(content: Tree, root: Seq<char>)
    requires
        element_ok(content),
    ensures
        document_text(Tree::Object(seq![(root, content)]), root) == Some(
            xml_declaration() + markup(element_events(content, root)),
        ),
{
    assert(root_content(Tree::Object(seq![(root, content)]), root) == content);
    lemma_element_markup(content, root);
}

/// Writing a tree and reading it back gives the same tree. For a tree
/// `{root: content}` as parsing with nulls kept yields it, the document that
/// [`crate::ariane::dict_to_xml_str`] writes with root name `root` is the XML
/// declaration followed by the markup of a sequence of events, and the engine
/// fed with nulls kept those events rebuilds `{root: content}`. This holds of
/// every content that parsing yields except maps with neither text nor child
/// elements: those are written as self-closing tags, which read back as null.
pub proof fn lemma_round_trip(content: Tree, root: Seq<char>)
    requires
        element_ok(content),
    ensures
        document_text(Tree::Object(seq![(root, content)]), root) == Some(
            xml_declaration() + markup(element_events(content, root)),
        ),
        parse_model(element_events(content, root), true) == Ok::<Tree, ParseFailure>(
            Tree::Object(seq![(root, content)]),
        ),
{
    lemma_document_markup(content, root);
    lemma_element_events(initial_model(), content, root);
}

} // verus!