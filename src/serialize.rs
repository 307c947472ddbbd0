use crate::parse::text_key;
use crate::text::{
    attribute_escaped, decimal, escape_attribute_value, escape_text, escaped, i64_text,
    signed_decimal, u64_text,
};
use crate::value::{
    tree_of, entries_of, lemma_entries_index, lemma_trees_index, trees_of, Number, NumberModel, Tree, Value,
};
use vstd::prelude::*;
use vstd::string::{StrSliceExecFns, StringExecFns};

verus! {

/// Why a value tree could not be written as XML.
#[derive(Debug, Clone, PartialEq)]
pub enum SerializeError {
    /// An attribute or a `#text` entry holds a list or a map, which has no
    /// textual form.
    UnsupportedValueShape,
}

/// The decimal text of a number.
pub open spec fn number_text(n: NumberModel) -> Seq<char> {
    match n {
        NumberModel::Int(i) => signed_decimal(i),
        NumberModel::Float(t) => t,
    }
}

/// The textual form of a scalar; lists and maps have none.
pub open spec fn scalar_text(v: Tree) -> Option<Seq<char>> {
    match v {
        Tree::Null => Some(Seq::empty()),
        Tree::Bool(b) => Some(
            if b {
                seq!['t', 'r', 'u', 'e']
            } else {
                seq!['f', 'a', 'l', 's', 'e']
            },
        ),
        Tree::Number(n) => Some(number_text(n)),
        Tree::Str(s) => Some(s),
        _ => None,
    }
}

/// The declaration that opens every document written.
pub open spec fn xml_declaration() -> Seq<char> {
    "<?xml version=\"1.0\" encoding=\"utf-8\"?>"@
}

/// What the root element holds: the value under `name` when the tree is the
/// one-entry map `{name: content}` that parsing yields, else the whole tree.
pub open spec fn root_content(v: Tree, name: Seq<char>) -> Tree {
    match v {
        Tree::Object(es) => if es.len() == 1 && es[0].0 == name {
            es[0].1
        } else {
            v
        },
        _ => v,
    }
}

/// The XML document of a tree with root element `name`.
pub open spec fn document_text(v: Tree, name: Seq<char>) -> Option<Seq<char>> {
    match element_text(root_content(v, name), name) {
        Some(t) => Some(xml_declaration() + t),
        None => None,
    }
}

pub open spec fn is_attribute_key(k: Seq<char>) -> bool {
    k.len() > 0 && k[0] == '@'
}

pub open spec fn is_child_key(k: Seq<char>) -> bool {
    !is_attribute_key(k) && k != text_key()
}

/// The attributes of a map, each written ` name="value"`.
pub open spec fn attributes_text(es: Seq<(Seq<char>, Tree)>) -> Option<Seq<char>>
    decreases es.len(),
{
    if es.len() == 0 {
        Some(Seq::empty())
    } else {
        match attributes_text(es.drop_last()) {
            None => None,
            Some(prev) => {
                let (k, v) = es.last();
                if is_attribute_key(k) {
                    match scalar_text(v) {
                        Some(t) => Some(
                            prev + seq![' '] + k.drop_first() + seq!['=', '"'] + attribute_escaped(t) + seq![
                                '"',
                            ],
                        ),
                        None => None,
                    }
                } else {
                    Some(prev)
                }
            },
        }
    }
}

/// The direct text of a map: that of its last `#text` entry, if any.
pub open spec fn direct_text(es: Seq<(Seq<char>, Tree)>) -> Option<Option<Seq<char>>>
    decreases es.len(),
{
    if es.len() == 0 {
        Some(None)
    } else {
        match direct_text(es.drop_last()) {
            None => None,
            Some(prev) => {
                let (k, v) = es.last();
                if k == text_key() {
                    match scalar_text(v) {
                        Some(t) => Some(Some(t)),
                        None => None,
                    }
                } else {
                    Some(prev)
                }
            },
        }
    }
}

pub open spec fn has_children(es: Seq<(Seq<char>, Tree)>) -> bool {
    exists|i: int| 0 <= i < es.len() && is_child_key(#[trigger] es[i].0)
}

pub open spec fn open_tag(name: Seq<char>, attrs: Seq<char>) -> Seq<char> {
    seq!['<'] + name + attrs + seq!['>']
}

pub open spec fn close_tag(name: Seq<char>) -> Seq<char> {
    seq!['<', '/'] + name + seq!['>']
}

pub open spec fn empty_tag(name: Seq<char>, attrs: Seq<char>) -> Seq<char> {
    seq!['<'] + name + attrs + seq!['/', '>']
}

/// The XML of the element `name` holding `v`; `None` where `v` holds a list
/// or a map in an attribute or a `#text` entry.
pub open spec fn element_text(v: Tree, name: Seq<char>) -> Option<Seq<char>>
    decreases v, 0nat,
{
    match v {
        Tree::Null => Some(empty_tag(name, Seq::empty())),
        Tree::Array(items) => elements_text(items, name),
        Tree::Object(es) => match (attributes_text(es), direct_text(es), children_text(es)) {
            (Some(a), Some(t), Some(c)) => if t is None && !has_children(es) {
                Some(empty_tag(name, a))
            } else {
                Some(
                    open_tag(name, a) + escaped(
                        match t {
                            Some(s) => s,
                            None => Seq::empty(),
                        },
                    ) + c + close_tag(name),
                )
            },
            _ => None,
        },
        _ => match scalar_text(v) {
            Some(t) => Some(open_tag(name, Seq::empty()) + escaped(t) + close_tag(name)),
            None => None,
        },
    }
}

/// Repeated sibling elements `name`, one for each item.
pub open spec fn elements_text(items: Seq<Tree>, name: Seq<char>) -> Option<Seq<char>>
    decreases items, 0nat,
{
    if items.len() == 0 {
        Some(Seq::empty())
    } else {
        match (elements_text(items.drop_last(), name), element_text(items.last(), name)) {
            (Some(a), Some(b)) => Some(a + b),
            _ => None,
        }
    }
}

/// The child elements of a map, in entry order.
pub open spec fn children_text(es: Seq<(Seq<char>, Tree)>) -> Option<Seq<char>>
    decreases es, 0nat,
{
    if es.len() == 0 {
        Some(Seq::empty())
    } else {
        match children_text(es.drop_last()) {
            None => None,
            Some(prev) => {
                let (k, v) = es.last();
                if is_child_key(k) {
                    match element_text(v, k) {
                        Some(t) => Some(prev + t),
                        None => None,
                    }
                } else {
                    Some(prev)
                }
            },
        }
    }
}

/// A map without child entries writes no child elements.
pub proof fn lemma_no_children(es: Seq<(Seq<char>, Tree)>)
    requires
        !has_children(es),
    ensures
        children_text(es) == Some(Seq::<char>::empty()),
    decreases es.len(),
{
    if es.len() > 0 {
        assert forall|i: int| 0 <= i < es.len() - 1 implies !is_child_key(
            #[trigger] es.drop_last()[i].0,
        ) by {
            assert(es.drop_last()[i] == es[i]);
        }
        lemma_no_children(es.drop_last());
        assert(!is_child_key(es[es.len() - 1].0));
    }
}

pub proof fn lemma_attributes_none(es: Seq<(Seq<char>, Tree)>, k: int)
    requires
        0 <= k <= es.len(),
        attributes_text(es.take(k)) is None,
    ensures
        attributes_text(es) is None,
    decreases es.len() - k,
{
    if k < es.len() {
        assert(es.take(k + 1).drop_last() =~= es.take(k));
        lemma_attributes_none(es, k + 1);
    } else {
        assert(es.take(k) =~= es);
    }
}

pub proof fn lemma_direct_text_none(es: Seq<(Seq<char>, Tree)>, k: int)
    requires
        0 <= k <= es.len(),
        direct_text(es.take(k)) is None,
    ensures
        direct_text(es) is None,
    decreases es.len() - k,
{
    if k < es.len() {
        assert(es.take(k + 1).drop_last() =~= es.take(k));
        lemma_direct_text_none(es, k + 1);
    } else {
        assert(es.take(k) =~= es);
    }
}

pub proof fn lemma_children_none(es: Seq<(Seq<char>, Tree)>, k: int)
    requires
        0 <= k <= es.len(),
        children_text(es.take(k)) is None,
    ensures
        children_text(es) is None,
    decreases es.len() - k,
{
    if k < es.len() {
        assert(es.take(k + 1).drop_last() =~= es.take(k));
        lemma_children_none(es, k + 1);
    } else {
        assert(es.take(k) =~= es);
    }
}

pub proof fn lemma_elements_none(items: Seq<Tree>, name: Seq<char>, k: int)
    requires
        0 <= k <= items.len(),
        elements_text(items.take(k), name) is None,
    ensures
        elements_text(items, name) is None,
    decreases items.len() - k,
{
    if k < items.len() {
        assert(items.take(k + 1).drop_last() =~= items.take(k));
        lemma_elements_none(items, name, k + 1);
    } else {
        assert(items.take(k) =~= items);
    }
}

pub proof fn lemma_prefix_append(a: Seq<char>, b: Seq<char>)
    ensures
        a.is_prefix_of(a + b),
{
    assert(a =~= (a + b).subrange(0, a.len() as int));
}

pub proof fn lemma_prefix_trans(a: Seq<char>, b: Seq<char>, c: Seq<char>)
    requires
        a.is_prefix_of(b),
        b.is_prefix_of(c),
    ensures
        a.is_prefix_of(c),
{
    assert(a =~= c.subrange(0, a.len() as int)) by {
        assert forall|i: int| 0 <= i < a.len() implies a[i] == c.subrange(0, a.len() as int)[i] by {
            assert(a[i] == b.subrange(0, a.len() as int)[i]);
            assert(b[i] == c.subrange(0, b.len() as int)[i]);
        }
    }
}

/// The textual form of a scalar value.
fn scalar_string(v: &Value) -> (r: Result<String, SerializeError>)
    ensures
        match scalar_text(v@) {
            Some(t) => r is Ok && r->Ok_0@ == t,
            None => r is Err,
        },
{
    match v {
        Value::Null => Ok(String::new()),
        Value::Bool(b) => {
            proof {
                reveal_strlit("true");
                reveal_strlit("false");
            }
            if *b {
                Ok(String::from_str("true"))
            } else {
                Ok(String::from_str("false"))
            }
        },
        Value::Number(Number::PosInt(u)) => {
            let t = u64_text(*u);
            Ok(t)
        },
        Value::Number(Number::NegInt(i)) => Ok(i64_text(*i)),
        Value::Number(Number::Float(t)) => Ok(t.clone()),
        Value::String(t) => Ok(t.clone()),
        _ => Err(SerializeError::UnsupportedValueShape),
    }
}

fn is_attribute_name(k: &String) -> (r: bool)
    ensures
        r == is_attribute_key(k@),
{
    !k.as_str().is_empty() && k.as_str().get_char(0) == '@'
}

fn write_open(out: &mut String, name: &str)
    ensures
        final(out)@ == old(out)@ + seq!['<'] + name@,
{
    proof {
        reveal_strlit("<");
    }
    out.append("<");
    out.append(name);
}

fn write_close(out: &mut String, name: &str)
    ensures
        final(out)@ == old(out)@ + close_tag(name@),
{
    proof {
        reveal_strlit("</");
        reveal_strlit(">");
    }
    out.append("</");
    out.append(name);
    out.append(">");
    assert(out@ =~= old(out)@ + close_tag(name@));
}

/// Writes the attributes of a map after its element's name, and gathers its
/// direct text and whether it has child elements.
fn write_attributes(es: &Vec<(String, Value)>, out: &mut String) -> (r: Result<
    (Option<String>, bool),
    SerializeError,
>)
    ensures
        old(out)@.is_prefix_of(final(out)@),
        match (attributes_text(entries_of(es@)), direct_text(entries_of(es@))) {
            (Some(a), Some(t)) => r is Ok && final(out)@ == old(out)@ + a && r->Ok_0.1 == has_children(
                entries_of(es@),
            ) && match r->Ok_0.0 {
                Some(s) => t == Some(s@),
                None => t is None,
            },
            _ => r is Err,
        },
{
    let ghost em = entries_of(es@);
    let ghost start = out@;
    proof {
        lemma_entries_index(es@);
        assert(em.take(0) =~= Seq::<(Seq<char>, Tree)>::empty());
        reveal_strlit(" ");
        reveal_strlit("=\"");
        reveal_strlit("\"");
    }
    let mut text: Option<String> = None;
    let mut children = false;
    let tk = String::from_str("#text");
    proof {
        reveal_strlit("#text");
    }
    let mut i: usize = 0;
    while i < es.len()
        invariant
            i <= es.len(),
            em == entries_of(es@),
            em.len() == es@.len(),
            forall|j: int| 0 <= j < es@.len() ==> #[trigger] em[j] == (es@[j].0@, tree_of(es@[j].1)),
            tk@ == text_key(),
            " "@ == seq![' '],
            "=\""@ == seq!['=', '"'],
            "\""@ == seq!['"'],
            attributes_text(em.take(i as int)) is Some,
            out@ == start + attributes_text(em.take(i as int))->Some_0,
            start == old(out)@,
            direct_text(em.take(i as int)) == Some(
                match text {
                    Some(s) => Some(s@),
                    None => None,
                },
            ),
            children == has_children(em.take(i as int)),
        decreases es.len() - i,
    {
        let ghost pre = em.take(i as int);
        let ghost cur = em.take(i + 1);
        proof {
            assert(cur.drop_last() =~= pre);
            assert(cur.last() == em[i as int]);
        }
        let k = &es[i].0;
        let v = &es[i].1;
        if is_attribute_name(k) {
            match scalar_string(v) {
                Ok(t) => {
                    let e = escape_attribute_value(t.as_str());
                    let name = k.as_str().substring_char(1, k.as_str().unicode_len());
                    out.append(" ");
                    out.append(name);
                    out.append("=\"");
                    out.append(e.as_str());
                    out.append("\"");
                    proof {
                        assert(name@ =~= k@.drop_first());
                        assert(out@ =~= start + attributes_text(cur)->Some_0);
                    }
                },
                Err(e) => {
                    proof {
                        lemma_attributes_none(em, i + 1);
                        lemma_prefix_append(start, attributes_text(pre)->Some_0);
                    }
                    return Err(e);
                },
            }
        } else if *k == tk {
            match scalar_string(v) {
                Ok(t) => {
                    text = Some(t);
                },
                Err(e) => {
                    proof {
                        lemma_direct_text_none(em, i + 1);
                        lemma_prefix_append(start, attributes_text(pre)->Some_0);
                    }
                    return Err(e);
                },
            }
        } else {
            children = true;
        }
        proof {
            if children {
                if is_child_key(em[i as int].0) {
                    assert(is_child_key(cur[i as int].0));
                } else {
                    let w = choose|w: int| 0 <= w < pre.len() && is_child_key(#[trigger] pre[w].0);
                    assert(cur[w] == pre[w]);
                }
            } else {
                assert forall|w: int| 0 <= w < cur.len() implies !is_child_key(#[trigger] cur[w].0) by {
                    if w < pre.len() {
                        assert(cur[w] == pre[w]);
                    }
                }
            }
        }
        i = i + 1;
    }
    proof {
        assert(em.take(i as int) =~= em);
        lemma_prefix_append(start, attributes_text(em)->Some_0);
    }
    Ok((text, children))
}

/// Writes the element `name` holding `v`.
pub(crate) fn write_element(v: &Value, name: &str, out: &mut String) -> (r: Result<(), SerializeError>)
    ensures
        old(out)@.is_prefix_of(final(out)@),
        match element_text(v@, name@) {
            Some(t) => r is Ok && final(out)@ == old(out)@ + t,
            None => r is Err,
        },
    decreases v, 1nat,
{
    proof {
        reveal_strlit("/>");
        reveal_strlit(">");
    }
    match v {
        Value::Array(items) => write_items(items, name, out),
        Value::Object(es) => {
            let ghost start = out@;
            write_open(out, name);
            let ghost opened = out@;
            proof {
                lemma_prefix_append(start, seq!['<'] + name@);
                assert(opened =~= start + (seq!['<'] + name@));
            }
            let (text, children) = match write_attributes(es, out) {
                Ok(p) => p,
                Err(e) => {
                    proof {
                        lemma_prefix_trans(start, opened, out@);
                    }
                    return Err(e);
                },
            };
            let ghost em = entries_of(es@);
            let ghost a = attributes_text(em)->Some_0;
            if text.is_none() && !children {
                proof {
                    lemma_no_children(em);
                }
                out.append("/>");
                assert(out@ =~= start + empty_tag(name@, a));
                proof {
                    lemma_prefix_append(start, empty_tag(name@, a));
                }
                return Ok(());
            }
            out.append(">");
            let ghost t = match &text {
                Some(s) => s@,
                None => Seq::<char>::empty(),
            };
            match text {
                Some(s) => {
                    let e = escape_text(s.as_str());
                    out.append(e.as_str());
                },
                None => {
                    assert(escaped(Seq::<char>::empty()) == Seq::<char>::empty());
                    assert(out@ =~= out@ + escaped(t));
                },
            }
            let ghost mid = out@;
            proof {
                assert(mid =~= start + (open_tag(name@, a) + escaped(t)));
                lemma_prefix_append(start, open_tag(name@, a) + escaped(t));
            }
            match write_children(es, out) {
                Ok(()) => {},
                Err(e) => {
                    proof {
                        lemma_prefix_trans(start, mid, out@);
                    }
                    return Err(e);
                },
            }
            let ghost c = children_text(em)->Some_0;
            write_close(out, name);
            assert(out@ =~= start + (open_tag(name@, a) + escaped(t) + c + close_tag(name@)));
            proof {
                lemma_prefix_append(start, open_tag(name@, a) + escaped(t) + c + close_tag(name@));
            }
            Ok(())
        },
        Value::Null => {
            let ghost start = out@;
            write_open(out, name);
            out.append("/>");
            assert(out@ =~= start + empty_tag(name@, Seq::empty()));
            proof {
                lemma_prefix_append(start, empty_tag(name@, Seq::empty()));
            }
            Ok(())
        },
        _ => {
            let ghost start = out@;
            let t = match scalar_string(v) {
                Ok(t) => t,
                Err(e) => {
                    proof {
                        lemma_prefix_append(start, Seq::empty());
                        assert(start + Seq::<char>::empty() =~= start);
                    }
                    return Err(e);
                },
            };
            let e = escape_text(t.as_str());
            write_open(out, name);
            out.append(">");
            out.append(e.as_str());
            write_close(out, name);
            assert(out@ =~= start + (open_tag(name@, Seq::empty()) + escaped(t@) + close_tag(name@)));
            proof {
                lemma_prefix_append(start, open_tag(name@, Seq::empty()) + escaped(t@) + close_tag(name@));
            }
            Ok(())
        },
    }
}

/// Writes one element `name` for each item, in order.
fn write_items(items: &Vec<Value>, name: &str, out: &mut String) -> (r: Result<(), SerializeError>)
    ensures
        old(out)@.is_prefix_of(final(out)@),
        match elements_text(trees_of(items@), name@) {
            Some(t) => r is Ok && final(out)@ == old(out)@ + t,
            None => r is Err,
        },
    decreases items, 0nat,
{
    let ghost ts = trees_of(items@);
    let ghost start = out@;
    proof {
        lemma_trees_index(items@);
        assert(ts.take(0) =~= Seq::<Tree>::empty());
    }
    let mut i: usize = 0;
    while i < items.len()
        invariant
            i <= items.len(),
            ts == trees_of(items@),
            ts.len() == items@.len(),
            forall|j: int| 0 <= j < items@.len() ==> #[trigger] ts[j] == tree_of(items@[j]),
            elements_text(ts.take(i as int), name@) is Some,
            out@ == start + elements_text(ts.take(i as int), name@)->Some_0,
            start == old(out)@,
        decreases items.len() - i,
    {
        proof {
            assert(ts.take(i + 1).drop_last() =~= ts.take(i as int));
            assert(ts.take(i + 1).last() == ts[i as int]);
        }
        let ghost before = out@;
        match write_element(&items[i], name, out) {
            Ok(()) => {},
            Err(e) => {
                proof {
                    lemma_elements_none(ts, name@, i + 1);
                    lemma_prefix_append(start, elements_text(ts.take(i as int), name@)->Some_0);
                    lemma_prefix_trans(start, before, out@);
                }
                return Err(e);
            },
        }
        i = i + 1;
    }
    proof {
        assert(ts.take(i as int) =~= ts);
        lemma_prefix_append(start, elements_text(ts, name@)->Some_0);
    }
    Ok(())
}

/// Writes the child elements of a map, in entry order.
fn write_children(es: &Vec<(String, Value)>, out: &mut String) -> (r: Result<(), SerializeError>)
    ensures
        old(out)@.is_prefix_of(final(out)@),
        match children_text(entries_of(es@)) {
            Some(t) => r is Ok && final(out)@ == old(out)@ + t,
            None => r is Err,
        },
    decreases es, 0nat,
{
    let ghost em = entries_of(es@);
    let ghost start = out@;
    proof {
        lemma_entries_index(es@);
        assert(em.take(0) =~= Seq::<(Seq<char>, Tree)>::empty());
        reveal_strlit("#text");
    }
    let tk = String::from_str("#text");
    let mut i: usize = 0;
    while i < es.len()
        invariant
            i <= es.len(),
            em == entries_of(es@),
            em.len() == es@.len(),
            forall|j: int| 0 <= j < es@.len() ==> #[trigger] em[j] == (es@[j].0@, tree_of(es@[j].1)),
            tk@ == text_key(),
            children_text(em.take(i as int)) is Some,
            out@ == start + children_text(em.take(i as int))->Some_0,
            start == old(out)@,
        decreases es.len() - i,
    {
        proof {
            assert(em.take(i + 1).drop_last() =~= em.take(i as int));
            assert(em.take(i + 1).last() == em[i as int]);
        }
        let k = &es[i].0;
        if !is_attribute_name(k) && *k != tk {
            let ghost before = out@;
            match write_element(&es[i].1, k.as_str(), out) {
                Ok(()) => {},
                Err(e) => {
                    proof {
                        lemma_children_none(em, i + 1);
                        lemma_prefix_append(start, children_text(em.take(i as int))->Some_0);
                        lemma_prefix_trans(start, before, out@);
                    }
                    return Err(e);
                },
            }
        }
        i = i + 1;
    }
    proof {
        assert(em.take(i as int) =~= em);
    }
    Ok(())
}

} // verus!