use crate::events::{attribute_pairs, event_models, EventModel, XmlEvent};
use crate::text::{
    char_ref_of, predefined_entity, push_char, resolve_char_reference, resolve_entity,
    trim_of, trim_text,
};
use crate::value::{
    entries_insert, entries_of, entries_promote, lemma_entries_index, object_insert, object_promote,
    tree_of, Tree, Value,
};
use vstd::string::{StrSliceExecFns, StringExecFns};
use vstd::prelude::*;

verus! {

/// Why a document could not be turned into a value tree.
#[derive(Debug, Clone, PartialEq)]
pub enum ParseError {
    /// The tokenizer reported a syntax error at a byte offset.
    MalformedXml { position: u64, message: String },
    /// The tags do not nest into one root element: a closing tag came with no
    /// element open or named another element than the innermost open one, an
    /// element opened after the root element, or the input ended with
    /// elements still open.
    UnbalancedTags,
    /// The document produced no root element.
    EmptyDocument,
}

/// The mathematical model of a [`ParseError`].
pub ghost enum ParseFailure {
    MalformedXml { position: u64, message: Seq<char> },
    UnbalancedTags,
    EmptyDocument,
}

impl View for ParseError {
    type V = ParseFailure;

    open spec fn view(&self) -> ParseFailure {
        match self {
            ParseError::MalformedXml { position, message } => ParseFailure::MalformedXml {
                position: *position,
                message: message@,
            },
            ParseError::UnbalancedTags => ParseFailure::UnbalancedTags,
            ParseError::EmptyDocument => ParseFailure::EmptyDocument,
        }
    }
}

/// An open element: its name, and what its parent had built when it opened.
pub ghost struct FrameModel {
    pub name: Seq<char>,
    pub parent: Option<Tree>,
    pub parent_attrs: Seq<(Seq<char>, Tree)>,
}

/// The state of the parse engine between two events.
pub ghost struct ParseModel {
    /// The elements that are open, outermost first.
    pub stack: Seq<FrameModel>,
    /// What the innermost open element has built so far.
    pub current: Option<Tree>,
    /// The attributes of the innermost open element.
    pub attrs: Seq<(Seq<char>, Tree)>,
    /// Text seen since the last tag, not yet committed.
    pub text: Seq<char>,
    /// The content of the root element, once it is complete.
    pub root: Option<Tree>,
    /// The name of the first element seen.
    pub root_name: Option<Seq<char>>,
}

pub open spec fn initial_model() -> ParseModel {
    ParseModel {
        stack: Seq::empty(),
        current: None,
        attrs: Seq::empty(),
        text: Seq::empty(),
        root: None,
        root_name: None,
    }
}

/// The reserved key of an element's direct text.
pub open spec fn text_key() -> Seq<char> {
    seq!['#', 't', 'e', 'x', 't']
}

/// Commits the pending text: trimmed, and when something is left it replaces
/// what the element has built.
pub open spec fn flush(st: ParseModel) -> ParseModel {
    let t = trim_of(st.text);
    if st.text.len() == 0 {
        st
    } else {
        ParseModel {
            current: if t.len() > 0 {
                Some(Tree::Str(t))
            } else {
                st.current
            },
            text: Seq::empty(),
            ..st
        }
    }
}

/// The attribute map of a tag: `@name` keys with string values, a repeated
/// name keeping its last value.
pub open spec fn attribute_entries(a: Seq<(Seq<char>, Seq<char>)>) -> Seq<(Seq<char>, Tree)>
    decreases a.len(),
{
    if a.len() == 0 {
        Seq::empty()
    } else {
        entries_insert(
            attribute_entries(a.drop_last()),
            seq!['@'] + a.last().0,
            Tree::Str(a.last().1),
        )
    }
}

/// Inserts the entries of `attrs` into `obj`, in order.
pub open spec fn merge_entries(obj: Seq<(Seq<char>, Tree)>, attrs: Seq<(Seq<char>, Tree)>) -> Seq<
    (Seq<char>, Tree),
>
    decreases attrs.len(),
{
    if attrs.len() == 0 {
        obj
    } else {
        entries_insert(merge_entries(obj, attrs.drop_last()), attrs.last().0, attrs.last().1)
    }
}

/// The value of a closed element: what it built (a scalar goes under
/// `#text`) with its attributes merged in; a map holding only `#text`
/// collapses to that scalar.
pub open spec fn element_value(current: Option<Tree>, attrs: Seq<(Seq<char>, Tree)>) -> Tree {
    let obj = match current {
        Some(Tree::Object(m)) => m,
        Some(v) => seq![(text_key(), v)],
        None => Seq::empty(),
    };
    let merged = merge_entries(obj, attrs);
    if merged.len() == 1 && merged[0].0 == text_key() {
        merged[0].1
    } else {
        Tree::Object(merged)
    }
}

/// Without `keep_null`, a null and an empty map are left out of the tree.
pub open spec fn suppressed(v: Tree, keep_null: bool) -> bool {
    !keep_null && (v == Tree::Null || v == Tree::Object(Seq::empty()))
}

/// Attaches a finished element: at the top it becomes the root's content;
/// inside a map it is inserted or coalesced under its name; inside an element
/// whose text replaced its children it is left out.
pub open spec fn attach(st: ParseModel, name: Seq<char>, v: Tree, keep_null: bool) -> ParseModel {
    if suppressed(v, keep_null) {
        st
    } else if st.stack.len() == 0 {
        ParseModel { root: Some(v), ..st }
    } else {
        match st.current {
            Some(Tree::Object(m)) => ParseModel {
                current: Some(Tree::Object(entries_promote(m, name, v))),
                ..st
            },
            _ => st,
        }
    }
}

pub open spec fn note_root_name(st: ParseModel, name: Seq<char>) -> ParseModel {
    if st.root_name is None {
        ParseModel { root_name: Some(name), ..st }
    } else {
        st
    }
}

/// The text that a reference `&name;` stands for: the character of a
/// character reference, the replacement of a predefined entity, and nothing
/// for any other name.
pub open spec fn reference_text(name: Seq<char>) -> Seq<char> {
    if name.len() > 0 && name[0] == '#' {
        match char_ref_of(name) {
            Some(c) => seq![c],
            None => Seq::empty(),
        }
    } else {
        match predefined_entity(name) {
            Some(t) => t,
            None => Seq::empty(),
        }
    }
}

/// An element would open at the top level after the root element.
pub open spec fn past_root(st: ParseModel) -> bool {
    st.stack.len() == 0 && st.root_name is Some
}

/// The engine's reaction to one event.
pub open spec fn step(st: ParseModel, ev: EventModel, keep_null: bool) -> Result<
    ParseModel,
    ParseFailure,
> {
    match ev {
        EventModel::Start { name, attributes } => if past_root(st) {
            Err(ParseFailure::UnbalancedTags)
        } else {
            let f = note_root_name(flush(st), name);
            Ok(
                ParseModel {
                    stack: f.stack.push(
                        FrameModel { name: name, parent: f.current, parent_attrs: f.attrs },
                    ),
                    current: Some(Tree::Object(Seq::empty())),
                    attrs: attribute_entries(attributes),
                    ..f
                },
            )
        },
        EventModel::Empty { name, attributes } => if past_root(st) {
            Err(ParseFailure::UnbalancedTags)
        } else {
            let f = note_root_name(flush(st), name);
            let v = if keep_null {
                Tree::Null
            } else {
                Tree::Object(attribute_entries(attributes))
            };
            Ok(attach(f, name, v, keep_null))
        },
        EventModel::End { name } => {
            let f = flush(st);
            if f.stack.len() == 0 || f.stack.last().name != name {
                Err(ParseFailure::UnbalancedTags)
            } else {
                let fr = f.stack.last();
                let v = element_value(f.current, f.attrs);
                let resumed = ParseModel {
                    stack: f.stack.drop_last(),
                    current: fr.parent,
                    attrs: fr.parent_attrs,
                    ..f
                };
                Ok(attach(resumed, fr.name, v, keep_null))
            }
        },
        EventModel::Text { content } => Ok(ParseModel { text: st.text + content, ..st }),
        EventModel::Reference { name } => Ok(
            ParseModel { text: st.text + reference_text(name), ..st },
        ),
        EventModel::Malformed { position, message } => Err(
            ParseFailure::MalformedXml { position, message },
        ),
        EventModel::Other => Ok(st),
    }
}

/// The engine's state after a sequence of events fed from `st`, or the
/// first failure.
pub open spec fn run_from(st: ParseModel, evs: Seq<EventModel>, keep_null: bool) -> Result<
    ParseModel,
    ParseFailure,
>
    decreases evs.len(),
{
    if evs.len() == 0 {
        Ok(st)
    } else {
        match run_from(st, evs.drop_last(), keep_null) {
            Ok(s) => step(s, evs.last(), keep_null),
            Err(e) => Err(e),
        }
    }
}

/// The engine's state after a whole event sequence, or the first failure.
pub open spec fn run_events(evs: Seq<EventModel>, keep_null: bool) -> Result<
    ParseModel,
    ParseFailure,
> {
    run_from(initial_model(), evs, keep_null)
}

/// The document's tree: a map with the root's name as its one key. Elements
/// still open at the end of the input make it fail.
pub open spec fn finish(st: ParseModel) -> Result<Tree, ParseFailure> {
    if st.stack.len() > 0 {
        Err(ParseFailure::UnbalancedTags)
    } else {
        match st.root {
        Some(r) => Ok(
            Tree::Object(
                seq![
                    (
                        match st.root_name {
                            Some(n) => n,
                            None => Seq::empty(),
                        },
                        r,
                    ),
                ],
            ),
        ),
            None => Err(ParseFailure::EmptyDocument),
        }
    }
}

/// The value tree of a whole event sequence.
pub open spec fn parse_model(evs: Seq<EventModel>, keep_null: bool) -> Result<Tree, ParseFailure> {
    match run_events(evs, keep_null) {
        Ok(st) => finish(st),
        Err(e) => Err(e),
    }
}

pub open spec fn result_view(r: Result<Value, ParseError>) -> Result<Tree, ParseFailure> {
    match r {
        Ok(v) => Ok(v@),
        Err(e) => Err(e@),
    }
}

pub open spec fn opt_tree(o: Option<Value>) -> Option<Tree> {
    match o {
        Some(v) => Some(v@),
        None => None,
    }
}

/// An open element of the exec engine.
pub struct Frame {
    name: String,
    parent: Option<Value>,
    parent_attrs: Vec<(String, Value)>,
}

impl Frame {
    pub closed spec fn model(self) -> FrameModel {
        FrameModel {
            name: self.name@,
            parent: opt_tree(self.parent),
            parent_attrs: entries_of(self.parent_attrs@),
        }
    }
}

/// The parse engine's state: an explicit stack of open elements, the value of
/// the innermost one, its attributes and the text not yet committed.
pub struct ParseState {
    stack: Vec<Frame>,
    current: Option<Value>,
    attrs: Vec<(String, Value)>,
    text: String,
    root: Option<Value>,
    root_name: Option<String>,
}

impl View for ParseState {
    type V = ParseModel;

    closed spec fn view(&self) -> ParseModel {
        ParseModel {
            stack: self.stack@.map_values(|f: Frame| f.model()),
            current: opt_tree(self.current),
            attrs: entries_of(self.attrs@),
            text: self.text@,
            root: opt_tree(self.root),
            root_name: match self.root_name {
                Some(n) => Some(n@),
                None => None,
            },
        }
    }
}

fn text_key_string() -> (r: String)
    ensures
        r@ == text_key(),
{
    proof {
        reveal_strlit("#text");
    }
    String::from_str("#text")
}

/// Whether `v` is null or an empty map.
fn null_or_empty(v: &Value) -> (r: bool)
    ensures
        r == (v@ == Tree::Null || v@ == Tree::Object(Seq::empty())),
{
    match v {
        Value::Null => true,
        Value::Object(m) => {
            proof {
                lemma_entries_index(m@);
            }
            m.len() == 0
        },
        _ => false,
    }
}

/// The attribute map of a tag, keyed `@name`.
fn attribute_map(a: &Vec<(String, String)>) -> (r: Vec<(String, Value)>)
    ensures
        entries_of(r@) == attribute_entries(attribute_pairs(a@)),
{
    let mut r: Vec<(String, Value)> = Vec::new();
    let mut i: usize = 0;
    proof {
        reveal_strlit("@");
        assert(attribute_pairs(a@).take(0) =~= Seq::<(Seq<char>, Seq<char>)>::empty());
    }
    while i < a.len()
        invariant
            i <= a.len(),
            entries_of(r@) == attribute_entries(attribute_pairs(a@).take(i as int)),
        decreases a.len() - i,
    {
        proof {
            reveal_strlit("@");
        }
        let mut key = String::from_str("@");
        key.append(a[i].0.as_str());
        let value = Value::String(a[i].1.clone());
        assert(key@ == seq!['@'] + a@[i as int].0@);
        object_insert(&mut r, key, value);
        proof {
            let am = attribute_pairs(a@);
            assert(am.take(i + 1).last() == am[i as int]);
            assert(am.take(i + 1).drop_last() =~= am.take(i as int));
        }
        i = i + 1;
    }
    proof {
        assert(attribute_pairs(a@).take(i as int) =~= attribute_pairs(a@));
    }
    r
}

/// Inserts the entries of `attrs` into `obj`, in order.
fn merge_attributes(obj: &mut Vec<(String, Value)>, attrs: Vec<(String, Value)>)
    ensures
        entries_of(final(obj)@) == merge_entries(entries_of(old(obj)@), entries_of(attrs@)),
{
    let ghost base = entries_of(obj@);
    let ghost all = entries_of(attrs@);
    let ghost n = attrs@.len();
    let mut rest = attrs;
    proof {
        lemma_entries_index(rest@);
        assert(all.take(0) =~= Seq::<(Seq<char>, Tree)>::empty());
    }
    while rest.len() > 0
        invariant
            rest@.len() <= n,
            all.len() == n,
            forall|i: int|
                0 <= i < rest@.len() ==> (#[trigger] rest@[i]).0@ == all[n - rest@.len() + i].0
                    && tree_of(rest@[i].1) == all[n - rest@.len() + i].1,
            entries_of(obj@) == merge_entries(base, all.take(n - rest@.len())),
        decreases rest@.len(),
    {
        let ghost done = n - rest@.len();
        let ghost before = rest@;
        let (k, v) = rest.remove(0);
        assert(before[0].0@ == all[done].0 && tree_of(before[0].1) == all[done].1);
        object_insert(obj, k, v);
        proof {
            assert(all.take(done + 1).drop_last() =~= all.take(done));
            assert forall|i: int| 0 <= i < rest@.len() implies (#[trigger] rest@[i]).0@ == all[n
                - rest@.len() + i].0 && tree_of(rest@[i].1) == all[n - rest@.len() + i].1 by {
                assert(rest@[i] == before[i + 1]);
            }
        }
    }
    proof {
        assert(all.take(n as int) =~= all);
    }
}

impl ParseState {
    /// The state before the first event.
    pub fn new() -> (r: ParseState)
        ensures
            r@ == initial_model(),
    {
        let r = ParseState {
            stack: Vec::new(),
            current: None,
            attrs: Vec::new(),
            text: String::new(),
            root: None,
            root_name: None,
        };
        proof {
            assert(r@.stack =~= Seq::<FrameModel>::empty());
        }
        r
    }

    fn flush(&mut self)
        ensures
            final(self)@ == flush(old(self)@),
    {
        if self.text.as_str().is_empty() {
            return ;
        }
        let t = trim_text(self.text.as_str());
        if !t.as_str().is_empty() {
            self.current = Some(Value::String(t));
        }
        self.text = String::new();
        proof {
            assert(self@.stack =~= flush(old(self)@).stack);
        }
    }

    fn note_root_name(&mut self, name: &String)
        ensures
            final(self)@ == note_root_name(old(self)@, name@),
    {
        if self.root_name.is_none() {
            self.root_name = Some(name.clone());
        }
        proof {
            assert(self@.stack =~= old(self)@.stack);
        }
    }

    fn attach(&mut self, name: String, v: Value, keep_null: bool)
        ensures
            final(self)@ == attach(old(self)@, name@, v@, keep_null),
    {
        if !keep_null && null_or_empty(&v) {
            return ;
        }
        if self.stack.len() == 0 {
            self.root = Some(v);
            proof {
                assert(self@.stack =~= old(self)@.stack);
            }
            return ;
        }
        let cur = self.current.take();
        self.current = match cur {
            Some(Value::Object(mut m)) => {
                object_promote(&mut m, name, v);
                Some(Value::Object(m))
            },
            other => other,
        };
        proof {
            assert(self@.stack =~= old(self)@.stack);
        }
    }

    fn start(&mut self, name: &String, attributes: &Vec<(String, String)>)
        requires
            !past_root(old(self)@),
        ensures
            final(self)@ == step(
                old(self)@,
                EventModel::Start { name: name@, attributes: attribute_pairs(attributes@) },
                true,
            )->Ok_0,
    {
        self.flush();
        self.note_root_name(name);
        let ghost f = self@;
        let mut parent_attrs = attribute_map(attributes);
        std::mem::swap(&mut parent_attrs, &mut self.attrs);
        let parent = self.current.take();
        self.stack.push(Frame { name: name.clone(), parent, parent_attrs });
        self.current = Some(Value::Object(Vec::new()));
        proof {
            assert(self@.stack =~= f.stack.push(
                FrameModel { name: name@, parent: f.current, parent_attrs: f.attrs },
            ));
            assert(entries_of(Seq::<(String, Value)>::empty()) =~= Seq::empty());
        }
    }

    fn empty_element(&mut self, name: &String, attributes: &Vec<(String, String)>, keep_null: bool)
        requires
            !past_root(old(self)@),
        ensures
            final(self)@ == step(
                old(self)@,
                EventModel::Empty { name: name@, attributes: attribute_pairs(attributes@) },
                keep_null,
            )->Ok_0,
    {
        self.flush();
        self.note_root_name(name);
        let v = if keep_null {
            Value::Null
        } else {
            Value::Object(attribute_map(attributes))
        };
        self.attach(name.clone(), v, keep_null);
    }

    fn end(&mut self, tag: &String, keep_null: bool) -> (r: Result<(), ParseError>)
        ensures
            match step(old(self)@, EventModel::End { name: tag@ }, keep_null) {
                Ok(m) => r is Ok && final(self)@ == m,
                Err(e) => r is Err && r->Err_0@ == e,
            },
    {
        self.flush();
        let ghost f = self@;
        let frame = match self.stack.pop() {
            Some(frame) => frame,
            None => {
                return Err(ParseError::UnbalancedTags);
            },
        };
        proof {
            assert(f.stack.last() == frame.model());
            assert(self@.stack =~= f.stack.drop_last());
        }
        let Frame { name, parent, parent_attrs } = frame;
        if name != *tag {
            return Err(ParseError::UnbalancedTags);
        }
        let ghost fr = f.stack.last();
        let mut obj = match self.current.take() {
            Some(Value::Object(m)) => m,
            Some(v) => vec![(text_key_string(), v)],
            None => Vec::new(),
        };
        let ghost obj_model = match f.current {
            Some(Tree::Object(m)) => m,
            Some(v) => seq![(text_key(), v)],
            None => Seq::empty(),
        };
        proof {
            lemma_entries_index(obj@);
            assert(entries_of(obj@) =~= obj_model);
        }
        let mut attrs = parent_attrs;
        std::mem::swap(&mut attrs, &mut self.attrs);
        merge_attributes(&mut obj, attrs);
        self.current = parent;
        let ghost merged = merge_entries(obj_model, f.attrs);
        let ghost resumed = ParseModel {
            stack: f.stack.drop_last(),
            current: fr.parent,
            attrs: fr.parent_attrs,
            ..f
        };
        assert(self@ == resumed);
        proof {
            lemma_entries_index(obj@);
        }
        let tk = text_key_string();
        let v = if obj.len() == 1 && obj[0].0 == tk {
            let (_, v) = obj.pop().unwrap();
            v
        } else {
            Value::Object(obj)
        };
        assert(v@ == element_value(f.current, f.attrs));
        self.attach(name, v, keep_null);
        Ok(())
    }
}

impl ParseState {
    fn push_reference(&mut self, name: &String)
        ensures
            final(self)@ == (ParseModel { text: old(self)@.text + reference_text(name@), ..old(self)@ }),
    {
        let n = name.as_str();
        let ghost before = self.text@;
        if !n.is_empty() && n.get_char(0) == '#' {
            match resolve_char_reference(n) {
                Some(c) => {
                    push_char(&mut self.text, c);
                    assert(self.text@ =~= before + seq![c]);
                },
                None => {
                    assert(self.text@ =~= before + Seq::<char>::empty());
                },
            }
        } else {
            match resolve_entity(n) {
                Some(t) => self.text.append(t.as_str()),
                None => {
                    assert(self.text@ =~= before + Seq::<char>::empty());
                },
            }
        }
        proof {
            assert(self@.stack =~= old(self)@.stack);
        }
    }

    /// Feeds one event to the engine.
    pub fn feed(&mut self, ev: &XmlEvent, keep_null: bool) -> (r: Result<(), ParseError>)
        ensures
            match step(old(self)@, ev@, keep_null) {
                Ok(m) => r is Ok && final(self)@ == m,
                Err(e) => r is Err && r->Err_0@ == e,
            },
    {
        let at_top = self.stack.len() == 0 && self.root_name.is_some();
        match ev {
            XmlEvent::Start { name, attributes } => {
                if at_top {
                    return Err(ParseError::UnbalancedTags);
                }
                self.start(name, attributes);
                Ok(())
            },
            XmlEvent::Empty { name, attributes } => {
                if at_top {
                    return Err(ParseError::UnbalancedTags);
                }
                self.empty_element(name, attributes, keep_null);
                Ok(())
            },
            XmlEvent::End { name } => self.end(name, keep_null),
            XmlEvent::Text { content } => {
                self.text.append(content.as_str());
                proof {
                    assert(self@.stack =~= old(self)@.stack);
                }
                Ok(())
            },
            XmlEvent::Reference { name } => {
                self.push_reference(name);
                Ok(())
            },
            XmlEvent::Malformed { position, message } => Err(
                ParseError::MalformedXml { position: *position, message: message.clone() },
            ),
            XmlEvent::Other => Ok(()),
        }
    }

    /// The document's tree once every event is fed: the root's name mapped to
    /// its content.
    pub fn finish(self) -> (r: Result<Value, ParseError>)
        ensures
            result_view(r) == finish(self@),
    {
        if self.stack.len() > 0 {
            return Err(ParseError::UnbalancedTags);
        }
        match self.root {
            Some(content) => {
                let name = match self.root_name {
                    Some(n) => n,
                    None => String::new(),
                };
                let entries = vec![(name, content)];
                proof {
                    lemma_entries_index(entries@);
                    assert(entries_of(entries@) =~= seq![(name@, content@)]);
                }
                Ok(Value::Object(entries))
            },
            None => Err(ParseError::EmptyDocument),
        }
    }
}

/// Builds the value tree of a document from its events.
pub fn parse_events(events: &Vec<XmlEvent>, keep_null: bool) -> (r: Result<Value, ParseError>)
    ensures
        result_view(r) == parse_model(event_models(events@), keep_null),
{
    let mut state = ParseState::new();
    let mut i: usize = 0;
    proof {
        assert(event_models(events@).take(0) =~= Seq::<EventModel>::empty());
    }
    while i < events.len()
        invariant
            i <= events.len(),
            run_events(event_models(events@).take(i as int), keep_null) == Ok::<
                ParseModel,
                ParseFailure,
            >(
                state@,
            ),
        decreases events.len() - i,
    {
        let r = state.feed(&events[i], keep_null);
        proof {
            let em = event_models(events@);
            assert(em.take(i + 1).drop_last() =~= em.take(i as int));
            assert(em.take(i + 1).last() == events@[i as int]@);
        }
        match r {
            Ok(()) => {},
            Err(e) => {
                proof {
                    lemma_run_failure_sticks(event_models(events@), i as int + 1, keep_null);
                }
                return Err(e);
            },
        }
        i = i + 1;
    }
    proof {
        assert(event_models(events@).take(i as int) =~= event_models(events@));
    }
    state.finish()
}

/// Once a prefix of the events fails, the whole sequence fails the same way.
pub proof fn lemma_run_failure_sticks(evs: Seq<EventModel>, n: int, keep_null: bool)
    requires
        0 <= n <= evs.len(),
        run_events(evs.take(n), keep_null) is Err,
    ensures
        run_events(evs, keep_null) == run_events(evs.take(n), keep_null),
    decreases evs.len() - n,
{
    if n < evs.len() {
        assert(evs.take(n + 1).drop_last() =~= evs.take(n));
        lemma_run_failure_sticks(evs, n + 1, keep_null);
    } else {
        assert(evs.take(n) =~= evs);
    }
}

} // verus!