use quick_xml::events::{BytesStart, Event};
use quick_xml::Reader;
use vstd::prelude::*;

verus! {

/// One structural event of an XML document, as the tokenizer reports it.
#[derive(Debug, Clone, PartialEq)]
pub enum XmlEvent {
    /// An opening tag `<name a="v">`, with its attributes (values unescaped).
    Start { name: String, attributes: Vec<(String, String)> },
    /// A self-closing tag `<name a="v"/>`.
    Empty { name: String, attributes: Vec<(String, String)> },
    /// A closing tag `</name>`.
    End { name: String },
    /// A run of literal character data.
    Text { content: String },
    /// A reference `&name;` in character data (`amp`, `#65`, `#x41`, ...).
    Reference { name: String },
    /// The tokenizer found a syntax error at the given byte offset.
    Malformed { position: u64, message: String },
    /// Any other event: declaration, comment, processing instruction, CDATA,
    /// document type.
    Other,
}

/// The mathematical model of an [`XmlEvent`].
pub ghost enum EventModel {
    Start { name: Seq<char>, attributes: Seq<(Seq<char>, Seq<char>)> },
    Empty { name: Seq<char>, attributes: Seq<(Seq<char>, Seq<char>)> },
    End { name: Seq<char> },
    Text { content: Seq<char> },
    Reference { name: Seq<char> },
    Malformed { position: u64, message: Seq<char> },
    Other,
}

pub open spec fn attribute_pairs(a: Seq<(String, String)>) -> Seq<(Seq<char>, Seq<char>)> {
    a.map_values(|p: (String, String)| (p.0@, p.1@))
}

impl View for XmlEvent {
    type V = EventModel;

    open spec fn view(&self) -> EventModel {
        match self {
            XmlEvent::Start { name, attributes } => EventModel::Start {
                name: name@,
                attributes: attribute_pairs(attributes@),
            },
            XmlEvent::Empty { name, attributes } => EventModel::Empty {
                name: name@,
                attributes: attribute_pairs(attributes@),
            },
            XmlEvent::End { name } => EventModel::End { name: name@ },
            XmlEvent::Text { content } => EventModel::Text { content: content@ },
            XmlEvent::Reference { name } => EventModel::Reference { name: name@ },
            XmlEvent::Malformed { position, message } => EventModel::Malformed {
                position: *position,
                message: message@,
            },
            XmlEvent::Other => EventModel::Other,
        }
    }
}

pub open spec fn event_models(evs: Seq<XmlEvent>) -> Seq<EventModel> {
    evs.map_values(|e: XmlEvent| e@)
}

#[verifier::external_type_specification]
#[verifier::external_body]
pub struct ExBytesStart<'i>(BytesStart<'i>);

#[verifier::external_type_specification]
#[verifier::external_body]
pub struct ExEvent<'i>(Event<'i>);

/// The events that quick-xml's tokenizer, in its default configuration,
/// reports for the document `xml`, in order, up to the end of the input; a
/// syntax error it reports is the last event.
pub uninterp spec fn xml_events(xml: Seq<char>) -> Seq<EventModel>;

/// Relies on `quick_xml::Reader::from_str` and `Reader::read_event`: the
/// events of `xml` in document order, up to the end of the input or the first
/// syntax error, which comes last with its byte offset and message.
#[verifier::external_body]
pub(crate) fn tokenize(xml: &str) -> (r: Vec<XmlEvent>)
    ensures
        event_models(r@) == xml_events(xml@),
{
    let mut reader = Reader::from_str(xml);
    let mut events = Vec::new();
    loop {
        match reader.read_event() {
            Ok(Event::Eof) => return events,
            Ok(e) => events.push(event_of(e)),
            Err(e) => {
                let position = reader.error_position();
                events.push(XmlEvent::Malformed { position, message: e.to_string() });
                return events;
            },
        }
    }
}

/// Converts one event that `tokenize` read: the name and attributes of a
/// tag, the text of a run of character data with its line ends normalized
/// (`quick_xml::events::BytesText::xml10_content`), the name of a reference.
#[verifier::external_body]
fn event_of(e: Event) -> XmlEvent {
    match e {
        Event::Start(e) => XmlEvent::Start { name: e.name().into_inner().to_string(), attributes: tag_attributes(&e) },
        Event::Empty(e) => XmlEvent::Empty { name: e.name().into_inner().to_string(), attributes: tag_attributes(&e) },
        Event::End(e) => XmlEvent::End { name: e.name().into_inner().to_string() },
        Event::Text(e) => XmlEvent::Text { content: e.xml10_content().into_owned() },
        Event::GeneralRef(e) => XmlEvent::Reference { name: e.into_inner().into_owned() },
        _ => XmlEvent::Other,
    }
}

/// Relies on `quick_xml::events::BytesStart::attributes` and
/// `Attribute::normalized_value`: the attributes of a tag in document order,
/// with their values unescaped and normalized as XML 1.0 prescribes; an
/// attribute that does not parse is left out, and one whose value does not
/// unescape gets the empty value.
#[verifier::external_body]
fn tag_attributes(e: &BytesStart) -> Vec<(String, String)> {
    e.attributes().filter_map(|a| a.ok()).map(|a| {
        let value = a.normalized_value(quick_xml::XmlVersion::Implicit1_0);
        (a.key.into_inner().to_string(), value.map(|v| v.into_owned()).unwrap_or_default())
    }).collect()
}

} // verus!
