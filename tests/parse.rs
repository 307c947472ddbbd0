use openspeleo_core::ariane::xml_str_to_dict;
use openspeleo_core::events::XmlEvent;
use openspeleo_core::parse::{parse_events, ParseError, ParseState};
use openspeleo_core::value::{Number, Value};

fn s(t: &str) -> Value {
    Value::String(t.to_string())
}

fn obj(entries: Vec<(&str, Value)>) -> Value {
    Value::Object(entries.into_iter().map(|(k, v)| (k.to_string(), v)).collect())
}

fn start(name: &str, attributes: Vec<(&str, &str)>) -> XmlEvent {
    XmlEvent::Start {
        name: name.to_string(),
        attributes: attributes.into_iter().map(|(k, v)| (k.to_string(), v.to_string())).collect(),
    }
}

fn end(name: &str) -> XmlEvent {
    XmlEvent::End { name: name.to_string() }
}

fn text(t: &str) -> XmlEvent {
    XmlEvent::Text { content: t.to_string() }
}

fn reference(name: &str) -> XmlEvent {
    XmlEvent::Reference { name: name.to_string() }
}

#[test]
fn self_closing_root_keeps_null() {
    assert_eq!(xml_str_to_dict("<a/>", true), Ok(obj(vec![("a", Value::Null)])));
}

#[test]
fn self_closing_root_dropped_without_keep_null() {
    assert_eq!(xml_str_to_dict("<a/>", false), Err(ParseError::EmptyDocument));
}

#[test]
fn empty_child_omitted_without_keep_null() {
    let r = xml_str_to_dict("<r id=\"1\"><a/><b>x</b></r>", false);
    assert_eq!(r, Ok(obj(vec![("r", obj(vec![("b", s("x")), ("@id", s("1"))]))])));
}

#[test]
fn empty_child_kept_as_null() {
    let r = xml_str_to_dict("<r><a/></r>", true);
    assert_eq!(r, Ok(obj(vec![("r", obj(vec![("a", Value::Null)]))])));
}

#[test]
fn empty_element_with_attributes_is_a_map() {
    let r = xml_str_to_dict("<r><a k=\"v\"/><b>1</b></r>", false);
    assert_eq!(r, Ok(obj(vec![("r", obj(vec![("a", obj(vec![("@k", s("v"))])), ("b", s("1"))]))])));
}

#[test]
fn text_stays_a_string() {
    assert_eq!(xml_str_to_dict("<a>5</a>", true), Ok(obj(vec![("a", s("5"))])));
    assert_eq!(xml_str_to_dict("<a>true</a>", true), Ok(obj(vec![("a", s("true"))])));
}

#[test]
fn duplicate_siblings_coalesce() {
    let r = xml_str_to_dict("<r><x>1</x><x>2</x></r>", true);
    assert_eq!(r, Ok(obj(vec![("r", obj(vec![("x", Value::Array(vec![s("1"), s("2")]))]))])));
}

#[test]
fn three_siblings_append() {
    let r = xml_str_to_dict("<r><x>1</x><y>a</y><x>2</x><x>3</x></r>", true);
    let xs = Value::Array(vec![s("1"), s("2"), s("3")]);
    assert_eq!(r, Ok(obj(vec![("r", obj(vec![("x", xs), ("y", s("a"))]))])));
}

#[test]
fn attributes_merge_with_text() {
    let r = xml_str_to_dict("<r id=\"7\">hi</r>", true);
    assert_eq!(r, Ok(obj(vec![("r", obj(vec![("#text", s("hi")), ("@id", s("7"))]))])));
}

#[test]
fn entity_reference_in_text() {
    assert_eq!(xml_str_to_dict("<r>a &amp; b</r>", true), Ok(obj(vec![("r", s("a & b"))])));
}

#[test]
fn character_references_in_text() {
    assert_eq!(xml_str_to_dict("<r>&#65;&#x42;c</r>", true), Ok(obj(vec![("r", s("ABc"))])));
}

#[test]
fn entity_in_attribute_value() {
    let r = xml_str_to_dict("<r a=\"x &lt; y\"/>", false);
    assert_eq!(r, Ok(obj(vec![("r", obj(vec![("@a", s("x < y"))]))])));
}

#[test]
fn mismatched_tags_fail() {
    let r = xml_str_to_dict("<a><b></a>", true);
    assert!(matches!(r, Err(ParseError::MalformedXml { .. }) | Err(ParseError::UnbalancedTags)));
}

#[test]
fn whitespace_only_is_empty_document() {
    assert_eq!(xml_str_to_dict("   ", true), Err(ParseError::EmptyDocument));
    assert_eq!(xml_str_to_dict("", false), Err(ParseError::EmptyDocument));
}

#[test]
fn surrounding_whitespace_is_trimmed() {
    let r = xml_str_to_dict("<r>\n  <x>  padded  </x>\n</r>", true);
    assert_eq!(r, Ok(obj(vec![("r", obj(vec![("x", s("padded"))]))])));
}

#[test]
fn nested_document() {
    let xml = "<?xml version=\"1.0\"?><doc><item n=\"1\"><name>A</name></item><item n=\"2\"/></doc>";
    let r = xml_str_to_dict(xml, true);
    let first = obj(vec![("name", s("A")), ("@n", s("1"))]);
    let expected = obj(vec![("doc", obj(vec![("item", Value::Array(vec![first, Value::Null]))]))]);
    assert_eq!(r, Ok(expected));
}

#[test]
fn events_text_split_by_reference_keeps_inner_spaces() {
    let evs = vec![start("r", vec![]), text("  a "), reference("amp"), text(" b  "), end("r")];
    assert_eq!(parse_events(&evs, true), Ok(obj(vec![("r", s("a & b"))])));
}

#[test]
fn events_unknown_reference_dropped() {
    let evs = vec![start("r", vec![]), text("x"), reference("nbsp"), text("y"), end("r")];
    assert_eq!(parse_events(&evs, true), Ok(obj(vec![("r", s("xy"))])));
}

#[test]
fn events_character_reference() {
    let evs = vec![start("r", vec![]), reference("#x263A"), end("r")];
    assert_eq!(parse_events(&evs, true), Ok(obj(vec![("r", s("\u{263A}"))])));
}

#[test]
fn events_end_without_start_is_unbalanced() {
    let evs = vec![start("r", vec![]), end("r"), end("r")];
    assert_eq!(parse_events(&evs, true), Err(ParseError::UnbalancedTags));
}

#[test]
fn events_malformed_is_reported() {
    let evs = vec![
        start("r", vec![]),
        XmlEvent::Malformed { position: 4, message: "bad".to_string() },
    ];
    let r = parse_events(&evs, true);
    assert_eq!(r, Err(ParseError::MalformedXml { position: 4, message: "bad".to_string() }));
}

#[test]
fn events_repeated_attribute_keeps_last() {
    let evs = vec![start("r", vec![("a", "1"), ("a", "2")]), end("r")];
    assert_eq!(parse_events(&evs, false), Ok(obj(vec![("r", obj(vec![("@a", s("2"))]))])));
}

#[test]
fn events_empty_root_map_dropped_without_keep_null() {
    let evs = vec![start("r", vec![]), end("r")];
    assert_eq!(parse_events(&evs, false), Err(ParseError::EmptyDocument));
    assert_eq!(parse_events(&evs, true), Ok(obj(vec![("r", obj(vec![]))])));
}

#[test]
fn events_other_events_ignored() {
    let evs = vec![XmlEvent::Other, start("r", vec![]), XmlEvent::Other, text("t"), end("r")];
    assert_eq!(parse_events(&evs, true), Ok(obj(vec![("r", s("t"))])));
}

#[test]
fn state_fed_step_by_step() {
    let mut st = ParseState::new();
    assert_eq!(st.feed(&start("a", vec![]), true), Ok(()));
    assert_eq!(st.feed(&text("z"), true), Ok(()));
    assert_eq!(st.feed(&end("a"), true), Ok(()));
    assert_eq!(st.finish(), Ok(obj(vec![("a", s("z"))])));
}

#[test]
fn number_values_compare() {
    assert_ne!(Value::Number(Number::PosInt(3)), s("3"));
}

#[test]
fn unclosed_element_fails() {
    assert_eq!(xml_str_to_dict("<r><b></b>", true), Err(ParseError::UnbalancedTags));
}

#[test]
fn second_root_element_fails() {
    assert_eq!(xml_str_to_dict("<a/><b>", true), Err(ParseError::UnbalancedTags));
    assert_eq!(xml_str_to_dict("<a>1</a><b>2</b>", true), Err(ParseError::UnbalancedTags));
}

#[test]
fn events_end_name_must_match() {
    let evs = vec![start("a", vec![]), start("b", vec![]), end("a")];
    assert_eq!(parse_events(&evs, true), Err(ParseError::UnbalancedTags));
}

#[test]
fn events_open_element_at_end_fails() {
    let evs = vec![start("a", vec![]), start("b", vec![]), end("b")];
    assert_eq!(parse_events(&evs, true), Err(ParseError::UnbalancedTags));
}

#[test]
fn truncated_tag_is_malformed() {
    assert!(matches!(xml_str_to_dict("<a><b", true), Err(ParseError::MalformedXml { .. })));
}

#[test]
fn events_invalid_character_references_dropped() {
    let evs = vec![
        start("r", vec![]),
        text("a"),
        reference("#0"),
        reference("#xD800"),
        reference("#x110000"),
        reference("#+65"),
        reference("#x"),
        reference("#X41"),
        text("b"),
        end("r"),
    ];
    assert_eq!(parse_events(&evs, true), Ok(obj(vec![("r", s("ab"))])));
}

#[test]
fn events_decimal_and_hex_references() {
    let evs = vec![start("r", vec![]), reference("#0065"), reference("#x4a"), reference("#x4A"), end("r")];
    assert_eq!(parse_events(&evs, true), Ok(obj(vec![("r", s("AJJ"))])));
}

#[test]
fn events_unicode_white_space_is_trimmed() {
    let evs = vec![start("r", vec![]), text("\u{3000}\u{A0} x y\u{2028}\t"), end("r")];
    assert_eq!(parse_events(&evs, true), Ok(obj(vec![("r", s("x y"))])));
}
