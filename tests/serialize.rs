use openspeleo_core::ariane::{dict_to_xml_str, xml_str_to_dict};
use openspeleo_core::serialize::SerializeError;
use openspeleo_core::value::{Number, Value};

const DECL: &str = "<?xml version=\"1.0\" encoding=\"utf-8\"?>";

fn s(t: &str) -> Value {
    Value::String(t.to_string())
}

fn obj(entries: Vec<(&str, Value)>) -> Value {
    Value::Object(entries.into_iter().map(|(k, v)| (k.to_string(), v)).collect())
}

fn doc(body: &str) -> String {
    format!("{}{}", DECL, body)
}

#[test]
fn attributes_only_is_self_closing() {
    let v = obj(vec![("r", obj(vec![("@id", s("7"))]))]);
    assert_eq!(dict_to_xml_str(&v, "r"), Ok(doc("<r id=\"7\"/>")));
}

#[test]
fn null_is_self_closing() {
    let v = obj(vec![("r", Value::Null)]);
    assert_eq!(dict_to_xml_str(&v, "r"), Ok(doc("<r/>")));
}

#[test]
fn empty_string_is_not_self_closing() {
    let v = obj(vec![("r", s(""))]);
    assert_eq!(dict_to_xml_str(&v, "r"), Ok(doc("<r></r>")));
}

#[test]
fn text_and_children_in_order() {
    let v = obj(vec![(
        "r",
        obj(vec![("@a", s("1")), ("#text", s("t")), ("x", s("1")), ("y", Value::Null)]),
    )]);
    assert_eq!(dict_to_xml_str(&v, "r"), Ok(doc("<r a=\"1\">t<x>1</x><y/></r>")));
}

#[test]
fn arrays_repeat_siblings() {
    let v = obj(vec![("r", obj(vec![("x", Value::Array(vec![s("1"), s("2")]))]))]);
    assert_eq!(dict_to_xml_str(&v, "r"), Ok(doc("<r><x>1</x><x>2</x></r>")));
}

#[test]
fn top_level_array_repeats_root() {
    let v = Value::Array(vec![s("a"), s("b")]);
    assert_eq!(dict_to_xml_str(&v, "r"), Ok(doc("<r>a</r><r>b</r>")));
}

#[test]
fn other_tree_written_whole() {
    let v = obj(vec![("a", s("1"))]);
    assert_eq!(dict_to_xml_str(&v, "r"), Ok(doc("<r><a>1</a></r>")));
}

#[test]
fn text_is_escaped() {
    let v = obj(vec![("r", obj(vec![("@q", s("\"<&>'")), ("#text", s("a & b < c"))]))]);
    let expected = doc("<r q=\"&quot;&lt;&amp;&gt;&apos;\">a &amp; b &lt; c</r>");
    assert_eq!(dict_to_xml_str(&v, "r"), Ok(expected));
}

#[test]
fn numbers_and_booleans() {
    let v = obj(vec![(
        "r",
        obj(vec![
            ("p", Value::Number(Number::PosInt(3))),
            ("n", Value::Number(Number::NegInt(-42))),
            ("f", Value::Number(Number::Float("2.5".to_string()))),
            ("b", Value::Bool(true)),
            ("c", Value::Bool(false)),
            ("@big", Value::Number(Number::PosInt(18446744073709551615))),
        ]),
    )]);
    let expected = doc(
        "<r big=\"18446744073709551615\"><p>3</p><n>-42</n><f>2.5</f><b>true</b><c>false</c></r>",
    );
    assert_eq!(dict_to_xml_str(&v, "r"), Ok(expected));
}

#[test]
fn list_attribute_is_unsupported() {
    let v = obj(vec![("r", obj(vec![("@id", Value::Array(vec![s("1")]))]))]);
    assert_eq!(dict_to_xml_str(&v, "r"), Err(SerializeError::UnsupportedValueShape));
}

#[test]
fn map_text_is_unsupported() {
    let v = obj(vec![("r", obj(vec![("x", obj(vec![("#text", obj(vec![]))]))]))]);
    assert_eq!(dict_to_xml_str(&v, "r"), Err(SerializeError::UnsupportedValueShape));
}

#[test]
fn round_trip_keeps_the_tree() {
    let xml = "<r id=\"7\"><a>x &amp; y</a><a/><b k=\"v\">t</b><c><d>1</d></c><e/></r>";
    let v = xml_str_to_dict(xml, true).unwrap();
    let out = dict_to_xml_str(&v, "r").unwrap();
    assert_eq!(xml_str_to_dict(&out, true), Ok(v));
}

#[test]
fn round_trip_written_form() {
    let v = xml_str_to_dict("<r><x>1</x><x>2</x></r>", true).unwrap();
    assert_eq!(dict_to_xml_str(&v, "r"), Ok(doc("<r><x>1</x><x>2</x></r>")));
}

#[test]
fn attribute_tab_and_newline_are_escaped() {
    let v = obj(vec![("r", obj(vec![("@a", s("x\ty\nz")), ("#text", s("t"))]))]);
    let out = dict_to_xml_str(&v, "r").unwrap();
    assert_eq!(out, doc("<r a=\"x&#9;y&#10;z\">t</r>"));
    let back = xml_str_to_dict(&out, true).unwrap();
    assert_eq!(back, obj(vec![("r", obj(vec![("#text", s("t")), ("@a", s("x\ty\nz"))]))]));
}
