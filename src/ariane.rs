use crate::events::{tokenize, xml_events};
use crate::parse::{parse_events, parse_model, result_view, ParseError};
use crate::serialize::{document_text, write_element, SerializeError};
use crate::value::{lemma_entries_index, Value};
use vstd::prelude::*;
use vstd::string::StringExecFns;

verus! {

/// Parses an XML document into its value tree. With `keep_null`, empty
/// elements are kept as nulls; without it, elements that are empty and carry
/// no attributes are left out.
///
/// The result is the engine's result on the events that the tokenizer
/// reports for `xml`.
pub fn xml_str_to_dict(xml: &str, keep_null: bool) -> (r: Result<Value, ParseError>)
    ensures
        result_view(r) == parse_model(xml_events(xml@), keep_null),
{
    let events = tokenize(xml);
    parse_events(&events, keep_null)
}

/// Writes a value tree as an XML document whose root element is
/// `root_name`. A tree `{root_name: content}`, as parsing yields it, writes
/// `content` as the root element; any other tree is written whole.
pub fn dict_to_xml_str(data: &Value, root_name: &str) -> (r: Result<String, SerializeError>)
    ensures
        match document_text(data@, root_name@) {
            Some(t) => r is Ok && r->Ok_0@ == t,
            None => r is Err,
        },
{
    let mut out = String::from_str("<?xml version=\"1.0\" encoding=\"utf-8\"?>");
    let name = String::from_str(root_name);
    let content = match data {
        Value::Object(es) => {
            proof {
                lemma_entries_index(es@);
            }
            if es.len() == 1 && es[0].0 == name {
                &es[0].1
            } else {
                data
            }
        },
        _ => data,
    };
    match write_element(content, root_name, &mut out) {
        Ok(()) => Ok(out),
        Err(e) => Err(e),
    }
}

} // verus!