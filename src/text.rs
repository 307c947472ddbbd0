use vstd::prelude::*;

verus! {

/// The characters with the Unicode `White_Space` property, which
/// `char::is_whitespace` tests.
pub open spec fn is_white_space(c: char) -> bool {
    let u = c as u32;
    ||| 0x09 <= u <= 0x0D
    ||| u == 0x20
    ||| u == 0x85
    ||| u == 0xA0
    ||| u == 0x1680
    ||| 0x2000 <= u <= 0x200A
    ||| u == 0x2028
    ||| u == 0x2029
    ||| u == 0x202F
    ||| u == 0x205F
    ||| u == 0x3000
}

/// A string without its leading white space.
pub open spec fn trim_start_of(s: Seq<char>) -> Seq<char>
    decreases s.len(),
{
    if s.len() > 0 && is_white_space(s[0]) {
        trim_start_of(s.drop_first())
    } else {
        s
    }
}

/// A string without its trailing white space.
pub open spec fn trim_end_of(s: Seq<char>) -> Seq<char>
    decreases s.len(),
{
    if s.len() > 0 && is_white_space(s.last()) {
        trim_end_of(s.drop_last())
    } else {
        s
    }
}

/// What `str::trim` leaves of a string: the characters without the leading
/// and trailing white space.
pub open spec fn trim_of(s: Seq<char>) -> Seq<char> {
    trim_end_of(trim_start_of(s))
}

/// Relies on `str::trim`: removes the leading and trailing characters for
/// which `char::is_whitespace` holds.
#[verifier::external_body]
pub(crate) fn trim_text(s: &str) -> (r: String)
    ensures
        r@ == trim_of(s@),
{
    s.trim().to_string()
}

/// Relies on `String::push`: appends one character.
#[verifier::external_body]
pub(crate) fn push_char(s: &mut String, c: char)
    ensures
        final(s)@ == old(s)@.push(c),
{
    s.push(c)
}

/// The replacement text of the five entities that XML predefines.
pub open spec fn predefined_entity(name: Seq<char>) -> Option<Seq<char>> {
    if name == seq!['l', 't'] {
        Some(seq!['<'])
    } else if name == seq!['g', 't'] {
        Some(seq!['>'])
    } else if name == seq!['a', 'm', 'p'] {
        Some(seq!['&'])
    } else if name == seq!['a', 'p', 'o', 's'] {
        Some(seq!['\''])
    } else if name == seq!['q', 'u', 'o', 't'] {
        Some(seq!['"'])
    } else {
        None
    }
}

/// Relies on `quick_xml::escape::resolve_xml_entity`: the replacement of
/// `lt`, `gt`, `amp`, `apos` and `quot`, and nothing for any other name.
#[verifier::external_body]
pub(crate) fn resolve_entity(name: &str) -> (r: Option<String>)
    ensures
        match r {
            Some(t) => predefined_entity(name@) == Some(t@),
            None => predefined_entity(name@) is None,
        },
{
    quick_xml::escape::resolve_xml_entity(name).map(|t| t.to_string())
}

/// The value of one digit in base `radix` (10 or 16).
pub open spec fn digit_value(c: char, radix: nat) -> Option<nat> {
    let u = c as u32;
    if 0x30 <= u <= 0x39 {
        Some((u - 0x30) as nat)
    } else if radix == 16 && 0x61 <= u <= 0x66 {
        Some((u - 0x61 + 10) as nat)
    } else if radix == 16 && 0x41 <= u <= 0x46 {
        Some((u - 0x41 + 10) as nat)
    } else {
        None
    }
}

/// The number that a non-empty run of digits in base `radix` writes.
pub open spec fn number_of(s: Seq<char>, radix: nat) -> Option<nat>
    decreases s.len(),
{
    if s.len() == 0 {
        None
    } else if s.len() == 1 {
        digit_value(s[0], radix)
    } else {
        match (number_of(s.drop_last(), radix), digit_value(s.last(), radix)) {
            (Some(a), Some(d)) => Some(a * radix + d),
            _ => None,
        }
    }
}

/// The code point that a character reference `#65` or `#x41` writes.
pub open spec fn char_ref_code(name: Seq<char>) -> Option<nat> {
    if name.len() == 0 || name[0] != '#' {
        None
    } else {
        let digits = name.drop_first();
        if digits.len() > 0 && digits[0] == 'x' {
            number_of(digits.drop_first(), 16)
        } else {
            number_of(digits, 10)
        }
    }
}

/// A code point that names a character: not zero, not a surrogate, at most
/// `0x10FFFF`.
pub open spec fn is_char_code(n: nat) -> bool {
    0 < n <= 0x10FFFF && !(0xD800 <= n <= 0xDFFF)
}

/// The character that the reference `&name;` stands for, where `name` is a
/// character reference that names a character.
pub open spec fn char_ref_of(name: Seq<char>) -> Option<char> {
    match char_ref_code(name) {
        Some(n) => if is_char_code(n) {
            Some(choose|c: char| #[trigger] (c as u32) == n)
        } else {
            None
        },
        None => None,
    }
}

/// Relies on `quick_xml::events::BytesRef::resolve_char_ref`: for a name
/// `#` followed by decimal digits, or by `x` and hexadecimal digits, the
/// character with that code; nothing for any other name, for a number that
/// names no character, or for zero.
#[verifier::external_body]
pub(crate) fn resolve_char_reference(name: &str) -> (r: Option<char>)
    ensures
        r == char_ref_of(name@),
{
    match quick_xml::events::BytesRef::new(name).resolve_char_ref() {
        Ok(c) => c,
        Err(_) => None,
    }
}

/// The escaped form of one character in XML text or attribute values.
pub open spec fn escape_char(c: char) -> Seq<char> {
    if c == '<' {
        seq!['&', 'l', 't', ';']
    } else if c == '>' {
        seq!['&', 'g', 't', ';']
    } else if c == '&' {
        seq!['&', 'a', 'm', 'p', ';']
    } else if c == '\'' {
        seq!['&', 'a', 'p', 'o', 's', ';']
    } else if c == '"' {
        seq!['&', 'q', 'u', 'o', 't', ';']
    } else if c == '\r' {
        seq!['&', '#', '1', '3', ';']
    } else {
        seq![c]
    }
}

/// The escaped form of a string: each character escaped in turn.
pub open spec fn escaped(s: Seq<char>) -> Seq<char>
    decreases s.len(),
{
    if s.len() == 0 {
        Seq::empty()
    } else {
        escaped(s.drop_last()) + escape_char(s.last())
    }
}

/// Relies on `quick_xml::escape::escape`: replaces `<`, `>`, `&`, `'`, `"`
/// and carriage return by their references and keeps every other character.
#[verifier::external_body]
pub(crate) fn escape_text(s: &str) -> (r: String)
    ensures
        r@ == escaped(s@),
{
    quick_xml::escape::escape(s).into_owned()
}

/// The escaped form of one character in an attribute value: as in text, and
/// tab and line feed as references too.
pub open spec fn escape_attribute_char(c: char) -> Seq<char> {
    if c == '\t' {
        seq!['&', '#', '9', ';']
    } else if c == '\n' {
        seq!['&', '#', '1', '0', ';']
    } else {
        escape_char(c)
    }
}

/// The escaped form of an attribute value: each character escaped in turn.
pub open spec fn attribute_escaped(s: Seq<char>) -> Seq<char>
    decreases s.len(),
{
    if s.len() == 0 {
        Seq::empty()
    } else {
        attribute_escaped(s.drop_last()) + escape_attribute_char(s.last())
    }
}

/// Relies on `quick_xml::events::attributes::Attribute::from` for a
/// `(&str, &str)` pair, which stores the value escaped: `<`, `>`, `&`, `'`,
/// `"`, carriage return, line feed and tab become references, every other
/// character stays.
#[verifier::external_body]
pub(crate) fn escape_attribute_value(s: &str) -> (r: String)
    ensures
        r@ == attribute_escaped(s@),
{
    quick_xml::events::attributes::Attribute::from(("", s)).value.into_owned()
}

pub open spec fn digit_char(d: int) -> char {
    if d == 0 {
        '0'
    } else if d == 1 {
        '1'
    } else if d == 2 {
        '2'
    } else if d == 3 {
        '3'
    } else if d == 4 {
        '4'
    } else if d == 5 {
        '5'
    } else if d == 6 {
        '6'
    } else if d == 7 {
        '7'
    } else if d == 8 {
        '8'
    } else {
        '9'
    }
}

/// The decimal digits of a natural number, without leading zeros.
pub open spec fn decimal(n: nat) -> Seq<char>
    decreases n,
{
    if n < 10 {
        seq![digit_char(n as int)]
    } else {
        decimal(n / 10).push(digit_char((n % 10) as int))
    }
}

/// The decimal rendering of an integer, with a leading `-` when negative.
pub open spec fn signed_decimal(n: int) -> Seq<char> {
    if n < 0 {
        seq!['-'] + decimal((-n) as nat)
    } else {
        decimal(n as nat)
    }
}

/// Relies on `u64::to_string`: the decimal digits of `n`.
#[verifier::external_body]
pub(crate) fn u64_text(n: u64) -> (r: String)
    ensures
        r@ == decimal(n as nat),
{
    n.to_string()
}

/// Relies on `i64::to_string`: the decimal digits of `n`, after a `-` when
/// `n` is negative.
#[verifier::external_body]
pub(crate) fn i64_text(n: i64) -> (r: String)
    ensures
        r@ == signed_decimal(n as int),
{
    n.to_string()
}

} // verus!
