use vstd::prelude::*;
use vstd::string::StrSliceExecFns;
use vstd::string::StringExecFns;

verus! {

/// The decimal digit character for `d`, which is below ten.
pub open spec fn digit_char(d: int) -> char {
    if d == 0 {
        '0'
    } else if d == 1 {
        '1'
    } else if d == 2 {
        '2'
    } else if d == 3 {
        '3'
    } else if d == 4 {
        '4'
    } else if d == 5 {
        '5'
    } else if d == 6 {
        '6'
    } else if d == 7 {
        '7'
    } else if d == 8 {
        '8'
    } else {
        '9'
    }
}

/// The decimal representation of a natural number, without leading zeros.
pub open spec fn decimal(n: nat) -> Seq<char>
    decreases n,
{
    if n < 10 {
        seq![digit_char(n as int)]
    } else {
        decimal(n / 10).push(digit_char((n % 10) as int))
    }
}

/// The decimal representation of an integer, with a leading minus sign if it is negative.
pub open spec fn signed_decimal(v: int) -> Seq<char> {
    if v < 0 {
        seq!['-'] + decimal((-v) as nat)
    } else {
        decimal(v as nat)
    }
}

/// XML element of the given type holding `text`, followed by a line break.
pub open spec fn element(tag_name: Seq<char>, kind: Seq<char>, text: Seq<char>) -> Seq<char> {
    "<"@ + tag_name + " type=\""@ + kind + "\">"@ + text + "</"@ + tag_name + ">\n"@
}

/// The XML element for a string value, its text wrapped in a CDATA section.
pub open spec fn string_element(tag_name: Seq<char>, value: Seq<char>) -> Seq<char> {
    element(tag_name, "String"@, "<![CDATA["@ + value + "]]>"@)
}

fn digit_str(d: u64) -> (r: &'static str)
    requires
        d < 10,
    ensures
        r@ == seq![digit_char(d as int)],
{
    if d == 0 {
        proof { reveal_strlit("0"); }
        "0"
    } else if d == 1 {
        proof { reveal_strlit("1"); }
        "1"
    } else if d == 2 {
        proof { reveal_strlit("2"); }
        "2"
    } else if d == 3 {
        proof { reveal_strlit("3"); }
        "3"
    } else if d == 4 {
        proof { reveal_strlit("4"); }
        "4"
    } else if d == 5 {
        proof { reveal_strlit("5"); }
        "5"
    } else if d == 6 {
        proof { reveal_strlit("6"); }
        "6"
    } else if d == 7 {
        proof { reveal_strlit("7"); }
        "7"
    } else if d == 8 {
        proof { reveal_strlit("8"); }
        "8"
    } else {
        proof { reveal_strlit("9"); }
        "9"
    }
}

/// The decimal representation of an unsigned integer.
pub fn u64_to_decimal(v: u64) -> (r: String)
    ensures
        r@ == decimal(v as nat),
    decreases v,
{
    if v < 10 {
        String::from_str(digit_str(v))
    } else {
        let mut s = u64_to_decimal(v / 10);
        s.append(digit_str(v % 10));
        s
    }
}

/// The decimal representation of a signed integer.
pub fn i64_to_decimal(v: i64) -> (r: String)
    ensures
        r@ == signed_decimal(v as int),
{
    if v < 0 {
        let magnitude: u64 = (0i128 - v as i128) as u64;
        proof { reveal_strlit("-"); }
        String::from_str("-").concat(u64_to_decimal(magnitude).as_str())
    } else {
        u64_to_decimal(v as u64)
    }
}

/// Appends an XML element of the given type with the given text to `xml`.
fn append_element(xml: &mut String, tag_name: &str, kind: &str, text: &str)
    ensures
        final(xml)@ == old(xml)@ + element(tag_name@, kind@, text@),
{
    xml.append("<");
    xml.append(tag_name);
    xml.append(" type=\"");
    xml.append(kind);
    xml.append("\">");
    xml.append(text);
    xml.append("</");
    xml.append(tag_name);
    xml.append(">\n");
    assert(xml@ =~= old(xml)@ + element(tag_name@, kind@, text@));
}

/// Generates the XML element of a string value.
pub fn gen_string(tag_name: &str, value: &str) -> (r: String)
    ensures
        r@ == string_element(tag_name@, value@),
{
    let mut text = String::from_str("<![CDATA[");
    text.append(value);
    text.append("]]>");
    let mut xml = String::new();
    append_element(&mut xml, tag_name, "String", text.as_str());
    assert(xml@ =~= string_element(tag_name@, value@));
    xml
}

/// Generates the XML element of a floating point value from its decimal text.
pub fn gen_float(tag_name: &str, value: &str) -> (r: String)
    ensures
        r@ == element(tag_name@, "Float"@, value@),
{
    let mut xml = String::new();
    append_element(&mut xml, tag_name, "Float", value);
    assert(xml@ =~= element(tag_name@, "Float"@, value@));
    xml
}

/// Generates the XML element of an integer value.
pub fn gen_int(tag_name: &str, value: i64) -> (r: String)
    ensures
        r@ == element(tag_name@, "Integer"@, signed_decimal(value as int)),
{
    let text = i64_to_decimal(value);
    let mut xml = String::new();
    append_element(&mut xml, tag_name, "Integer", text.as_str());
    assert(xml@ =~= element(tag_name@, "Integer"@, signed_decimal(value as int)));
    xml
}

} // verus!
