use crate::error::{Error, Result};
use crate::text::str_eq;
use crate::xml::{decimal, digit_char, signed_decimal};
use crate::xml_node::{XmlAttribute, XmlNode};
use vstd::prelude::*;
use vstd::string::StrSliceExecFns;
use vstd::string::StringExecFns;

verus! {

/// Value of a sequence of decimal digits.
pub open spec fn digits_value(s: Seq<char>) -> int
    decreases s.len(),
{
    if s.len() == 0 {
        0
    } else {
        digits_value(s.drop_last()) * 10 + (s.last() as int - '0' as int)
    }
}

/// All characters are ASCII decimal digits.
pub open spec fn all_digits(s: Seq<char>) -> bool {
    forall|i: int| 0 <= i < s.len() ==> '0' <= #[trigger] s[i] && s[i] <= '9'
}

/// The integer that a decimal text stands for, as Rust parses integers: an optional sign, a
/// minus only for signed types, followed by at least one digit.
pub open spec fn parse_int(s: Seq<char>, signed: bool) -> Option<int> {
    if s.len() == 0 {
        None
    } else if (s[0] == '+' || s[0] == '-') && s.len() == 1 {
        None
    } else if s[0] == '+' {
        if all_digits(s.skip(1)) {
            Some(digits_value(s.skip(1)))
        } else {
            None
        }
    } else if s[0] == '-' && signed {
        if all_digits(s.skip(1)) {
            Some(-digits_value(s.skip(1)))
        } else {
            None
        }
    } else if all_digits(s) {
        Some(digits_value(s))
    } else {
        None
    }
}

/// The `i64` a text stands for, where it is a decimal integer in range.
pub open spec fn parse_i64(s: Seq<char>) -> Option<i64> {
    match parse_int(s, true) {
        Some(v) => if i64::MIN <= v <= i64::MAX {
            Some(v as i64)
        } else {
            None
        },
        None => None,
    }
}

/// The `u64` a text stands for, where it is a decimal integer in range.
pub open spec fn parse_u64(s: Seq<char>) -> Option<u64> {
    match parse_int(s, false) {
        Some(v) => if 0 <= v <= u64::MAX {
            Some(v as u64)
        } else {
            None
        },
        None => None,
    }
}

proof fn lemma_digits_nonneg(s: Seq<char>)
    requires
        all_digits(s),
    ensures
        digits_value(s) >= 0,
    decreases s.len(),
{
    if s.len() > 0 {
        assert(all_digits(s.drop_last()));
        lemma_digits_nonneg(s.drop_last());
    }
}

/// Value of the digits of `s` from `start` on, where it stays at most `limit`.
fn digits_from(s: &str, start: usize, limit: u128) -> (r: Option<u128>)
    requires
        start <= s@.len(),
        limit <= u64::MAX + 1,
    ensures
        r matches Some(v) ==> all_digits(s@.skip(start as int)) && v == digits_value(s@.skip(start as int)) && v <= limit,
        r is None ==> !all_digits(s@.skip(start as int)) || digits_value(s@.skip(start as int)) > limit,
{
    let n = s.unicode_len();
    let mut value: u128 = 0;
    let mut i = start;
    proof {
        assert(s@.subrange(start as int, start as int) =~= Seq::<char>::empty());
    }
    while i < n
        invariant
            n == s@.len(),
            start <= i <= n,
            limit <= u64::MAX + 1,
            all_digits(s@.subrange(start as int, i as int)),
            value == digits_value(s@.subrange(start as int, i as int)),
            value <= limit,
        decreases n - i,
    {
        let c = s.get_char(i);
        let ghost prefix = s@.subrange(start as int, i + 1);
        assert(prefix.drop_last() =~= s@.subrange(start as int, i as int));
        if c < '0' || c > '9' {
            proof {
                assert(!all_digits(s@.skip(start as int))) by {
                    assert(s@.skip(start as int)[i - start] == c);
                }
            }
            return None;
        }
        let d = (c as u32 - '0' as u32) as u128;
        let next = value * 10 + d;
        if next > limit {
            proof {
                lemma_digits_grow(s@.skip(start as int), i - start + 1);
                assert(s@.skip(start as int).take(i - start + 1) =~= prefix);
            }
            return None;
        }
        value = next;
        i = i + 1;
    }
    assert(s@.subrange(start as int, n as int) =~= s@.skip(start as int));
    Some(value)
}

/// A longer run of digits has at least the value of its prefix, where all are digits.
proof fn lemma_digits_grow(s: Seq<char>, k: int)
    requires
        0 <= k <= s.len(),
    ensures
        all_digits(s) ==> digits_value(s) >= digits_value(s.take(k)),
    decreases s.len() - k,
{
    if all_digits(s) && k < s.len() {
        lemma_digits_grow(s, k + 1);
        let t = s.take(k + 1);
        assert(t.drop_last() =~= s.take(k));
        assert(all_digits(s.take(k)));
        lemma_digits_nonneg(s.take(k));
    } else if k == s.len() {
        assert(s.take(k) =~= s);
    }
}

/// Parses a decimal `i64` as Rust does.
pub fn str_to_i64(s: &str) -> (r: Option<i64>)
    ensures
        r == parse_i64(s@),
{
    let n = s.unicode_len();
    if n == 0 {
        return None;
    }
    let first = s.get_char(0);
    if (first == '+' || first == '-') && n == 1 {
        return None;
    }
    if first == '+' {
        match digits_from(s, 1, 0x7fff_ffff_ffff_ffff) {
            Some(v) => {
                proof {
                    lemma_digits_nonneg(s@.skip(1));
                }
                Some(v as i64)
            },
            None => None,
        }
    } else if first == '-' {
        match digits_from(s, 1, 0x8000_0000_0000_0000) {
            Some(v) => {
                proof {
                    lemma_digits_nonneg(s@.skip(1));
                }
                Some((0i128 - v as i128) as i64)
            },
            None => None,
        }
    } else {
        proof {
            assert(s@.skip(0) =~= s@);
        }
        match digits_from(s, 0, 0x7fff_ffff_ffff_ffff) {
            Some(v) => {
                proof {
                    lemma_digits_nonneg(s@);
                }
                Some(v as i64)
            },
            None => None,
        }
    }
}

/// Parses a decimal `u64` as Rust does.
pub fn str_to_u64(s: &str) -> (r: Option<u64>)
    ensures
        r == parse_u64(s@),
{
    let n = s.unicode_len();
    if n == 0 {
        return None;
    }
    let first = s.get_char(0);
    if (first == '+' || first == '-') && n == 1 {
        return None;
    }
    if first == '+' {
        match digits_from(s, 1, 0xffff_ffff_ffff_ffff) {
            Some(v) => {
                proof {
                    lemma_digits_nonneg(s@.skip(1));
                }
                Some(v as u64)
            },
            None => None,
        }
    } else {
        proof {
            assert(s@.skip(0) =~= s@);
        }
        match digits_from(s, 0, 0xffff_ffff_ffff_ffff) {
            Some(v) => {
                proof {
                    lemma_digits_nonneg(s@);
                }
                Some(v as u64)
            },
            None => None,
        }
    }
}

/// The element has a `type` attribute with the given value.
pub open spec fn has_type(node: XmlNode, kind: Seq<char>) -> bool {
    node.attribute_of("type"@) == Some(kind)
}

/// Checks the `type` attribute of an element.
fn check_type(node: &XmlNode, kind: &str) -> (r: Result<()>)
    ensures
        r is Ok <==> has_type(*node, kind@),
        r matches Err(e) ==> e is Invalid,
{
    match node.attribute("type") {
        Some(found) => {
            if !str_eq(found, kind) {
                return Err(
                    Error::Invalid {
                        desc: String::from_str("Found XML tag with type '").concat(found).concat(
                            "' instead of '",
                        ).concat(kind).concat("'"),
                    },
                );
            }
            Ok(())
        },
        None => Error::invalid("XML tag has no 'type' attribute"),
    }
}

/// Reads the optional string element with the given tag name: its text, empty where it has
/// none. Fails if the element is not of type `String`.
pub fn opt_string(parent: &XmlNode, tag_name: &str) -> (r: Result<Option<String>>)
    ensures
        match parent.child_of(tag_name@) {
            None => r matches Ok(None),
            Some(c) => {
                &&& r is Ok <==> has_type(c, "String"@)
                &&& r matches Ok(v) ==> v matches Some(t) && t@ == c.text_or(""@)
            },
        },
        r matches Err(e) ==> e is Invalid,
{
    match parent.child(tag_name) {
        Some(tag) => {
            match check_type(tag, "String") {
                Ok(()) => {},
                Err(e) => {
                    return Err(e);
                },
            }
            match &tag.text {
                Some(t) => Ok(Some(t.clone())),
                None => Ok(Some(String::from_str(""))),
            }
        },
        None => Ok(None),
    }
}

/// Reads the string element with the given tag name; fails where it is missing.
pub fn req_string(parent: &XmlNode, tag_name: &str) -> (r: Result<String>)
    ensures
        match parent.child_of(tag_name@) {
            None => r is Err,
            Some(c) => {
                &&& r is Ok <==> has_type(c, "String"@)
                &&& r matches Ok(t) ==> t@ == c.text_or(""@)
            },
        },
        r matches Err(e) ==> e is Invalid,
{
    match opt_string(parent, tag_name) {
        Ok(Some(s)) => Ok(s),
        Ok(None) => Err(
            Error::Invalid {
                desc: String::from_str("XML tag '").concat(tag_name).concat("' was not found"),
            },
        ),
        Err(e) => Err(e),
    }
}

/// Reads the optional integer element with the given tag name; an element without text
/// stands for zero. Fails if the element is not of type `Integer` or its text is no `i64`.
pub fn opt_int(parent: &XmlNode, tag_name: &str) -> (r: Result<Option<i64>>)
    ensures
        match parent.child_of(tag_name@) {
            None => r matches Ok(None),
            Some(c) => {
                &&& r is Ok <==> has_type(c, "Integer"@) && parse_i64(c.text_or("0"@)) is Some
                &&& r matches Ok(v) ==> v == parse_i64(c.text_or("0"@))
            },
        },
        r matches Err(e) ==> e is Invalid,
{
    match parent.child(tag_name) {
        Some(tag) => {
            match check_type(tag, "Integer") {
                Ok(()) => {},
                Err(e) => {
                    return Err(e);
                },
            }
            let parsed = match &tag.text {
                Some(t) => str_to_i64(t.as_str()),
                None => str_to_i64("0"),
            };
            match parsed {
                Some(v) => Ok(Some(v)),
                None => Err(
                    Error::Invalid {
                        desc: String::from_str("Cannot parse value of XML tag '").concat(tag_name).concat(
                            "' as 'Integer'",
                        ),
                    },
                ),
            }
        },
        None => Ok(None),
    }
}

/// Reads the integer element with the given tag name; fails where it is missing.
pub fn req_int(parent: &XmlNode, tag_name: &str) -> (r: Result<i64>)
    ensures
        match parent.child_of(tag_name@) {
            None => r is Err,
            Some(c) => {
                &&& r is Ok <==> has_type(c, "Integer"@) && parse_i64(c.text_or("0"@)) is Some
                &&& r matches Ok(v) ==> Some(v) == parse_i64(c.text_or("0"@))
            },
        },
        r matches Err(e) ==> e is Invalid,
{
    match opt_int(parent, tag_name) {
        Ok(Some(v)) => Ok(v),
        Ok(None) => Err(
            Error::Invalid {
                desc: String::from_str("XML tag '").concat(tag_name).concat("' was not found"),
            },
        ),
        Err(e) => Err(e),
    }
}

/// The digit character of `d` is a digit with value `d`.
proof fn lemma_digit_char(d: int)
    requires
        0 <= d < 10,
    ensures
        '0' <= digit_char(d) <= '9',
        digit_char(d) as int - '0' as int == d,
{
    assert('0' as int == 48);
    assert('9' as int == 57);
    if d == 0 {
    } else if d == 1 {
        assert('1' as int == 49);
    } else if d == 2 {
        assert('2' as int == 50);
    } else if d == 3 {
        assert('3' as int == 51);
    } else if d == 4 {
        assert('4' as int == 52);
    } else if d == 5 {
        assert('5' as int == 53);
    } else if d == 6 {
        assert('6' as int == 54);
    } else if d == 7 {
        assert('7' as int == 55);
    } else if d == 8 {
        assert('8' as int == 56);
    } else {
    }
}

/// The decimal representation of a number is a run of digits with the number as value.
proof fn lemma_decimal_digits(n: nat)
    ensures
        decimal(n).len() >= 1,
        all_digits(decimal(n)),
        digits_value(decimal(n)) == n,
    decreases n,
{
    lemma_digit_char((n % 10) as int);
    if n < 10 {
        assert(decimal(n).drop_last() =~= Seq::<char>::empty());
        assert(digits_value(decimal(n)) == digits_value(decimal(n).drop_last()) * 10 + (decimal(n).last() as int - '0' as int));
    }
    if n >= 10 {
        lemma_decimal_digits(n / 10);
        let s = decimal(n / 10);
        let t = decimal(n);
        assert(t.drop_last() =~= s);
        assert(t.last() == digit_char((n % 10) as int));
        assert((n / 10) * 10 + n % 10 == n);
        assert(digits_value(t) == digits_value(s) * 10 + (t.last() as int - '0' as int));
        assert(digits_value(s) == n / 10);
        assert(t.last() as int - '0' as int == n % 10);
        assert forall|i: int| 0 <= i < t.len() implies '0' <= #[trigger] t[i] && t[i] <= '9' by {
            if i < s.len() {
                assert(t[i] == s[i]);
            }
        }
    }
}

/// An integer written in decimal, as the XML elements of this library hold it, is read back
/// as the same integer.
pub proof fn lemma_decimal_roundtrip(v: i64)
    ensures
        parse_i64(signed_decimal(v as int)) == Some(v),
{
    if v < 0 {
        let d = decimal((-v) as nat);
        lemma_decimal_digits((-v) as nat);
        let s = signed_decimal(v as int);
        assert(s.skip(1) =~= d);
        assert(s[0] == '-');
    } else {
        lemma_decimal_digits(v as nat);
        let s = decimal(v as nat);
        assert('0' <= s[0] && s[0] <= '9');
    }
}

/// An unsigned integer written in decimal is read back as the same integer.
pub proof fn lemma_unsigned_decimal_roundtrip(v: u64)
    ensures
        parse_u64(decimal(v as nat)) == Some(v),
{
    lemma_decimal_digits(v as nat);
    let s = decimal(v as nat);
    assert('0' <= s[0] && s[0] <= '9');
}

} // verus!
