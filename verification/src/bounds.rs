use crate::error::Result;
use crate::xml::{element, gen_int, signed_decimal};
use crate::xml_node::XmlNode;
use crate::xml_read::{has_type, opt_int, parse_i64};
use vstd::prelude::*;
use vstd::string::StringExecFns;

verus! {

/// Optional minimum and maximum values for the row, column and return indices.
#[derive(Clone, Copy, Debug, Default)]
pub struct IndexBounds {
    pub row_min: Option<i64>,
    pub row_max: Option<i64>,
    pub column_min: Option<i64>,
    pub column_max: Option<i64>,
    pub return_min: Option<i64>,
    pub return_max: Option<i64>,
}

/// The XML element of an optional integer: nothing where there is no value.
pub open spec fn opt_int_element(tag_name: Seq<char>, value: Option<i64>) -> Seq<char> {
    match value {
        Some(v) => element(tag_name, "Integer"@, signed_decimal(v as int)),
        None => Seq::empty(),
    }
}

/// Appends the XML element of an optional integer to `xml`, where there is a value.
fn append_opt_int(xml: &mut String, tag_name: &str, value: Option<i64>)
    ensures
        final(xml)@ == old(xml)@ + opt_int_element(tag_name@, value),
{
    match value {
        Some(v) => {
            xml.append(gen_int(tag_name, v).as_str());
        },
        None => {
            assert(old(xml)@ + Seq::<char>::empty() =~= old(xml)@);
        },
    }
}

impl IndexBounds {
    /// The XML structure of the index bounds, with an element for each value that is set.
    pub open spec fn xml(&self) -> Seq<char> {
        "<indexBounds type=\"Structure\">\n"@ + opt_int_element("rowMinimum"@, self.row_min)
            + opt_int_element("rowMaximum"@, self.row_max) + opt_int_element(
            "columnMinimum"@,
            self.column_min,
        ) + opt_int_element("columnMaximum"@, self.column_max) + opt_int_element(
            "returnMinimum"@,
            self.return_min,
        ) + opt_int_element("returnMaximum"@, self.return_max) + "</indexBounds>\n"@
    }

    /// Serializes the index bounds as XML structure.
    pub fn xml_string(&self) -> (r: String)
        ensures
            r@ == self.xml(),
    {
        let mut xml = String::from_str("<indexBounds type=\"Structure\">\n");
        append_opt_int(&mut xml, "rowMinimum", self.row_min);
        append_opt_int(&mut xml, "rowMaximum", self.row_max);
        append_opt_int(&mut xml, "columnMinimum", self.column_min);
        append_opt_int(&mut xml, "columnMaximum", self.column_max);
        append_opt_int(&mut xml, "returnMinimum", self.return_min);
        append_opt_int(&mut xml, "returnMaximum", self.return_max);
        xml.append("</indexBounds>\n");
        assert(xml@ =~= self.xml());
        xml
    }
}

/// Reading the optional integer element with the given tag name succeeds: it is missing, or
/// of type `Integer` with an `i64` as text.
pub open spec fn opt_int_ok(node: XmlNode, tag: Seq<char>) -> bool {
    match node.child_of(tag) {
        None => true,
        Some(c) => has_type(c, "Integer"@) && parse_i64(c.text_or("0"@)) is Some,
    }
}

/// The value of the optional integer element with the given tag name.
pub open spec fn opt_int_value(node: XmlNode, tag: Seq<char>) -> Option<i64> {
    match node.child_of(tag) {
        None => None,
        Some(c) => parse_i64(c.text_or("0"@)),
    }
}

impl IndexBounds {
    /// Reads the index bounds from their XML structure.
    pub fn from_node(node: &XmlNode) -> (r: Result<Self>)
        ensures
            r is Ok <==> opt_int_ok(*node, "rowMinimum"@) && opt_int_ok(*node, "rowMaximum"@) && opt_int_ok(
                *node,
                "columnMinimum"@,
            ) && opt_int_ok(*node, "columnMaximum"@) && opt_int_ok(*node, "returnMinimum"@)
                && opt_int_ok(*node, "returnMaximum"@),
            r matches Ok(b) ==> b.row_min == opt_int_value(*node, "rowMinimum"@) && b.row_max == opt_int_value(
                *node,
                "rowMaximum"@,
            ) && b.column_min == opt_int_value(*node, "columnMinimum"@) && b.column_max == opt_int_value(
                *node,
                "columnMaximum"@,
            ) && b.return_min == opt_int_value(*node, "returnMinimum"@) && b.return_max
                == opt_int_value(*node, "returnMaximum"@),
            r matches Err(e) ==> e is Invalid,
    {
        let row_min = match opt_int(node, "rowMinimum") {
            Ok(v) => v,
            Err(e) => {
                return Err(e);
            },
        };
        let row_max = match opt_int(node, "rowMaximum") {
            Ok(v) => v,
            Err(e) => {
                return Err(e);
            },
        };
        let column_min = match opt_int(node, "columnMinimum") {
            Ok(v) => v,
            Err(e) => {
                return Err(e);
            },
        };
        let column_max = match opt_int(node, "columnMaximum") {
            Ok(v) => v,
            Err(e) => {
                return Err(e);
            },
        };
        let return_min = match opt_int(node, "returnMinimum") {
            Ok(v) => v,
            Err(e) => {
                return Err(e);
            },
        };
        let return_max = match opt_int(node, "returnMaximum") {
            Ok(v) => v,
            Err(e) => {
                return Err(e);
            },
        };
        Ok(Self { row_min, row_max, column_min, column_max, return_min, return_max })
    }
}

} // verus!
