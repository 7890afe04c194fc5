use crate::xml_node::{XmlAttribute, XmlNamespace, XmlNode};
use roxmltree::Document;
use vstd::prelude::*;

verus! {

/// The element tree of an XML text as `roxmltree` parses it, `None` where the text is no
/// well-formed XML document.
pub uninterp spec fn xml_tree(text: Seq<char>) -> Option<XmlNode>;

/// The text of a byte sequence decoded as UTF-8, `None` where it is no valid UTF-8.
pub uninterp spec fn utf8_text(bytes: Seq<u8>) -> Option<Seq<char>>;

/// An element of a document that `roxmltree` parsed.
#[verifier::external_type_specification]
#[verifier::external_body]
pub struct ExXmlElement<'a, 'input: 'a>(roxmltree::Node<'a, 'input>);

/// Turns an element of a `roxmltree` document into an element of the library without its
/// children: its local tag name, its text, its attributes with their namespaces and the
/// namespaces in scope. Nothing is claimed of the result: the element is opaque here.
#[verifier::external_body]
fn element_of(n: roxmltree::Node<'_, '_>) -> XmlNode {
    XmlNode { tag: n.tag_name().name().into(), text: n.text().map(Into::into), children: Vec::new(),
        attributes: n.attributes().map(|a| XmlAttribute { namespace: a.namespace().map(Into::into), name: a.name().into(), value: a.value().into() }).collect(),
        namespaces: n.namespaces().map(|s| XmlNamespace { name: s.name().map(Into::into), uri: s.uri().into() }).collect() }
}

/// Parses an XML text with `roxmltree::Document::parse` and turns its root element into the
/// element tree the library reads: each element's local tag name, its attributes, the
/// namespaces in scope on it, the text of its first child and its child
/// elements. The contract claims only that the result is the one named `xml_tree` of the
/// text; what `roxmltree` accepts and how it resolves the text is left to the name.
#[verifier::external_body]
pub fn parse_xml(text: &str) -> (r: Option<XmlNode>)
    ensures
        r == xml_tree(text@),
{
    let doc = Document::parse(text).ok()?;
    let mut stack: Vec<XmlNode> = Vec::new();
    for n in doc.root_element().descendants().filter(|n| n.is_element()) {
        let depth = n.ancestors().filter(|a| a.is_element()).count();
        while stack.len() >= depth { let c = stack.pop()?; stack.last_mut()?.children.push(c); }
        stack.push(element_of(n));
    }
    while stack.len() > 1 { let c = stack.pop()?; stack.last_mut()?.children.push(c); }
    stack.pop()
}

/// Decodes bytes as UTF-8 text with `String::from_utf8`. The contract claims only that the
/// result is the one named `utf8_text` of the bytes.
#[verifier::external_body]
pub fn utf8_string(bytes: Vec<u8>) -> (r: Option<String>)
    ensures
        match r {
            Some(s) => utf8_text(bytes@) == Some(s@),
            None => utf8_text(bytes@) is None,
        },
{
    String::from_utf8(bytes).ok()
}

} // verus!
