use crate::error::{Error, Result};
use crate::record::{Record, RecordName};
use crate::text::str_eq;
use crate::xml_node::{XmlNamespace, XmlNode};
use vstd::prelude::*;
use vstd::string::StrSliceExecFns;

verus! {

/// Describes an E57 extension by name and URL.
///
/// Each extension has its own namespace in the XML section of an E57 file; it can define
/// custom point attributes, additional metadata and custom binary blobs.
#[derive(Clone, Debug)]
pub struct Extension {
    /// XML namespace name.
    pub namespace: String,
    /// XML namespace URL.
    pub url: String,
}

/// Characters allowed in XML namespace and attribute names: ASCII letters and digits, `_` and `-`.
pub open spec fn name_char(c: char) -> bool {
    ('a' <= c && c <= 'z') || ('A' <= c && c <= 'Z') || ('0' <= c && c <= '9') || c == '_' || c == '-'
}

/// The name starts with "xml" in any mix of upper and lower case.
pub open spec fn starts_with_xml(name: Seq<char>) -> bool {
    name.len() >= 3 && (name[0] == 'x' || name[0] == 'X') && (name[1] == 'm' || name[1] == 'M') && (
    name[2] == 'l' || name[2] == 'L')
}

/// A name that may be used for an XML namespace or attribute: not empty, not starting with
/// "xml" in any case, and made only of ASCII letters, digits, dashes and underscores.
pub open spec fn valid_name(name: Seq<char>) -> bool {
    &&& name.len() > 0
    &&& !starts_with_xml(name)
    &&& forall|i: int| 0 <= i < name.len() ==> #[trigger] name_char(name[i])
}

/// The namespace of the record, where it is an attribute of an extension.
pub open spec fn unknown_parts(record: Record) -> Option<(Seq<char>, Seq<char>)> {
    match record.name {
        RecordName::Unknown { namespace, name } => Some((namespace@, name@)),
        _ => None,
    }
}

/// A prototype record is acceptable: a standard attribute, or an extension attribute with valid
/// names whose namespace is among the registered extensions.
pub open spec fn record_registered(record: Record, extensions: Seq<Extension>) -> bool {
    match unknown_parts(record) {
        Some((namespace, name)) => valid_name(namespace) && valid_name(name) && exists|j: int|
            0 <= j < extensions.len() && #[trigger] extensions[j].namespace@ == namespace,
        None => true,
    }
}

fn is_name_char(c: char) -> (r: bool)
    ensures
        r == name_char(c),
{
    ('a' <= c && c <= 'z') || ('A' <= c && c <= 'Z') || ('0' <= c && c <= '9') || c == '_' || c == '-'
}

impl Extension {
    /// Creates an extension with the given namespace name and URL.
    pub fn new(namespace: &str, url: &str) -> (r: Self)
        ensures
            r.namespace@ == namespace@,
            r.url@ == url@,
    {
        Self { namespace: namespace.to_owned(), url: url.to_owned() }
    }

    /// Checks that a string may be used as XML namespace or attribute name.
    pub fn validate_name(name: &str) -> (r: Result<()>)
        ensures
            r is Ok <==> valid_name(name@),
            r matches Err(e) ==> e is Invalid,
    {
        let n = name.unicode_len();
        if n == 0 {
            return Error::invalid("Strings used as XML namespaces or attributes must not be empty");
        }
        if n >= 3 && (name.get_char(0) == 'x' || name.get_char(0) == 'X') && (name.get_char(1) == 'm'
            || name.get_char(1) == 'M') && (name.get_char(2) == 'l' || name.get_char(2) == 'L') {
            return Err(
                Error::Invalid {
                    desc: String::from_str(
                        "Strings used as XML namespaces or attributes must not start with 'XML': ",
                    ).concat(name),
                },
            );
        }
        let mut i: usize = 0;
        while i < n
            invariant
                n == name@.len(),
                i <= n,
                forall|k: int| 0 <= k < i ==> #[trigger] name_char(name@[k]),
            decreases n - i,
        {
            if !is_name_char(name.get_char(i)) {
                return Err(
                    Error::Invalid {
                        desc: String::from_str(
                            "Strings used as XML namespaces or attributes should consist only of a-z, A-Z, 0-9, dashes and underscores: ",
                        ).concat(name),
                    },
                );
            }
            i = i + 1;
        }
        Ok(())
    }

    /// Checks that every extension attribute of a prototype has valid names and a namespace
    /// that is registered as extension.
    pub fn validate_prototype(prototype: &[Record], extensions: &[Extension]) -> (r: Result<()>)
        ensures
            r is Ok <==> forall|i: int|
                0 <= i < prototype@.len() ==> #[trigger] record_registered(prototype@[i], extensions@),
            r matches Err(e) ==> e is Invalid,
    {
        let mut i: usize = 0;
        while i < prototype.len()
            invariant
                i <= prototype@.len(),
                forall|k: int| 0 <= k < i ==> #[trigger] record_registered(prototype@[k], extensions@),
            decreases prototype@.len() - i,
        {
            let record = &prototype[i];
            match &record.name {
                RecordName::Unknown { namespace, name } => {
                    match Self::validate_name(namespace.as_str()) {
                        Ok(()) => {},
                        Err(e) => {
                            proof {
                                assert(unknown_parts(prototype@[i as int]) == Some((namespace@, name@)));
                                assert(!record_registered(prototype@[i as int], extensions@));
                            }
                            return Err(e);
                        },
                    }
                    match Self::validate_name(name.as_str()) {
                        Ok(()) => {},
                        Err(e) => {
                            proof {
                                assert(unknown_parts(prototype@[i as int]) == Some((namespace@, name@)));
                                assert(!record_registered(prototype@[i as int], extensions@));
                            }
                            return Err(e);
                        },
                    }
                    let mut found = false;
                    let mut j: usize = 0;
                    while j < extensions.len()
                        invariant
                            j <= extensions@.len(),
                            found <==> exists|m: int|
                                0 <= m < j && #[trigger] extensions@[m].namespace@ == namespace@,
                        decreases extensions@.len() - j,
                    {
                        if str_eq(extensions[j].namespace.as_str(), namespace.as_str()) {
                            found = true;
                        }
                        j = j + 1;
                    }
                    if !found {
                        proof {
                            assert(unknown_parts(prototype@[i as int]) == Some((namespace@, name@)));
                            assert(!record_registered(prototype@[i as int], extensions@));
                        }
                        return Err(
                            Error::Invalid {
                                desc: String::from_str("Cannot find extension namespace ").concat(
                                    namespace.as_str(),
                                ).concat(" used by attribute ").concat(name.as_str()).concat(
                                    ", please register extension first",
                                ),
                            },
                        );
                    }
                },
                _ => {},
            }
            proof {
                assert(record_registered(prototype@[i as int], extensions@));
            }
            i = i + 1;
        }
        Ok(())
    }
}

/// The extensions a document declares: the namespaces of its root element that have a name,
/// in the order of their declaration.
pub open spec fn declared_extensions(ns: Seq<XmlNamespace>) -> Seq<(Seq<char>, Seq<char>)>
    decreases ns.len(),
{
    if ns.len() == 0 {
        Seq::empty()
    } else {
        let rest = declared_extensions(ns.drop_last());
        match ns.last().name {
            Some(name) => rest.push((name@, ns.last().uri@)),
            None => rest,
        }
    }
}

impl Extension {
    /// The extensions that the root element of a document declares as named namespaces.
    pub fn vec_from_document(root: &XmlNode) -> (r: Vec<Extension>)
        ensures
            r@.len() == declared_extensions(root.namespaces@).len(),
            forall|i: int| 0 <= i < r@.len() ==> (#[trigger] r@[i]).namespace@ == declared_extensions(
                root.namespaces@,
            )[i].0 && r@[i].url@ == declared_extensions(root.namespaces@)[i].1,
    {
        let mut extensions: Vec<Extension> = Vec::new();
        let mut i: usize = 0;
        while i < root.namespaces.len()
            invariant
                i <= root.namespaces@.len(),
                extensions@.len() == declared_extensions(root.namespaces@.take(i as int)).len(),
                forall|j: int| 0 <= j < extensions@.len() ==> (#[trigger] extensions@[j]).namespace@
                    == declared_extensions(root.namespaces@.take(i as int))[j].0 && extensions@[j].url@
                    == declared_extensions(root.namespaces@.take(i as int))[j].1,
            decreases root.namespaces@.len() - i,
        {
            assert(root.namespaces@.take(i + 1).drop_last() =~= root.namespaces@.take(i as int));
            match &root.namespaces[i].name {
                Some(name) => {
                    extensions.push(Extension { namespace: name.clone(), url: root.namespaces[i].uri.clone() });
                },
                None => {},
            }
            i = i + 1;
        }
        assert(root.namespaces@.take(root.namespaces@.len() as int) =~= root.namespaces@);
        extensions
    }
}


/// Some extension in the list uses the namespace.
pub open spec fn namespace_used(extensions: Seq<Extension>, namespace: Seq<char>) -> bool {
    exists|j: int| 0 <= j < extensions.len() && #[trigger] extensions[j].namespace@ == namespace
}

impl Extension {
    /// Registers an extension in the list of extensions of a file; fails, leaving the list
    /// unchanged, where the namespace is not a valid name or an extension with the same
    /// namespace is already registered.
    pub fn register(extensions: &mut Vec<Extension>, extension: Extension) -> (r: Result<()>)
        ensures
            r is Ok ==> valid_name(extension.namespace@),
            r is Ok <==> valid_name(extension.namespace@) && !namespace_used(old(extensions)@, extension.namespace@),
            r is Ok ==> final(extensions)@ == old(extensions)@.push(extension),
            r is Err ==> final(extensions)@ == old(extensions)@,
            r matches Err(e) ==> e is Invalid,
    {
        match Self::validate_name(extension.namespace.as_str()) {
            Ok(()) => {},
            Err(e) => {
                return Err(e);
            },
        }
        let mut j: usize = 0;
        while j < extensions.len()
            invariant
                j <= extensions@.len(),
                extensions@ == old(extensions)@,
                !namespace_used(extensions@.take(j as int), extension.namespace@),
            decreases extensions@.len() - j,
        {
            if str_eq(extensions[j].namespace.as_str(), extension.namespace.as_str()) {
                return Err(
                    Error::Invalid {
                        desc: String::from_str("An extension using the namespace ").concat(
                            extension.namespace.as_str(),
                        ).concat(" is already registered"),
                    },
                );
            }
            proof {
                assert forall|m: int| 0 <= m < j + 1 implies #[trigger] extensions@.take(j + 1)[m].namespace@
                    != extension.namespace@ by {
                    if m < j {
                        assert(extensions@.take(j as int)[m] == extensions@.take(j + 1)[m]);
                    }
                }
            }
            j = j + 1;
        }
        assert(extensions@.take(j as int) =~= extensions@);
        extensions.push(extension);
        Ok(())
    }
}

} // verus!
