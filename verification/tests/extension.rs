use e57::{Extension, Record, RecordDataType, RecordName};

#[test]
fn validate_name() {
    assert!(Extension::validate_name("abcz").is_ok());
    assert!(Extension::validate_name("ABCZ").is_ok());
    assert!(Extension::validate_name("0129").is_ok());
    assert!(Extension::validate_name("-_-").is_ok());
    assert!(Extension::validate_name("aBC-DEf-Z_09").is_ok());

    assert!(Extension::validate_name("xmlabc").is_err());
    assert!(Extension::validate_name("XMLabc").is_err());
    assert!(Extension::validate_name("axml").is_ok());

    assert!(Extension::validate_name("abc.").is_err());
    assert!(Extension::validate_name("äüöß").is_err());

    assert!(Extension::validate_name("").is_err());
    assert!(Extension::validate_name(&String::new()).is_err());
}

#[test]
fn validate_name_mixed_case_xml_prefix() {
    assert!(Extension::validate_name("xMl").is_err());
    assert!(Extension::validate_name("Xm").is_ok());
    assert!(matches!(
        Extension::validate_name("a b"),
        Err(e57::Error::Invalid { .. })
    ));
}

fn unknown(namespace: &str, name: &str) -> Record {
    Record {
        name: RecordName::Unknown {
            namespace: namespace.to_owned(),
            name: name.to_owned(),
        },
        data_type: RecordDataType::Integer { min: 0, max: 10 },
    }
}

#[test]
fn validate_prototype_needs_registered_namespace() {
    let ext = vec![Extension::new("ext1", "https://www.corp.com/ext1")];
    assert_eq!(ext[0].namespace, "ext1");
    assert_eq!(ext[0].url, "https://www.corp.com/ext1");
    let standard = Record {
        name: RecordName::CartesianX,
        data_type: RecordDataType::Integer { min: 0, max: 10 },
    };
    assert!(Extension::validate_prototype(&[standard.clone(), unknown("ext1", "some_name")], &ext).is_ok());
    assert!(Extension::validate_prototype(&[standard, unknown("ext2", "some_name")], &ext).is_err());
    assert!(Extension::validate_prototype(&[unknown("ext1", "bad.name")], &ext).is_err());
    assert!(Extension::validate_prototype(&[unknown("", "name")], &ext).is_err());
    assert!(Extension::validate_prototype(&[], &[]).is_ok());
}

#[test]
fn register_extension_once() {
    let mut extensions = Vec::new();
    Extension::register(&mut extensions, Extension::new("ext", "http://example.com/a")).unwrap();
    Extension::register(&mut extensions, Extension::new("other", "http://example.com/b")).unwrap();
    assert_eq!(extensions.len(), 2);
    let r = Extension::register(&mut extensions, Extension::new("ext", "http://example.com/c"));
    assert!(matches!(r, Err(e57::Error::Invalid { .. })));
    assert_eq!(extensions.len(), 2);
    assert_eq!(extensions[0].url, "http://example.com/a");
}

#[test]
fn empty_namespace_name_fails() {
    let mut extensions = Vec::new();
    let r = Extension::register(&mut extensions, Extension { namespace: String::new(), url: String::from("http://example.com") });
    assert!(matches!(r, Err(e57::Error::Invalid { .. })));
    assert!(extensions.is_empty());
    let r = Extension::register(&mut extensions, Extension::new("xmlns2", "http://example.com"));
    assert!(r.is_err());
}
