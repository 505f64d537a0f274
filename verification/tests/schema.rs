use kanidmd_lib::entry::{Ava, Entry};
use kanidmd_lib::error::SchemaError;
use kanidmd_lib::filter::Filter;
use kanidmd_lib::schema::{Schema, SchemaAttribute, SchemaClass, SyntaxType};
use kanidmd_lib::value::{Oauth2Session, PartialValue, Value};

fn text(name: &str, value: &str) -> Ava {
    Ava { name: name.to_string(), value: Value::new_utf8s(value) }
}

fn core_schema() -> Schema {
    let mut schema = Schema::new();
    {
        let mut w = schema.write();
        w.bootstrap_core();
        w.commit();
    }
    schema
}

fn person() -> Vec<Ava> {
    vec![
        text("class", "object"),
        text("class", "person"),
        text("name", "testperson"),
        Ava { name: "uuid".to_string(), value: Value::new_uuid(7) },
        text("displayname", "testperson"),
    ]
}

#[test]
fn core_schema_admits_a_person() {
    let schema = core_schema();
    let r = schema.read();
    assert_eq!(r.get_inner().validate_entry(&Entry::from_avas(person())), Ok(()));
}

#[test]
fn empty_schema_admits_nothing() {
    let schema = Schema::new();
    let r = schema.read();
    assert_eq!(
        r.get_inner().validate_entry(&Entry::from_avas(person())),
        Err(SchemaError::InvalidClass)
    );
}

#[test]
fn schema_errors_come_in_order() {
    let schema = core_schema();
    let r = schema.read();
    let check = |avas: Vec<Ava>| r.get_inner().validate_entry(&Entry::from_avas(avas));

    // no class at all
    assert_eq!(check(vec![text("name", "x")]), Err(SchemaError::InvalidClass));
    // a class that is not defined
    let mut avas = person();
    avas.push(text("class", "zzzz"));
    assert_eq!(check(avas), Err(SchemaError::InvalidClass));
    // a class that is not a text
    let mut avas = person();
    avas.push(Ava { name: "class".to_string(), value: Value::new_uuid(1) });
    assert_eq!(check(avas), Err(SchemaError::InvalidClass));
    // an attribute that is not defined
    let mut avas = person();
    avas.push(text("zzzz", "x"));
    assert_eq!(check(avas), Err(SchemaError::InvalidAttribute));
    // an attribute that no class of the entry permits
    let mut avas = person();
    avas.push(text("domain", "example.com"));
    assert_eq!(check(avas), Err(SchemaError::InvalidAttribute));
    // a value of the wrong kind
    let mut avas = person();
    avas.push(Ava { name: "description".to_string(), value: Value::new_uuid(1) });
    assert_eq!(check(avas), Err(SchemaError::InvalidAttributeSyntax));
    // a session attribute needs the account class and a session value
    let mut avas = person();
    avas.push(text("class", "account"));
    avas.push(text("oauth2_session", "x"));
    assert_eq!(check(avas), Err(SchemaError::InvalidAttributeSyntax));
    let mut avas = person();
    avas.push(text("class", "account"));
    avas.push(Ava {
        name: "oauth2_session".to_string(),
        value: Value::Oauth2Session(
            1,
            Oauth2Session { parent: 2, expiry: None, issued_at: 0, rs_uuid: 3 },
        ),
    });
    assert_eq!(check(avas), Ok(()));
    // a required attribute is missing
    let avas = vec![
        text("class", "object"),
        text("class", "person"),
        text("name", "testperson"),
        Ava { name: "uuid".to_string(), value: Value::new_uuid(7) },
    ];
    assert_eq!(check(avas), Err(SchemaError::MissingMustAttribute));
    // an undefined attribute is reported before a wrong kind and a missing attribute
    let avas = vec![
        text("class", "person"),
        text("zzzz", "x"),
        Ava { name: "name".to_string(), value: Value::new_uuid(1) },
    ];
    assert_eq!(check(avas), Err(SchemaError::InvalidAttribute));
}

#[test]
fn normal_form_has_lower_case_names() {
    let schema = core_schema();
    let r = schema.read();
    let e = Entry::from_avas(vec![
        text("Class", "object"),
        text("CLASS", "person"),
        text("Name", "TestPerson"),
        Ava { name: "UUID".to_string(), value: Value::new_uuid(7) },
        text("displayName", "Test Person"),
    ]);
    let n = r.get_inner().normalise_entry(&e);
    let expected = Entry::from_avas(vec![
        text("class", "object"),
        text("class", "person"),
        text("name", "TestPerson"),
        Ava { name: "uuid".to_string(), value: Value::new_uuid(7) },
        text("displayname", "Test Person"),
    ]);
    assert_eq!(n, expected);
    assert!(n.attribute_equality("name", &PartialValue::new_utf8s("TestPerson")));
    assert!(!n.attribute_pres("Name"));
    // the entry is judged by its normal form
    assert_eq!(r.get_inner().validate_entry(&e), Ok(()));
    // the normal form of a normal form is itself
    assert_eq!(r.get_inner().normalise_entry(&n), n);
    // letters outside ASCII stay as they are
    let odd = Entry::from_avas(vec![text("ÄbC", "x")]);
    let n = r.get_inner().normalise_entry(&odd);
    assert!(n.attribute_pres("Äbc"));
}

#[test]
fn names_that_differ_in_case_only_collapse() {
    let schema = core_schema();
    let r = schema.read();
    let mut avas = person();
    avas.push(text("Name", "testperson"));
    let e = Entry::from_avas(avas);
    assert_eq!(e.len(), 6);
    assert_eq!(r.get_inner().normalise_entry(&e).len(), 5);
    assert_eq!(r.get_inner().validate_entry(&e), Err(SchemaError::InvalidAttribute));
}

#[test]
fn filters_must_name_defined_attributes() {
    let schema = core_schema();
    let r = schema.read();
    let inner = r.get_inner();
    assert!(inner.validate_filter(&Filter::new_pres("name")));
    assert!(!inner.validate_filter(&Filter::new_pres("zzzz")));
    assert!(!inner.validate_filter(&Filter::new_pres("Name")));
    let both = Filter::And(
        Box::new(Filter::new_pres("name")),
        Box::new(Filter::Not(Box::new(Filter::new_eq("zzzz", PartialValue::new_uuid(1))))),
    );
    assert!(!inner.validate_filter(&both));
    let fine = Filter::Or(
        Box::new(Filter::new_pres("name")),
        Box::new(Filter::Not(Box::new(Filter::new_eq("uuid", PartialValue::new_uuid(1))))),
    );
    assert!(inner.validate_filter(&fine));
}

#[test]
fn schema_changes_need_a_commit() {
    let mut schema = core_schema();
    let pet = || {
        Entry::from_avas(vec![
            text("class", "pet"),
            text("species", "cat"),
        ])
    };
    {
        let mut w = schema.write();
        w.update_attribute(SchemaAttribute::new("species", SyntaxType::Utf8String));
        w.update_class(SchemaClass::new("pet", vec!["species".to_string()], vec![]));
        assert_eq!(w.get_inner().validate_entry(&pet()), Ok(()));
        assert_eq!(w.validate(&vec![pet(), Entry::new()]), Err(SchemaError::InvalidClass));
        // dropped without a commit
    }
    assert_eq!(schema.read().get_inner().validate_entry(&pet()), Err(SchemaError::InvalidClass));
    {
        let mut w = schema.write();
        w.update_attribute(SchemaAttribute::new("species", SyntaxType::Utf8String));
        w.update_class(SchemaClass::new("pet", vec!["species".to_string()], vec![]));
        w.commit();
    }
    assert_eq!(schema.read().get_inner().validate_entry(&pet()), Ok(()));
    {
        // a definition takes the place of the one of its name
        let mut w = schema.write();
        w.update_attribute(SchemaAttribute::new("species", SyntaxType::Uuid));
        w.commit();
    }
    assert_eq!(
        schema.read().get_inner().validate_entry(&pet()),
        Err(SchemaError::InvalidAttributeSyntax)
    );
}
