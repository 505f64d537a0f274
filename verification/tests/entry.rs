use kanidmd_lib::entry::{Ava, Entry};
use kanidmd_lib::filter::Filter;
use kanidmd_lib::modify::{Modify, ModifyList};
use kanidmd_lib::value::{
    AccessScope, IdentityId, Oauth2Session, PartialValue, Session, Value,
};

fn text(name: &str, value: &str) -> Ava {
    Ava { name: name.to_string(), value: Value::new_utf8s(value) }
}

fn sample() -> Entry {
    Entry::from_avas(vec![
        text("class", "object"),
        text("class", "person"),
        text("name", "claire"),
        Ava { name: "uuid".to_string(), value: Value::new_uuid(42) },
    ])
}

#[test]
fn new_entry_is_empty() {
    let e = Entry::new();
    assert_eq!(e.len(), 0);
    assert_eq!(e.get_id(), None);
    assert!(!e.attribute_pres("class"));
}

#[test]
fn add_ava_keeps_the_first_of_one_identity() {
    let mut e = sample();
    assert_eq!(e.len(), 4);
    e.add_ava("name", Value::new_utf8s("claire"));
    assert_eq!(e.len(), 4);
    e.add_ava("name", Value::new_utf8s("william"));
    assert_eq!(e.len(), 5);
    // A session and a derived session of one id have one identity.
    let s = Session {
        label: "first".to_string(),
        expiry: None,
        issued_at: 1,
        issued_by: IdentityId::Internal,
        scope: AccessScope::ReadOnly,
    };
    e.add_ava("user_auth_token_session", Value::Session(9, s));
    e.add_ava(
        "user_auth_token_session",
        Value::Oauth2Session(9, Oauth2Session { parent: 1, expiry: None, issued_at: 2, rs_uuid: 3 }),
    );
    assert_eq!(e.len(), 6);
    assert!(e.attribute_equality("user_auth_token_session", &PartialValue::new_refer(9)));
    // under another attribute the same identity is another value
    e.add_ava(
        "oauth2_session",
        Value::Oauth2Session(9, Oauth2Session { parent: 1, expiry: None, issued_at: 2, rs_uuid: 3 }),
    );
    assert_eq!(e.len(), 7);
}

#[test]
fn from_avas_drops_repeated_values() {
    let e = Entry::from_avas(vec![text("name", "a"), text("name", "b"), text("name", "a")]);
    assert_eq!(e.len(), 2);
}

#[test]
fn remove_and_purge() {
    let mut e = sample();
    e.remove_ava("class", &PartialValue::new_utf8s("person"));
    assert!(e.attribute_equality("class", &PartialValue::new_utf8s("object")));
    assert!(!e.attribute_equality("class", &PartialValue::new_utf8s("person")));
    assert_eq!(e.len(), 3);
    // removing what is not there changes nothing
    e.remove_ava("class", &PartialValue::new_utf8s("person"));
    e.remove_ava("name", &PartialValue::new_uuid(42));
    assert_eq!(e.len(), 3);
    e.purge_ava("class");
    assert!(!e.attribute_pres("class"));
    assert!(e.attribute_pres("name"));
    assert_eq!(e.len(), 2);
}

#[test]
fn equality_ignores_order_and_identifier() {
    let a = sample().with_id(Some(3));
    let b = Entry::from_avas(vec![
        Ava { name: "uuid".to_string(), value: Value::new_uuid(42) },
        text("name", "claire"),
        text("class", "person"),
        text("class", "object"),
    ]);
    assert_eq!(a, b);
    let mut c = sample();
    c.add_ava("name", Value::new_utf8s("other"));
    assert_ne!(a, c);
    assert_ne!(c, a);
    // equality looks at every field of a value, not only at its identity
    let session = |label: &str| {
        let mut e = Entry::new();
        e.add_ava(
            "user_auth_token_session",
            Value::Session(
                1,
                Session {
                    label: label.to_string(),
                    expiry: Some(5),
                    issued_at: 1,
                    issued_by: IdentityId::User(7),
                    scope: AccessScope::ReadWrite,
                },
            ),
        );
        e
    };
    assert_eq!(session("x"), session("x"));
    assert_ne!(session("x"), session("y"));
}

#[test]
fn modify_list_applies_in_order() {
    let mut e = sample();
    let ml = ModifyList::new_list(vec![
        Modify::Purged("class".to_string()),
        Modify::Present("class".to_string(), Value::new_utf8s("group")),
        Modify::Removed("name".to_string(), PartialValue::new_utf8s("claire")),
        Modify::Present("name".to_string(), Value::new_utf8s("admins")),
    ]);
    ml.apply(&mut e);
    let expected = Entry::from_avas(vec![
        Ava { name: "uuid".to_string(), value: Value::new_uuid(42) },
        text("class", "group"),
        text("name", "admins"),
    ]);
    assert_eq!(e, expected);
    assert_eq!(e.len(), 3);

    let mut e = sample();
    ModifyList::new_purge_and_set("class", Value::new_utf8s("only")).apply(&mut e);
    assert!(e.attribute_equality("class", &PartialValue::new_utf8s("only")));
    assert!(!e.attribute_equality("class", &PartialValue::new_utf8s("object")));
    ModifyList::new_append("class", Value::new_utf8s("more")).apply(&mut e);
    assert!(e.attribute_equality("class", &PartialValue::new_utf8s("more")));
    ModifyList::new_remove("class", PartialValue::new_utf8s("only")).apply(&mut e);
    assert!(!e.attribute_equality("class", &PartialValue::new_utf8s("only")));
    // an empty list changes nothing
    let before = e.clone();
    ModifyList::new_list(vec![]).apply(&mut e);
    assert_eq!(e, before);
}

#[test]
fn filters_match() {
    let e = sample();
    let name = || Filter::new_eq("name", PartialValue::new_utf8s("claire"));
    let other = || Filter::new_eq("name", PartialValue::new_utf8s("william"));
    assert!(name().entry_match(&e));
    assert!(!other().entry_match(&e));
    assert!(Filter::new_pres("uuid").entry_match(&e));
    assert!(!Filter::new_pres("description").entry_match(&e));
    assert!(Filter::And(Box::new(name()), Box::new(Filter::new_pres("uuid"))).entry_match(&e));
    assert!(!Filter::And(Box::new(name()), Box::new(other())).entry_match(&e));
    assert!(Filter::Or(Box::new(other()), Box::new(name())).entry_match(&e));
    assert!(!Filter::Or(Box::new(other()), Box::new(other())).entry_match(&e));
    assert!(Filter::Not(Box::new(other())).entry_match(&e));
    assert!(!Filter::Not(Box::new(name())).entry_match(&e));
    // a uuid is not found by a reference of the same number
    assert!(Filter::new_eq("uuid", PartialValue::new_uuid(42)).entry_match(&e));
    assert!(!Filter::new_eq("uuid", PartialValue::new_refer(42)).entry_match(&e));
}

#[test]
fn filter_from_attrs_covers_every_value() {
    let mut e = sample();
    e.add_ava("name", Value::new_utf8s("second"));
    let attrs = vec!["name".to_string(), "uuid".to_string()];
    let f = e.filter_from_attrs(&attrs).expect("no filter");
    assert!(f.entry_match(&e));
    // an entry with one of the two names only is not selected
    assert!(!f.entry_match(&sample()));
    let mut more = e.clone();
    more.add_ava("description", Value::new_utf8s("more"));
    assert!(f.entry_match(&more));
    // no filter without attributes, or for an attribute that the entry lacks
    assert!(e.filter_from_attrs(&vec![]).is_none());
    assert!(e.filter_from_attrs(&vec!["name".to_string(), "domain".to_string()]).is_none());
}

#[test]
fn a_cloned_filter_selects_the_same() {
    let f = Filter::And(
        Box::new(Filter::new_eq("name", PartialValue::new_utf8s("claire"))),
        Box::new(Filter::Not(Box::new(Filter::new_pres("description")))),
    );
    let g = f.clone();
    let e = sample();
    assert!(f.entry_match(&e));
    assert!(g.entry_match(&e));
    let mut d = sample();
    d.add_ava("description", Value::new_utf8s("x"));
    assert!(!g.entry_match(&d));
    assert_eq!(e.get_ava("class"), vec![Value::new_utf8s("object"), Value::new_utf8s("person")]);
    assert_eq!(e.get_ava("zzzz"), vec![]);
    assert_eq!(e.avas().len(), 4);
    assert_eq!(e.avas()[2], text("name", "claire"));
}
