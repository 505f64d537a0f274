use kanidmd_lib::be::Backend;
use kanidmd_lib::constants::{anonymous_v1, system_info_v1, UUID_ANONYMOUS, UUID_SYSTEM_INFO};
use kanidmd_lib::entry::{Ava, Entry};
use kanidmd_lib::error::OperationError;
use kanidmd_lib::event::{CreateEvent, ExistsEvent, ModifyEvent, SearchEvent};
use kanidmd_lib::filter::Filter;
use kanidmd_lib::modify::ModifyList;
use kanidmd_lib::plugins::protected::Protected;
use kanidmd_lib::plugins::session::{standard_plugins, SessionConsistency, StandardPlugins};
use kanidmd_lib::plugins::{NoPlugins, Plugin, Plugins};
use kanidmd_lib::schema::{Schema, SchemaClass};
use kanidmd_lib::server::{QueryServer, QueryServerReadTransaction};
use kanidmd_lib::value::{PartialValue, Value};

fn text(name: &str, value: &str) -> Ava {
    Ava { name: name.to_string(), value: Value::new_utf8s(value) }
}

fn core_schema() -> Schema {
    let mut schema = Schema::new();
    {
        let mut w = schema.write();
        w.bootstrap_core();
        w.commit();
    }
    schema
}

fn test_server() -> QueryServer<StandardPlugins> {
    QueryServer::new(Backend::new(), core_schema(), standard_plugins())
}

fn person(name: &str, uuid: u128) -> Entry {
    Entry::from_avas(vec![
        text("class", "object"),
        text("class", "person"),
        text("name", name),
        Ava { name: "uuid".to_string(), value: Value::new_uuid(uuid) },
        text("displayname", name),
    ])
}

fn by_name(name: &str) -> Filter {
    Filter::new_eq("name", PartialValue::new_utf8s(name))
}

#[test]
fn plugin_names() {
    assert_eq!(SessionConsistency {}.id(), "plugin_session_consistency");
    assert_eq!(Protected {}.id(), "plugin_protected");
}

#[test]
fn a_plugin_can_reject_the_operation() {
    let plugins = Plugins::new(SessionConsistency {}, Plugins::new(Protected {}, NoPlugins {}));
    let mut server = QueryServer::new(Backend::new(), core_schema(), plugins);
    let mut txn = server.write(0);
    // a request from outside may not create an entry of the server itself
    let ce = CreateEvent::from_vec(vec![person("a", 1), system_info_v1()]);
    assert_eq!(txn.create(&ce), Err(OperationError::Plugin));
    assert_eq!(txn.internal_search(Filter::new_pres("name")).unwrap().len(), 0);
    assert_eq!(txn.create(&CreateEvent::from_vec(vec![person("a", 1)])), Ok(()));
    assert_eq!(txn.initialise(), Ok(()));
    // nor change one
    let change = || ModifyList::new_append("description", Value::new_utf8s("x"));
    let me = ModifyEvent::new(by_name("system_info"), change());
    assert_eq!(txn.modify(&me), Err(OperationError::Plugin));
    let found = txn.internal_search(by_name("system_info")).unwrap();
    assert_eq!(found, vec![system_info_v1()]);
    // nor turn another entry into one
    let me = ModifyEvent::new(
        by_name("a"),
        ModifyList::new_append("class", Value::new_utf8s("system_info")),
    );
    assert_eq!(txn.modify(&me), Err(OperationError::Plugin));
    // other entries it may change, and the server itself may change its own
    assert_eq!(txn.modify(&ModifyEvent::new(by_name("a"), change())), Ok(()));
    assert_eq!(txn.internal_modify(by_name("system_info"), change()), Ok(()));
    let found = txn.internal_search(by_name("system_info")).unwrap();
    assert!(found[0].attribute_equality("description", &PartialValue::new_utf8s("x")));
}

#[test]
fn create_errors() {
    let mut server = test_server();
    let mut txn = server.write(0);
    assert_eq!(txn.internal_create(vec![]), Err(OperationError::EmptyRequest));
    let bad = Entry::from_avas(vec![text("class", "person"), text("name", "x")]);
    assert_eq!(
        txn.internal_create(vec![person("a", 1), bad, person("b", 2)]),
        Err(OperationError::SchemaViolation)
    );
    // nothing of the batch was stored
    assert_eq!(txn.internal_exists(Filter::new_pres("class")), Ok(false));
    assert_eq!(txn.commit(), Ok(()));
    assert_eq!(server.read().internal_exists(Filter::new_pres("class")), Ok(false));
}

#[test]
fn store_errors_become_operation_errors() {
    let be = Backend::restore(vec![], u64::MAX).expect("no store");
    let mut server = QueryServer::new(be, core_schema(), standard_plugins());
    let mut txn = server.write(0);
    assert_eq!(txn.internal_create(vec![person("a", 1)]), Err(OperationError::Backend));
    assert_eq!(txn.initialise(), Err(OperationError::Backend));
}

#[test]
fn create_stores_the_normal_form() {
    let mut server = test_server();
    let mut txn = server.write(0);
    let e = Entry::from_avas(vec![
        text("Class", "object"),
        text("class", "person"),
        text("NAME", "Mixed"),
        Ava { name: "Uuid".to_string(), value: Value::new_uuid(5) },
        text("displayName", "Mixed"),
    ]);
    assert_eq!(txn.create(&CreateEvent::from_vec(vec![e])), Ok(()));
    let found = txn.search(&SearchEvent::new(by_name("Mixed"))).unwrap();
    assert_eq!(found.len(), 1);
    assert_eq!(found[0], person("Mixed", 5));
    assert_eq!(found[0].get_id(), Some(0));
}

#[test]
fn reads_refuse_unknown_attributes() {
    let mut server = test_server();
    {
        let read = server.read();
        assert_eq!(
            read.search(&SearchEvent::new(Filter::new_pres("zzzz"))).unwrap_err(),
            OperationError::SchemaViolation
        );
        assert_eq!(
            read.exists_entry(&ExistsEvent::new(Filter::new_pres("zzzz"))),
            Err(OperationError::SchemaViolation)
        );
        assert_eq!(read.exists_entry(&ExistsEvent::new(Filter::new_pres("name"))), Ok(false));
        assert_eq!(read.internal_exists(Filter::new_pres("Name")), Err(OperationError::SchemaViolation));
    }
    let mut txn = server.write(0);
    assert_eq!(
        txn.internal_modify(
            Filter::new_pres("zzzz"),
            ModifyList::new_append("description", Value::new_utf8s("x"))
        ),
        Err(OperationError::SchemaViolation)
    );
}

#[test]
fn modify_without_target_is_an_empty_request() {
    let mut server = test_server();
    let mut txn = server.write(0);
    assert_eq!(
        txn.internal_modify(by_name("nobody"), ModifyList::new_append("description", Value::new_utf8s("x"))),
        Err(OperationError::EmptyRequest)
    );
}

#[test]
fn modify_changes_every_target_or_none() {
    let mut server = test_server();
    let mut txn = server.write(0);
    assert_eq!(txn.internal_create(vec![person("a", 1), person("b", 2), person("c", 3)]), Ok(()));
    let some = || Filter::Or(Box::new(by_name("a")), Box::new(by_name("c")));
    assert_eq!(
        txn.internal_modify(some(), ModifyList::new_append("description", Value::new_utf8s("x"))),
        Ok(())
    );
    let all = txn.internal_search(Filter::new_pres("name")).unwrap();
    assert!(all[0].attribute_pres("description"));
    assert!(!all[1].attribute_pres("description"));
    assert!(all[2].attribute_pres("description"));
    assert_eq!(all[2].get_id(), Some(2));
    // removing a required attribute fails for every target
    assert_eq!(
        txn.internal_modify(some(), ModifyList::new_list(vec![
            kanidmd_lib::modify::Modify::Present("description".to_string(), Value::new_utf8s("y")),
            kanidmd_lib::modify::Modify::Purged("displayname".to_string()),
        ])),
        Err(OperationError::SchemaViolation)
    );
    let all = txn.internal_search(Filter::new_pres("name")).unwrap();
    assert!(!all[0].attribute_equality("description", &PartialValue::new_utf8s("y")));
    assert!(all[0].attribute_pres("displayname"));
}

#[test]
fn commit_checks_written_entries_against_the_final_schema() {
    let mut server = test_server();
    {
        let mut txn = server.write(0);
        assert_eq!(txn.internal_create(vec![person("a", 1)]), Ok(()));
        assert_eq!(txn.commit(), Ok(()));
    }
    {
        let mut txn = server.write(1);
        assert_eq!(txn.internal_create(vec![person("b", 2)]), Ok(()));
        // a person must now have a description: what this transaction has
        // written is no longer admitted
        txn.schema.update_class(SchemaClass::new(
            "person",
            vec!["name".to_string(), "displayname".to_string(), "description".to_string()],
            vec![],
        ));
        assert_eq!(txn.commit(), Err(OperationError::SchemaViolation));
    }
    // neither the entry nor the schema change is seen
    let read = server.read();
    assert_eq!(read.internal_exists(by_name("b")), Ok(false));
    assert_eq!(read.internal_exists(by_name("a")), Ok(true));
    drop(read);
    {
        let mut txn = server.write(2);
        assert_eq!(txn.internal_create(vec![person("b", 2)]), Ok(()));
        assert_eq!(txn.commit(), Ok(()));
    }
    {
        // entries that the transaction has not written are not looked at
        let mut txn = server.write(3);
        txn.schema.update_class(SchemaClass::new(
            "person",
            vec!["name".to_string(), "displayname".to_string(), "description".to_string()],
            vec![],
        ));
        assert_eq!(txn.commit(), Ok(()));
    }
    let mut txn = server.write(4);
    assert_eq!(txn.internal_create(vec![person("c", 3)]), Err(OperationError::SchemaViolation));
    assert_eq!(txn.get_curtime(), 4);
}

#[test]
fn initialise_stores_one_copy_of_each_fixed_entry() {
    let mut server = test_server();
    let sys = || Filter::new_eq("uuid", PartialValue::new_uuid(UUID_SYSTEM_INFO));
    let anon = || Filter::new_eq("uuid", PartialValue::new_uuid(UUID_ANONYMOUS));
    for round in 0..3u64 {
        {
            let mut txn = server.write(round);
            assert_eq!(txn.initialise(), Ok(()));
            // aborted
        }
        let mut txn = server.write(round);
        assert_eq!(txn.initialise(), Ok(()));
        assert_eq!(txn.initialise(), Ok(()));
        assert_eq!(txn.commit(), Ok(()));
        let read = server.read();
        assert_eq!(read.internal_search(Filter::new_pres("class")).unwrap().len(), 2);
        let found = read.internal_search(sys()).unwrap();
        assert_eq!(found, vec![system_info_v1()]);
        assert_eq!(found[0].get_id(), Some(0));
        let found = read.internal_search(anon()).unwrap();
        assert_eq!(found, vec![anonymous_v1()]);
        assert_eq!(found[0].get_id(), Some(1));
    }
}

#[test]
fn fixed_entries_hold_what_they_should() {
    let sys = system_info_v1();
    assert_eq!(sys.len(), 7);
    assert!(sys.attribute_equality("class", &PartialValue::new_utf8s("system_info")));
    assert!(sys.attribute_equality("name", &PartialValue::new_utf8s("system_info")));
    assert!(sys.attribute_equality("uuid", &PartialValue::new_uuid(UUID_SYSTEM_INFO)));
    assert!(sys.attribute_equality("domain", &PartialValue::new_utf8s("example.com")));
    let anon = anonymous_v1();
    assert_eq!(anon.len(), 6);
    assert!(anon.attribute_equality("class", &PartialValue::new_utf8s("account")));
    assert!(anon.attribute_equality("name", &PartialValue::new_utf8s("anonymous")));
    assert!(anon.attribute_equality("uuid", &PartialValue::new_uuid(UUID_ANONYMOUS)));
    assert_eq!(UUID_ANONYMOUS, 0x0000_0000_0000_0000_0000_ffff_ffff_ffff);
}

#[test]
fn assert_migrate_and_exists_differ_on_a_stored_entry() {
    let stored = || {
        let mut e = person("claire", 9);
        e.add_ava("description", Value::new_utf8s("old"));
        e
    };
    let given = || {
        let mut e = person("claire", 9);
        e.add_ava("displayname", Value::new_utf8s("second"));
        e
    };
    // exists: the stored entry stays as it is
    let mut server = test_server();
    let mut txn = server.write(0);
    assert_eq!(txn.internal_create(vec![stored()]), Ok(()));
    assert_eq!(txn.internal_exists_or_create(given()), Ok(()));
    let found = txn.internal_search(by_name("claire")).unwrap();
    assert_eq!(found, vec![stored()]);

    // migrate: the values are added, what is there besides stays
    assert_eq!(txn.internal_migrate_or_create(given()), Ok(()));
    let found = txn.internal_search(by_name("claire")).unwrap();
    let mut both = stored();
    both.add_ava("displayname", Value::new_utf8s("second"));
    assert_eq!(found, vec![both]);
    assert_eq!(found[0].get_id(), Some(0));

    // assert: the stored entry takes the shape that is given
    assert_eq!(txn.internal_assert_or_create(given()), Ok(()));
    let found = txn.internal_search(by_name("claire")).unwrap();
    assert_eq!(found, vec![given()]);
    assert_eq!(found[0].get_id(), Some(0));
    assert!(!found[0].attribute_pres("description"));

    // each of the three creates what is not stored
    assert_eq!(txn.internal_exists_or_create(person("a", 1)), Ok(()));
    assert_eq!(txn.internal_migrate_or_create(person("b", 2)), Ok(()));
    assert_eq!(txn.internal_assert_or_create(person("c", 3)), Ok(()));
    assert_eq!(txn.internal_search(Filter::new_pres("name")).unwrap().len(), 4);
}

#[test]
fn entries_without_name_or_uuid_give_no_filter() {
    let mut server = test_server();
    let mut txn = server.write(0);
    let nameless = || {
        Entry::from_avas(vec![
            text("class", "object"),
            Ava { name: "uuid".to_string(), value: Value::new_uuid(1) },
        ])
    };
    assert_eq!(txn.internal_exists_or_create(nameless()), Err(OperationError::FilterGeneration));
    assert_eq!(txn.internal_migrate_or_create(nameless()), Err(OperationError::FilterGeneration));
    assert_eq!(txn.internal_assert_or_create(nameless()), Err(OperationError::FilterGeneration));
    // with a schema that does not define the two attributes the lookup is refused
    let mut bare = QueryServer::new(Backend::new(), Schema::new(), standard_plugins());
    let mut txn = bare.write(0);
    assert_eq!(txn.internal_assert_or_create(person("a", 1)), Err(OperationError::SchemaViolation));
    assert_eq!(txn.initialise(), Err(OperationError::SchemaViolation));
}

#[test]
fn start_brings_up_a_server() {
    let mut server = kanidmd_lib::server::start(Backend::new(), 10).expect("no server");
    let (entries, next_id) = server.dump();
    assert_eq!(next_id, 2);
    assert_eq!(entries, vec![system_info_v1(), anonymous_v1()]);
    // the core schema is in place
    let mut txn = server.write(11);
    assert_eq!(txn.internal_create(vec![person("a", 1)]), Ok(()));
    assert_eq!(txn.commit(), Ok(()));
    // bringing up a server over what another has stored adds nothing
    let (entries, next_id) = server.dump();
    let again = kanidmd_lib::server::start(Backend::restore(entries, next_id).unwrap(), 12)
        .expect("no server");
    let (entries, next_id) = again.dump();
    assert_eq!(next_id, 3);
    assert_eq!(entries.len(), 3);
    // no room for the fixed entries
    let full = Backend::restore(vec![], u64::MAX).unwrap();
    assert_eq!(kanidmd_lib::server::start(full, 0).err(), Some(OperationError::Backend));
}

#[test]
fn handlers_run_one_transaction_each() {
    let mut server = test_server();
    let ce = CreateEvent::from_vec(vec![person("a", 1), person("b", 2)]);
    assert!(server.handle_create(&ce, 5).is_ok());
    let found = server.handle_search(&SearchEvent::new(by_name("b"))).unwrap();
    assert_eq!(found.entries, vec![person("b", 2)]);
    assert_eq!(found.entries[0].get_id(), Some(1));
    // a create that fails leaves nothing behind
    let bad = CreateEvent::from_vec(vec![person("c", 3), Entry::new()]);
    assert_eq!(server.handle_create(&bad, 6).err(), Some(OperationError::SchemaViolation));
    let all = server.handle_search(&SearchEvent::new(Filter::new_pres("name"))).unwrap();
    assert_eq!(all.entries.len(), 2);
    assert_eq!(
        server.handle_search(&SearchEvent::new(Filter::new_pres("zzzz"))).err(),
        Some(OperationError::SchemaViolation)
    );
    assert_eq!(
        server.handle_create(&CreateEvent::from_vec(vec![]), 7).err(),
        Some(OperationError::EmptyRequest)
    );
}
