use kanidmd_lib::be::Backend;
use kanidmd_lib::constants::GRACE_WINDOW;
use kanidmd_lib::entry::{Ava, Entry};
use kanidmd_lib::event::CreateEvent;
use kanidmd_lib::filter::Filter;
use kanidmd_lib::modify::{Modify, ModifyList};
use kanidmd_lib::plugins::session::{standard_plugins, sweep_entry, StandardPlugins};
use kanidmd_lib::schema::Schema;
use kanidmd_lib::server::{QueryServer, QueryServerReadTransaction};
use kanidmd_lib::value::{
    AccessScope, IdentityId, Oauth2Session, PartialValue, Session, Value,
};

const TUUID: u128 = 0xcc8e95b4_c24f_4d68_ba54_8bed76f63930;
const RS_UUID: u128 = 0x0a0b0c0d_0000_4000_8000_000000000001;
const CURTIME: u64 = 1_700_000_000;

fn text(name: &str, value: &str) -> Ava {
    Ava { name: name.to_string(), value: Value::new_utf8s(value) }
}

fn test_server() -> QueryServer<StandardPlugins> {
    let be = Backend::new();
    let mut schema_outer = Schema::new();
    {
        let mut schema = schema_outer.write();
        schema.bootstrap_core();
        schema.commit();
    }
    QueryServer::new(be, schema_outer, standard_plugins())
}

fn person() -> Entry {
    Entry::from_avas(vec![
        text("class", "object"),
        text("class", "person"),
        text("class", "account"),
        text("name", "testperson1"),
        Ava { name: "uuid".to_string(), value: Value::new_uuid(TUUID) },
        text("description", "testperson1"),
        text("displayname", "testperson1"),
    ])
}

fn resource_server() -> Entry {
    Entry::from_avas(vec![
        text("class", "object"),
        text("class", "oauth2_resource_server"),
        text("class", "oauth2_resource_server_basic"),
        Ava { name: "uuid".to_string(), value: Value::new_uuid(RS_UUID) },
        text("oauth2_rs_name", "test_resource_server"),
        text("displayname", "test_resource_server"),
        text("oauth2_rs_origin", "https://demo.example.com"),
        text("oauth2_rs_scope_map", "openid"),
    ])
}

fn by_uuid() -> Filter {
    Filter::new_eq("uuid", PartialValue::new_uuid(TUUID))
}

fn find(server_txn: &impl QueryServerReadTransaction) -> Entry {
    let mut found = server_txn.internal_search(by_uuid()).expect("failed");
    assert_eq!(found.len(), 1);
    found.remove(0)
}

fn session(expiry: Option<u64>, issued_at: u64) -> Session {
    Session {
        label: "label".to_string(),
        expiry,
        issued_at,
        issued_by: IdentityId::User(TUUID),
        scope: AccessScope::IdentityOnly,
    }
}

#[test]
fn test_session_consistency_expire_old_sessions() {
    let mut server = test_server();
    let curtime = CURTIME;
    let exp_curtime = curtime + 60;

    let mut server_txn = server.write(curtime);
    let ce = CreateEvent::new_internal(vec![person()]);
    assert!(server_txn.create(&ce).is_ok());

    let session_id: u128 = 0x1111;
    let pv_session_id = PartialValue::new_refer(session_id);
    let session = Value::Session(session_id, session(Some(exp_curtime), curtime));

    let modlist = ModifyList::new_append("user_auth_token_session", session);
    server_txn.internal_modify(by_uuid(), modlist).expect("Failed to modify user");

    // Still there
    let entry = find(&server_txn);
    assert!(entry.attribute_equality("user_auth_token_session", &pv_session_id));

    assert!(server_txn.commit().is_ok());
    let mut server_txn = server.write(exp_curtime);

    // Mod again - anything will do.
    let modlist =
        ModifyList::new_purge_and_set("description", Value::new_utf8s("test person 1 change"));
    server_txn.internal_modify(by_uuid(), modlist).expect("Failed to modify user");

    // Session gone.
    let entry = find(&server_txn);
    assert!(!entry.attribute_equality("user_auth_token_session", &pv_session_id));

    assert!(server_txn.commit().is_ok());
}

#[test]
fn test_session_consistency_oauth2_expiry_cleanup() {
    let mut server = test_server();
    let curtime = CURTIME;
    let exp_curtime = curtime + GRACE_WINDOW;

    let mut server_txn = server.write(curtime);
    let ce = CreateEvent::new_internal(vec![person(), resource_server()]);
    assert!(server_txn.create(&ce).is_ok());

    let session_id: u128 = 0x2222;
    let pv_session_id = PartialValue::new_refer(session_id);
    let parent: u128 = 0x3333;
    let pv_parent_id = PartialValue::new_refer(parent);

    let modlist = ModifyList::new_list(vec![
        Modify::Present(
            "oauth2_session".to_string(),
            Value::Oauth2Session(
                session_id,
                Oauth2Session {
                    parent,
                    expiry: Some(exp_curtime),
                    issued_at: curtime,
                    rs_uuid: RS_UUID,
                },
            ),
        ),
        Modify::Present(
            "user_auth_token_session".to_string(),
            Value::Session(parent, session(None, curtime)),
        ),
    ]);
    server_txn.internal_modify(by_uuid(), modlist).expect("Failed to modify user");

    // Still there
    let entry = find(&server_txn);
    assert!(entry.attribute_equality("user_auth_token_session", &pv_parent_id));
    assert!(entry.attribute_equality("oauth2_session", &pv_session_id));

    assert!(server_txn.commit().is_ok());

    // We are now past the expiry: the oauth2 session goes, the parent stays.
    let mut server_txn = server.write(exp_curtime);
    let modlist =
        ModifyList::new_purge_and_set("description", Value::new_utf8s("test person 1 change"));
    server_txn.internal_modify(by_uuid(), modlist).expect("Failed to modify user");

    let entry = find(&server_txn);
    assert!(entry.attribute_equality("user_auth_token_session", &pv_parent_id));
    assert!(!entry.attribute_equality("oauth2_session", &pv_session_id));

    assert!(server_txn.commit().is_ok());
}

#[test]
fn test_session_consistency_oauth2_removed_by_parent() {
    let mut server = test_server();
    let curtime = CURTIME;

    let mut server_txn = server.write(curtime);
    let ce = CreateEvent::new_internal(vec![person(), resource_server()]);
    assert!(server_txn.create(&ce).is_ok());

    let session_id: u128 = 0x4444;
    let pv_session_id = PartialValue::new_refer(session_id);
    let parent: u128 = 0x5555;
    let pv_parent_id = PartialValue::new_refer(parent);

    let modlist = ModifyList::new_list(vec![
        Modify::Present(
            "oauth2_session".to_string(),
            Value::Oauth2Session(
                session_id,
                Oauth2Session { parent, expiry: None, issued_at: curtime, rs_uuid: RS_UUID },
            ),
        ),
        Modify::Present(
            "user_auth_token_session".to_string(),
            Value::Session(parent, session(None, curtime)),
        ),
    ]);
    server_txn.internal_modify(by_uuid(), modlist).expect("Failed to modify user");

    // Still there
    let entry = find(&server_txn);
    assert!(entry.attribute_equality("user_auth_token_session", &pv_parent_id));
    assert!(entry.attribute_equality("oauth2_session", &pv_session_id));

    // Mod again - remove the parent session.
    let modlist = ModifyList::new_remove("user_auth_token_session", pv_parent_id.clone());
    server_txn.internal_modify(by_uuid(), modlist).expect("Failed to modify user");

    let entry = find(&server_txn);
    // The parent session is removed,
    assert!(!entry.attribute_equality("user_auth_token_session", &pv_parent_id));
    // and the oauth2 session with it.
    assert!(!entry.attribute_equality("oauth2_session", &pv_session_id));

    assert!(server_txn.commit().is_ok());

    let server_txn = server.read();
    let entry = find(&server_txn);
    assert!(!entry.attribute_equality("user_auth_token_session", &pv_parent_id));
    assert!(!entry.attribute_equality("oauth2_session", &pv_session_id));
}

#[test]
fn test_session_consistency_oauth2_grace_window_past() {
    let mut server = test_server();
    let curtime = CURTIME;
    let exp_curtime = curtime + GRACE_WINDOW;

    let mut server_txn = server.write(curtime);
    let ce = CreateEvent::new_internal(vec![person(), resource_server()]);
    assert!(server_txn.create(&ce).is_ok());

    let session_id: u128 = 0x6666;
    let pv_session_id = PartialValue::new_refer(session_id);
    let parent: u128 = 0x7777;

    let session = Value::Oauth2Session(
        session_id,
        Oauth2Session { parent, expiry: None, issued_at: curtime, rs_uuid: RS_UUID },
    );
    let modlist = ModifyList::new_append("oauth2_session", session);
    server_txn.internal_modify(by_uuid(), modlist).expect("Failed to modify user");

    // Still there
    let entry = find(&server_txn);
    assert!(entry.attribute_equality("oauth2_session", &pv_session_id));

    assert!(server_txn.commit().is_ok());

    // One second before the window closes the session is kept.
    let mut server_txn = server.write(exp_curtime - 1);
    let modlist =
        ModifyList::new_purge_and_set("description", Value::new_utf8s("test person 1 change"));
    server_txn.internal_modify(by_uuid(), modlist).expect("Failed to modify user");
    let entry = find(&server_txn);
    assert!(entry.attribute_equality("oauth2_session", &pv_session_id));
    assert!(server_txn.commit().is_ok());

    // The window is over: consistency purges the unmatched session.
    let mut server_txn = server.write(exp_curtime);
    let modlist =
        ModifyList::new_purge_and_set("description", Value::new_utf8s("test person 1 change"));
    server_txn.internal_modify(by_uuid(), modlist).expect("Failed to modify user");

    let entry = find(&server_txn);
    assert!(!entry.attribute_equality("oauth2_session", &pv_session_id));

    assert!(server_txn.commit().is_ok());
}

#[test]
fn sweep_keeps_session_until_expiry() {
    let mut e = Entry::new();
    e.add_ava("name", Value::new_utf8s("testperson1"));
    e.add_ava("user_auth_token_session", Value::Session(7, session(Some(1060), 1000)));
    let pre = e.clone();
    sweep_entry(&pre, &mut e, 1059);
    assert!(e.attribute_equality("user_auth_token_session", &PartialValue::new_refer(7)));
    sweep_entry(&pre, &mut e, 1060);
    assert!(!e.attribute_equality("user_auth_token_session", &PartialValue::new_refer(7)));
    assert!(e.attribute_pres("name"));
    assert_eq!(e.len(), 1);
}

#[test]
fn sweep_twice_changes_nothing_more() {
    let mut e = Entry::new();
    e.add_ava("user_auth_token_session", Value::Session(1, session(Some(50), 0)));
    e.add_ava("user_auth_token_session", Value::Session(2, session(None, 0)));
    e.add_ava(
        "oauth2_session",
        Value::Oauth2Session(
            10,
            Oauth2Session { parent: 1, expiry: None, issued_at: 40, rs_uuid: 9 },
        ),
    );
    e.add_ava(
        "oauth2_session",
        Value::Oauth2Session(
            11,
            Oauth2Session { parent: 2, expiry: None, issued_at: 40, rs_uuid: 9 },
        ),
    );
    e.add_ava(
        "oauth2_session",
        Value::Oauth2Session(
            12,
            Oauth2Session { parent: 3, expiry: None, issued_at: 40, rs_uuid: 9 },
        ),
    );
    let pre = Entry::new();
    sweep_entry(&pre, &mut e, 60);
    let once = e.clone();
    // Session 1 has expired and takes its child 10 along; 11 has a live
    // parent; 12 has none but is within its grace window.
    assert!(!once.attribute_equality("user_auth_token_session", &PartialValue::new_refer(1)));
    assert!(once.attribute_equality("user_auth_token_session", &PartialValue::new_refer(2)));
    assert!(!once.attribute_equality("oauth2_session", &PartialValue::new_refer(10)));
    assert!(once.attribute_equality("oauth2_session", &PartialValue::new_refer(11)));
    assert!(once.attribute_equality("oauth2_session", &PartialValue::new_refer(12)));
    sweep_entry(&pre, &mut e, 60);
    assert_eq!(e, once);
    assert_eq!(e.len(), 3);
}

#[test]
fn grace_window_is_300_seconds() {
    assert_eq!(GRACE_WINDOW, 300);
    let child = |issued_at: u64| {
        let mut e = Entry::new();
        e.add_ava(
            "oauth2_session",
            Value::Oauth2Session(
                12,
                Oauth2Session { parent: 3, expiry: None, issued_at, rs_uuid: 9 },
            ),
        );
        e
    };
    let pre = Entry::new();
    let mut e = child(1000);
    sweep_entry(&pre, &mut e, 1299);
    assert_eq!(e.len(), 1);
    sweep_entry(&pre, &mut e, 1300);
    assert_eq!(e.len(), 0);
    // A session issued after the time of the transaction is within its window.
    let mut e = child(2000);
    sweep_entry(&pre, &mut e, 1000);
    assert_eq!(e.len(), 1);
}

#[test]
fn parent_removed_in_a_later_transaction_takes_the_child_along() {
    let mut server = test_server();
    let curtime = CURTIME;
    let parent: u128 = 0x8888;
    let child: u128 = 0x9999;
    {
        let mut server_txn = server.write(curtime);
        assert!(server_txn.internal_create(vec![person(), resource_server()]).is_ok());
        let modlist = ModifyList::new_list(vec![
            Modify::Present(
                "user_auth_token_session".to_string(),
                Value::Session(parent, session(None, curtime)),
            ),
            Modify::Present(
                "oauth2_session".to_string(),
                Value::Oauth2Session(
                    child,
                    Oauth2Session { parent, expiry: None, issued_at: curtime, rs_uuid: RS_UUID },
                ),
            ),
        ]);
        server_txn.internal_modify(by_uuid(), modlist).expect("Failed to modify user");
        assert!(server_txn.commit().is_ok());
    }
    // long after the grace window the child is kept, because its parent lives
    {
        let mut server_txn = server.write(curtime + 10 * GRACE_WINDOW);
        let modlist = ModifyList::new_purge_and_set("description", Value::new_utf8s("later"));
        server_txn.internal_modify(by_uuid(), modlist).expect("Failed to modify user");
        let entry = find(&server_txn);
        assert!(entry.attribute_equality("oauth2_session", &PartialValue::new_refer(child)));
        assert!(server_txn.commit().is_ok());
    }
    {
        let mut server_txn = server.write(curtime + 1);
        let modlist =
            ModifyList::new_remove("user_auth_token_session", PartialValue::new_refer(parent));
        server_txn.internal_modify(by_uuid(), modlist).expect("Failed to modify user");
        assert!(server_txn.commit().is_ok());
    }
    let entry = find(&server.read());
    assert!(!entry.attribute_equality("user_auth_token_session", &PartialValue::new_refer(parent)));
    assert!(!entry.attribute_equality("oauth2_session", &PartialValue::new_refer(child)));
    assert!(entry.attribute_equality("description", &PartialValue::new_utf8s("later")));
}

#[test]
fn create_sweeps_sessions_too() {
    let mut server = test_server();
    let mut e = person();
    e.add_ava("user_auth_token_session", Value::Session(1, session(Some(CURTIME), 0)));
    e.add_ava("user_auth_token_session", Value::Session(2, session(Some(CURTIME + 1), 0)));
    let mut server_txn = server.write(CURTIME);
    assert!(server_txn.internal_create(vec![e]).is_ok());
    let entry = find(&server_txn);
    assert!(!entry.attribute_equality("user_auth_token_session", &PartialValue::new_refer(1)));
    assert!(entry.attribute_equality("user_auth_token_session", &PartialValue::new_refer(2)));
}
