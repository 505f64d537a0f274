use kanidmd_lib::be::{Backend, BackendReadTransaction};
use kanidmd_lib::entry::{Ava, Entry};
use kanidmd_lib::error::BackendError;
use kanidmd_lib::filter::Filter;
use kanidmd_lib::value::{PartialValue, Value};

fn named(name: &str) -> Entry {
    Entry::from_avas(vec![Ava { name: "name".to_string(), value: Value::new_utf8s(name) }])
}

fn by_name(name: &str) -> Filter {
    Filter::new_eq("name", PartialValue::new_utf8s(name))
}

#[test]
fn create_gives_identifiers_in_order() {
    let mut be = Backend::new();
    let mut txn = be.write();
    assert_eq!(txn.next_id(), 0);
    assert_eq!(txn.create(&vec![named("a"), named("b")]), Ok(()));
    assert_eq!(txn.create(&vec![named("c")]), Ok(()));
    assert_eq!(txn.next_id(), 3);
    let all = txn.search(&Filter::new_pres("name"));
    assert_eq!(all.len(), 3);
    assert_eq!(all[0].get_id(), Some(0));
    assert_eq!(all[1].get_id(), Some(1));
    assert_eq!(all[2].get_id(), Some(2));
    assert_eq!(all[1], named("b"));
    assert!(txn.exists_entry(&by_name("c")));
    assert!(!txn.exists_entry(&by_name("d")));
}

#[test]
fn empty_create_is_refused() {
    let mut be = Backend::new();
    let mut txn = be.write();
    assert_eq!(txn.create(&vec![]), Err(BackendError::EmptyRequest));
    assert_eq!(txn.modify(&vec![]), Err(BackendError::EmptyRequest));
    assert_eq!(txn.next_id(), 0);
}

#[test]
fn identifiers_run_out() {
    let mut be = Backend::restore(vec![], u64::MAX - 1).expect("no store");
    let mut txn = be.write();
    assert_eq!(txn.create(&vec![named("a"), named("b")]), Err(BackendError::IdExhausted));
    assert_eq!(txn.search(&Filter::new_pres("name")).len(), 0);
    assert_eq!(txn.create(&vec![named("a")]), Ok(()));
    assert_eq!(txn.next_id(), u64::MAX);
    assert_eq!(txn.create(&vec![named("b")]), Err(BackendError::IdExhausted));
}

#[test]
fn modify_replaces_by_identifier() {
    let mut be = Backend::new();
    let mut txn = be.write();
    assert_eq!(txn.create(&vec![named("a"), named("b"), named("c")]), Ok(()));
    assert_eq!(txn.modify(&vec![named("x").with_id(Some(1))]), Ok(()));
    let all = txn.search(&Filter::new_pres("name"));
    assert_eq!(all[0], named("a"));
    assert_eq!(all[1], named("x"));
    assert_eq!(all[1].get_id(), Some(1));
    assert_eq!(all[2], named("c"));
    // an entry that is not stored, or has no identifier, stops the whole request
    assert_eq!(
        txn.modify(&vec![named("y").with_id(Some(0)), named("z").with_id(Some(9))]),
        Err(BackendError::NoSuchEntry)
    );
    assert_eq!(txn.modify(&vec![named("y")]), Err(BackendError::NoSuchEntry));
    let all = txn.search(&Filter::new_pres("name"));
    assert_eq!(all[0], named("a"));
}

#[test]
fn drop_aborts_and_commit_publishes() {
    let mut be = Backend::new();
    {
        let mut txn = be.write();
        assert_eq!(txn.create(&vec![named("a")]), Ok(()));
    }
    assert_eq!(be.read().search(&Filter::new_pres("name")).len(), 0);
    {
        let mut txn = be.write();
        assert_eq!(txn.create(&vec![named("a")]), Ok(()));
        txn.commit();
    }
    let read = be.read();
    {
        // a read transaction keeps the state that it was opened on
        let mut txn = be.write();
        assert_eq!(txn.create(&vec![named("b")]), Ok(()));
        txn.commit();
    }
    assert_eq!(read.search(&Filter::new_pres("name")).len(), 1);
    assert_eq!(be.read().search(&Filter::new_pres("name")).len(), 2);
    assert!(be.read().exists_entry(&by_name("b")));
}

#[test]
fn dump_and_restore() {
    let mut be = Backend::new();
    {
        let mut txn = be.write();
        assert_eq!(txn.create(&vec![named("a"), named("b")]), Ok(()));
        txn.commit();
    }
    let (entries, next_id) = be.dump();
    assert_eq!(next_id, 2);
    assert_eq!(entries.len(), 2);
    let again = Backend::restore(entries, next_id).expect("no store");
    assert!(again.read().exists_entry(&by_name("b")));
    assert_eq!(again.dump().1, 2);
    // what is refused
    assert!(Backend::restore(vec![named("a")], 5).is_none());
    assert!(Backend::restore(vec![named("a").with_id(Some(5))], 5).is_none());
    assert!(Backend::restore(
        vec![named("a").with_id(Some(1)), named("b").with_id(Some(1))],
        5
    )
    .is_none());
    let upper = Entry::from_avas(vec![Ava {
        name: "Name".to_string(),
        value: Value::new_utf8s("a"),
    }]);
    assert!(Backend::restore(vec![upper.with_id(Some(1))], 5).is_none());
    assert!(Backend::restore(vec![named("a").with_id(Some(4))], 5).is_some());
}
