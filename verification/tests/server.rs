use kanidmd_lib::be::Backend;
use kanidmd_lib::entry::{Ava, Entry};
use kanidmd_lib::event::{CreateEvent, SearchEvent};
use kanidmd_lib::filter::Filter;
use kanidmd_lib::plugins::session::{standard_plugins, StandardPlugins};
use kanidmd_lib::schema::Schema;
use kanidmd_lib::server::{QueryServer, QueryServerReadTransaction};
use kanidmd_lib::value::Value;

fn text(name: &str, value: &str) -> Ava {
    Ava { name: name.to_string(), value: Value::new_utf8s(value) }
}

fn test_server() -> QueryServer<StandardPlugins> {
    let be = Backend::new();
    let mut schema_outer = Schema::new();
    {
        let mut schema = schema_outer.write();
        schema.bootstrap_core();
        schema.commit();
    }
    QueryServer::new(be, schema_outer, standard_plugins())
}

#[test]
fn test_be_create_user() {
    let mut server = test_server();
    let mut server_txn = server.write(0);
    let se1 = SearchEvent::new(Filter::new_pres("name"));
    let se2 = SearchEvent::new(Filter::new_pres("name"));

    let e = Entry::from_avas(vec![
        text("class", "object"),
        text("class", "person"),
        text("name", "testperson"),
        Ava {
            name: "uuid".to_string(),
            value: Value::new_uuid(0xcc8e95b4_c24f_4d68_ba54_8bed76f63930),
        },
        text("description", "testperson"),
        text("displayname", "testperson"),
    ]);

    let expected = vec![e];

    let ce = CreateEvent::from_vec(expected.clone());

    let r1 = server_txn.search(&se1).unwrap();
    assert!(r1.len() == 0);

    let cr = server_txn.create(&ce);
    assert!(cr.is_ok());

    let r2 = server_txn.search(&se2).unwrap();
    println!("--> {:?}", r2);
    assert!(r2.len() == 1);

    assert_eq!(r2, expected);

    assert!(server_txn.commit().is_ok());
}

#[test]
fn test_qs_init_idempotent_1() {
    let mut server = test_server();
    {
        // Setup and abort.
        let mut server_txn = server.write(0);
        assert!(server_txn.initialise().is_ok());
    }
    {
        let mut server_txn = server.write(0);
        assert!(server_txn.initialise().is_ok());
        assert!(server_txn.initialise().is_ok());
        assert!(server_txn.commit().is_ok());
    }
    {
        // Now do it again in a new txn, but abort
        let mut server_txn = server.write(0);
        assert!(server_txn.initialise().is_ok());
    }
    {
        // Now do it again in a new txn.
        let mut server_txn = server.write(0);
        assert!(server_txn.initialise().is_ok());
        assert!(server_txn.commit().is_ok());
    }
}
