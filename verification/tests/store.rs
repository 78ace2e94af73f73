use vigil::store::{HostStore, HostUpdate, NewHost, StoreError};

fn new_host(name: &str, ip: &str, mac: &str) -> NewHost {
    NewHost {
        name: String::from(name),
        ip_address: String::from(ip),
        mac_address: String::from(mac),
    }
}

fn no_change() -> HostUpdate {
    HostUpdate {
        name: None,
        ip_address: None,
        mac_address: None,
    }
}

#[test]
fn create_assigns_increasing_ids_starting_at_one() {
    let mut store = HostStore::new();
    let a = store.create(new_host("a", "10.0.0.1", "aa:aa:aa:aa:aa:aa"));
    let b = store.create(new_host("b", "10.0.0.2", "bb:bb:bb:bb:bb:bb"));
    let c = store.create(new_host("c", "10.0.0.3", "cc:cc:cc:cc:cc:cc"));
    assert_eq!(a.id, 1);
    assert_eq!(b.id, 2);
    assert_eq!(c.id, 3);
}

#[test]
fn create_stores_fields_verbatim() {
    let mut store = HostStore::new();
    let host = store.create(new_host("pc1", "192.168.1.10", "aa:bb:cc:dd:ee:ff"));
    assert_eq!(host.name, "pc1");
    assert_eq!(host.ip_address, "192.168.1.10");
    assert_eq!(host.mac_address, "aa:bb:cc:dd:ee:ff");
}

#[test]
fn ids_are_not_reused_after_delete() {
    let mut store = HostStore::new();
    let a = store.create(new_host("a", "10.0.0.1", "aa:aa:aa:aa:aa:aa"));
    let b = store.create(new_host("b", "10.0.0.2", "bb:bb:bb:bb:bb:bb"));
    store.delete(b.id);
    store.delete(a.id);
    let c = store.create(new_host("c", "10.0.0.3", "cc:cc:cc:cc:cc:cc"));
    assert_eq!(c.id, 3);
}

#[test]
fn get_returns_the_stored_host() {
    let mut store = HostStore::new();
    let created = store.create(new_host("pc1", "192.168.1.10", "aa:bb:cc:dd:ee:ff"));
    let got = store.get(created.id).unwrap();
    assert_eq!(got.id, created.id);
    assert_eq!(got.name, "pc1");
    assert_eq!(got.ip_address, "192.168.1.10");
    assert_eq!(got.mac_address, "aa:bb:cc:dd:ee:ff");
}

#[test]
fn get_of_unknown_id_is_not_found() {
    let store = HostStore::new();
    assert_eq!(store.get(7).unwrap_err(), StoreError::NotFound);
}

#[test]
fn list_returns_all_hosts_in_id_order() {
    let mut store = HostStore::new();
    store.create(new_host("a", "10.0.0.1", "aa:aa:aa:aa:aa:aa"));
    store.create(new_host("b", "10.0.0.2", "bb:bb:bb:bb:bb:bb"));
    store.create(new_host("c", "10.0.0.3", "cc:cc:cc:cc:cc:cc"));
    store.delete(2);
    let hosts = store.list();
    assert_eq!(hosts.len(), 2);
    assert_eq!(hosts[0].id, 1);
    assert_eq!(hosts[0].name, "a");
    assert_eq!(hosts[1].id, 3);
    assert_eq!(hosts[1].name, "c");
}

#[test]
fn update_of_name_changes_only_name() {
    let mut store = HostStore::new();
    let host = store.create(new_host("pc1", "192.168.1.10", "aa:bb:cc:dd:ee:ff"));
    let updated = store
        .update(
            host.id,
            HostUpdate {
                name: Some(String::from("x")),
                ip_address: None,
                mac_address: None,
            },
        )
        .unwrap();
    assert_eq!(updated.id, host.id);
    assert_eq!(updated.name, "x");
    assert_eq!(updated.ip_address, "192.168.1.10");
    assert_eq!(updated.mac_address, "aa:bb:cc:dd:ee:ff");
    let stored = store.get(host.id).unwrap();
    assert_eq!(stored.name, "x");
    assert_eq!(stored.ip_address, "192.168.1.10");
    assert_eq!(stored.mac_address, "aa:bb:cc:dd:ee:ff");
}

#[test]
fn update_overwrites_with_explicit_empty_string() {
    let mut store = HostStore::new();
    let host = store.create(new_host("pc1", "192.168.1.10", "aa:bb:cc:dd:ee:ff"));
    let updated = store
        .update(
            host.id,
            HostUpdate {
                name: Some(String::from("")),
                ip_address: None,
                mac_address: None,
            },
        )
        .unwrap();
    assert_eq!(updated.name, "");
    assert_eq!(updated.ip_address, "192.168.1.10");
}

#[test]
fn update_of_all_fields_changes_all_fields() {
    let mut store = HostStore::new();
    let host = store.create(new_host("pc1", "192.168.1.10", "aa:bb:cc:dd:ee:ff"));
    let updated = store
        .update(
            host.id,
            HostUpdate {
                name: Some(String::from("pc2")),
                ip_address: Some(String::from("192.168.1.11")),
                mac_address: Some(String::from("11:22:33:44:55:66")),
            },
        )
        .unwrap();
    assert_eq!(updated.name, "pc2");
    assert_eq!(updated.ip_address, "192.168.1.11");
    assert_eq!(updated.mac_address, "11:22:33:44:55:66");
}

#[test]
fn update_of_unknown_id_is_not_found_and_changes_nothing() {
    let mut store = HostStore::new();
    store.create(new_host("a", "10.0.0.1", "aa:aa:aa:aa:aa:aa"));
    let err = store
        .update(
            99,
            HostUpdate {
                name: Some(String::from("x")),
                ip_address: None,
                mac_address: None,
            },
        )
        .unwrap_err();
    assert_eq!(err, StoreError::NotFound);
    let hosts = store.list();
    assert_eq!(hosts.len(), 1);
    assert_eq!(hosts[0].name, "a");
    assert_eq!(hosts[0].ip_address, "10.0.0.1");
}

#[test]
fn update_with_no_fields_changes_nothing() {
    let mut store = HostStore::new();
    let host = store.create(new_host("pc1", "192.168.1.10", "aa:bb:cc:dd:ee:ff"));
    let updated = store.update(host.id, no_change()).unwrap();
    assert_eq!(updated.name, "pc1");
    assert_eq!(updated.ip_address, "192.168.1.10");
    assert_eq!(updated.mac_address, "aa:bb:cc:dd:ee:ff");
}

#[test]
fn delete_removes_the_host() {
    let mut store = HostStore::new();
    let host = store.create(new_host("pc1", "192.168.1.10", "aa:bb:cc:dd:ee:ff"));
    store.delete(host.id);
    assert_eq!(store.get(host.id).unwrap_err(), StoreError::NotFound);
    assert_eq!(store.list().len(), 0);
}

#[test]
fn delete_of_unknown_id_succeeds_and_changes_nothing() {
    let mut store = HostStore::new();
    store.create(new_host("a", "10.0.0.1", "aa:aa:aa:aa:aa:aa"));
    store.delete(42);
    let hosts = store.list();
    assert_eq!(hosts.len(), 1);
    assert_eq!(hosts[0].id, 1);
    assert_eq!(hosts[0].name, "a");
}

#[test]
fn can_create_holds_for_a_fresh_store() {
    let store = HostStore::new();
    assert!(store.can_create());
}
