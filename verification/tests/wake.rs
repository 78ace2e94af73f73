use vigil::net::ParseError;
use vigil::store::{HostStore, NewHost};
use vigil::wake::{prepare_wake, WakeError};

fn new_host(name: &str, ip: &str, mac: &str) -> NewHost {
    NewHost {
        name: String::from(name),
        ip_address: String::from(ip),
        mac_address: String::from(mac),
    }
}

#[test]
fn create_get_and_wake_end_to_end() {
    let mut store = HostStore::new();
    let created = store.create(new_host("pc1", "192.168.1.10", "aa:bb:cc:dd:ee:ff"));
    let got = store.get(created.id).unwrap();
    assert_eq!(got.name, "pc1");
    assert_eq!(got.ip_address, "192.168.1.10");
    assert_eq!(got.mac_address, "aa:bb:cc:dd:ee:ff");

    let packet = prepare_wake(&store, created.id).unwrap();
    let bytes = packet.bytes();
    assert_eq!(bytes.len(), 102);
    let mac = [0xaa, 0xbb, 0xcc, 0xdd, 0xee, 0xff];
    for i in 0..6 {
        assert_eq!(bytes[i], 0xff);
    }
    for k in 0..16 {
        for j in 0..6 {
            assert_eq!(bytes[6 + 6 * k + j], mac[j]);
        }
    }
}

#[test]
fn waking_an_unknown_id_is_not_found() {
    let store = HostStore::new();
    assert_eq!(prepare_wake(&store, 1).unwrap_err(), WakeError::NotFound);
}

#[test]
fn waking_a_host_with_a_malformed_address_reports_the_parse_error() {
    let mut store = HostStore::new();
    let bad_hex = store.create(new_host("a", "10.0.0.1", "zz:bb:cc:dd:ee:ff"));
    let short = store.create(new_host("b", "10.0.0.2", "aa:bb:cc"));
    assert_eq!(
        prepare_wake(&store, bad_hex.id).unwrap_err(),
        WakeError::Parse(ParseError::InvalidHex)
    );
    assert_eq!(
        prepare_wake(&store, short.id).unwrap_err(),
        WakeError::Parse(ParseError::WrongOctetCount)
    );
}

#[test]
fn a_malformed_address_is_accepted_at_write_time() {
    let mut store = HostStore::new();
    let host = store.create(new_host("a", "10.0.0.1", "not a mac"));
    assert_eq!(store.get(host.id).unwrap().mac_address, "not a mac");
}
