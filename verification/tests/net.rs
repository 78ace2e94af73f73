use vigil::net::{MacAddress, MagicPacket, ParseError};

#[test]
fn valid_mac_address_parses_successfully() {
    let address: MacAddress = "01:23:45:ab:cd:ef".parse().unwrap();
    assert_eq!(address.octets(), vec![0x01, 0x23, 0x45, 0xab, 0xcd, 0xef]);
}

#[test]
#[should_panic]
fn mac_address_with_too_few_octets_does_not_parse() {
    let _: MacAddress = "01:23:45:ab".parse().unwrap();
}

#[test]
#[should_panic]
fn mac_address_with_too_many_octets_does_not_parse() {
    let _: MacAddress = "01:23:45:ab:cd:ef:45".parse().unwrap();
}

#[test]
#[should_panic]
fn mac_address_with_invalid_hex_does_not_parse() {
    let _: MacAddress = "01:23:45:ab:cd:eg".parse().unwrap();
}

#[test]
fn too_few_octets_reports_wrong_octet_count() {
    assert_eq!(
        MacAddress::parse("01:23:45:ab").unwrap_err(),
        ParseError::WrongOctetCount
    );
}

#[test]
fn too_many_octets_reports_wrong_octet_count() {
    assert_eq!(
        MacAddress::parse("01:23:45:ab:cd:ef:45").unwrap_err(),
        ParseError::WrongOctetCount
    );
}

#[test]
fn invalid_hex_reports_invalid_hex() {
    assert_eq!(
        MacAddress::parse("01:23:45:ab:cd:eg").unwrap_err(),
        ParseError::InvalidHex
    );
}

#[test]
fn octet_count_is_judged_before_hex_validity() {
    assert_eq!(
        MacAddress::parse("01:23:45:ab:cd:ef:zz").unwrap_err(),
        ParseError::WrongOctetCount
    );
}

#[test]
fn empty_string_does_not_parse() {
    assert_eq!(
        MacAddress::parse("").unwrap_err(),
        ParseError::WrongOctetCount
    );
}

#[test]
fn parsing_is_case_insensitive() {
    let lower = MacAddress::parse("aa:bb:cc:dd:ee:ff").unwrap();
    let upper = MacAddress::parse("AA:BB:CC:DD:EE:FF").unwrap();
    assert!(lower == upper);
    assert_eq!(upper.octets(), vec![0xaa, 0xbb, 0xcc, 0xdd, 0xee, 0xff]);
}

#[test]
fn single_digit_segments_parse() {
    let address = MacAddress::parse("1:2:3:4:5:f").unwrap();
    assert_eq!(address.octets(), vec![1, 2, 3, 4, 5, 0xf]);
}

#[test]
fn octet_reads_each_position() {
    let address = MacAddress::parse("01:23:45:ab:cd:ef").unwrap();
    assert_eq!(address.octet(0), 0x01);
    assert_eq!(address.octet(3), 0xab);
    assert_eq!(address.octet(5), 0xef);
}

#[test]
fn formatting_is_lowercase_colon_hex() {
    let address = MacAddress::parse("0A:1B:2C:3D:4E:5F").unwrap();
    assert_eq!(address.to_text(), "0a:1b:2c:3d:4e:5f");
}

#[test]
fn parse_then_format_round_trips() {
    let text = "01:23:45:AB:cd:EF";
    let address = MacAddress::parse(text).unwrap();
    let canonical = address.to_text();
    assert_eq!(canonical, "01:23:45:ab:cd:ef");
    let reparsed = MacAddress::parse(&canonical).unwrap();
    assert!(address == reparsed);
    assert_eq!(reparsed.octets(), address.octets());
}

#[test]
fn format_pads_single_digit_octets() {
    let address = MacAddress::parse("1:2:3:4:5:6").unwrap();
    assert_eq!(address.to_text(), "01:02:03:04:05:06");
}

#[test]
fn magic_packet_has_wake_on_lan_layout() {
    let address = MacAddress::parse("01:23:45:ab:cd:ef").unwrap();
    let packet = MagicPacket::for_mac_address(&address);
    let bytes = packet.bytes();
    assert_eq!(bytes.len(), 102);
    for i in 0..6 {
        assert_eq!(bytes[i], 0xff);
    }
    for k in 0..16 {
        for j in 0..6 {
            assert_eq!(bytes[6 + 6 * k + j], address.octet(j));
        }
    }
}
