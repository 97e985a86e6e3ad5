use wakala::ip::is_address;

#[test]
fn four_numbers_are_an_address() {
    for s in ["0.0.0.0", "127.0.0.1", "203.0.113.7", "255.255.255.255"] {
        assert!(is_address(s), "{s}");
    }
    for s in [
        "", ".", "1.2.3", "1.2.3.4.5", "1.2.3.", ".1.2.3", "1..2.3", "256.0.0.1", "01.2.3.4",
        "00.0.0.0", "1.2.3.+4", "1.2.3.-4", "1.2.3.4 ", " 1.2.3.4", "1.2.3.1000", "1.2.3.a",
        "0x7f.0.0.1",
    ] {
        assert!(!is_address(s), "{s}");
    }
}

#[test]
fn eight_groups_are_an_address_and_some_may_be_left_out() {
    for s in [
        "::", "::1", "1::", "2001:db8::1", "1:2:3:4:5:6:7:8", "1:2:3:4:5:6:7::", "::2:3:4:5:6:7:8",
        "fe80::ABCD:abcd", "::ffff:192.0.2.1", "1:2:3:4:5:6:1.2.3.4", "64:ff9b::1.2.3.4",
        "1:2:3:4:5::1.2.3.4", "::1.2.3.4",
    ] {
        assert!(is_address(s), "{s}");
    }
    for s in [
        ":", ":::", "1", "1:2", "1:2:3:4:5:6:7", "1:2:3:4:5:6:7:8:9", "1:2:3:4::5:6:7:8", "1::2::3",
        "::12345", "::g", ":1::2", "1::2:", "1.2.3.4::", "1.2.3.4::1", "1:2:3:4:5:6:7:1.2.3.4",
        "1:2:3:4:5:6::1.2.3.4", "::1.2.3.4:5", "::1.2.3", "fe80::1%eth0", "[::1]", "::1/64", "1:::2",
    ] {
        assert!(!is_address(s), "{s}");
    }
}
