use ssh_knock::net::IpAddress;

#[test]
fn ipv4_text_is_dotted_decimal() {
    assert_eq!(IpAddress::v4(1, 2, 3, 4).to_text(), "1.2.3.4");
    assert_eq!(IpAddress::v4(0, 0, 0, 0).to_text(), "0.0.0.0");
    assert_eq!(IpAddress::v4(255, 10, 100, 9).to_text(), "255.10.100.9");
}

#[test]
fn ipv6_text_compresses_first_longest_zero_run() {
    assert_eq!(IpAddress::V6(1).to_text(), "::1");
    assert_eq!(IpAddress::V6(0).to_text(), "::");
    assert_eq!(IpAddress::V6(0x2001_0db8_0000_0000_0000_0000_0000_0001).to_text(), "2001:db8::1");
    assert_eq!(IpAddress::V6(0x0001_0000_0000_0002_0000_0000_0000_0003).to_text(), "1:0:0:2::3");
    assert_eq!(IpAddress::V6(0x0001_0000_0000_0002_0000_0000_0003_0004).to_text(), "1::2:0:0:3:4");
    assert_eq!(IpAddress::V6(0x0001_0000_0002_0003_0004_0005_0006_0007).to_text(), "1:0:2:3:4:5:6:7");
    assert_eq!(IpAddress::V6(0xfe80_0000_0000_0000_abcd_0000_0000_0000).to_text(), "fe80::abcd:0:0:0");
}

#[test]
fn ipv4_mapped_ipv6_text_shows_the_ipv4_address() {
    assert_eq!(IpAddress::V6(0x0000_0000_0000_0000_0000_ffff_c000_0201).to_text(), "::ffff:192.0.2.1");
}

#[test]
fn address_equality_distinguishes_families() {
    assert_eq!(IpAddress::v4(1, 2, 3, 4), IpAddress::V4(0x0102_0304));
    assert_ne!(IpAddress::V4(1), IpAddress::V6(1));
}
