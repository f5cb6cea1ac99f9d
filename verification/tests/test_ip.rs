use portscan::IpAddress;

fn v4(a: u8, b: u8, c: u8, d: u8) -> Option<IpAddress> {
    Some(IpAddress::V4(u32::from_be_bytes([a, b, c, d])))
}

fn v6(groups: [u16; 8]) -> Option<IpAddress> {
    let mut bits: u128 = 0;
    for group in groups {
        bits = (bits << 16) | u128::from(group);
    }
    Some(IpAddress::V6(bits))
}

#[test]
fn ipv4_addresses_are_read() {
    assert_eq!(IpAddress::parse("127.0.0.1"), v4(127, 0, 0, 1));
    assert_eq!(IpAddress::parse("127.0.0.1"), Some(IpAddress::V4(0x7f00_0001)));
    assert_eq!(IpAddress::parse("0.0.0.0"), Some(IpAddress::V4(0)));
    assert_eq!(IpAddress::parse("255.255.255.255"), Some(IpAddress::V4(u32::MAX)));
    assert_eq!(IpAddress::parse("192.168.1.1"), v4(192, 168, 1, 1));
    assert_eq!(IpAddress::parse("10.255.255.255"), v4(10, 255, 255, 255));
    assert_eq!(IpAddress::parse("1.2.3.0"), v4(1, 2, 3, 0));
    assert_eq!(IpAddress::parse("1.20.100.9"), v4(1, 20, 100, 9));
}

#[test]
fn ipv4_needs_four_octets() {
    assert_eq!(IpAddress::parse(""), None);
    assert_eq!(IpAddress::parse("1"), None);
    assert_eq!(IpAddress::parse("1.2.3"), None);
    assert_eq!(IpAddress::parse("1.2.3.4.5"), None);
    assert_eq!(IpAddress::parse("1..2.3"), None);
    assert_eq!(IpAddress::parse(".1.2.3"), None);
    assert_eq!(IpAddress::parse("1.2.3.4."), None);
    assert_eq!(IpAddress::parse("...."), None);
    assert_eq!(IpAddress::parse("."), None);
}

#[test]
fn ipv4_octets_are_at_most_255() {
    assert_eq!(IpAddress::parse("256.1.1.1"), None);
    assert_eq!(IpAddress::parse("1.1.1.256"), None);
    assert_eq!(IpAddress::parse("1.1.999.1"), None);
    assert_eq!(IpAddress::parse("1.1.1000.1"), None);
    assert_eq!(IpAddress::parse("255.255.255.255"), v4(255, 255, 255, 255));
}

#[test]
fn ipv4_octets_have_no_leading_zeros() {
    assert_eq!(IpAddress::parse("01.2.3.4"), None);
    assert_eq!(IpAddress::parse("1.2.3.04"), None);
    assert_eq!(IpAddress::parse("00.0.0.0"), None);
    assert_eq!(IpAddress::parse("0001.2.3.4"), None);
    assert_eq!(IpAddress::parse("1.2.3.000"), None);
    assert_eq!(IpAddress::parse("0.0.0.0"), v4(0, 0, 0, 0));
}

#[test]
fn ipv4_takes_digits_and_dots_only() {
    assert_eq!(IpAddress::parse("invalid_ip"), None);
    assert_eq!(IpAddress::parse("1.2.3.4 "), None);
    assert_eq!(IpAddress::parse(" 1.2.3.4"), None);
    assert_eq!(IpAddress::parse("1.2.3.a"), None);
    assert_eq!(IpAddress::parse("1.2.3.-4"), None);
    assert_eq!(IpAddress::parse("+1.2.3.4"), None);
    assert_eq!(IpAddress::parse("1.2.3.4:80"), None);
    assert_eq!(IpAddress::parse("1.2.3.4/8"), None);
    assert_eq!(IpAddress::parse("localhost"), None);
}

#[test]
fn text_outside_ascii_is_no_address() {
    assert_eq!(IpAddress::parse("127.0.0.1\u{e9}"), None);
    assert_eq!(IpAddress::parse("\u{ff11}.2.3.4"), None);
    assert_eq!(IpAddress::parse("\u{661}.2.3.4"), None);
    assert_eq!(IpAddress::parse("::\u{ff11}"), None);
}

#[test]
fn full_ipv6_addresses_are_read() {
    assert_eq!(
        IpAddress::parse("1:2:3:4:5:6:7:8"),
        Some(IpAddress::V6(0x0001_0002_0003_0004_0005_0006_0007_0008))
    );
    assert_eq!(
        IpAddress::parse("2001:db8:85a3:0:0:8a2e:370:7334"),
        v6([0x2001, 0xdb8, 0x85a3, 0, 0, 0x8a2e, 0x370, 0x7334])
    );
    assert_eq!(
        IpAddress::parse("ffff:ffff:ffff:ffff:ffff:ffff:ffff:ffff"),
        Some(IpAddress::V6(u128::MAX))
    );
    assert_eq!(IpAddress::parse("0:0:0:0:0:0:0:0"), Some(IpAddress::V6(0)));
    assert_eq!(
        IpAddress::parse("0001:0002:0003:0004:0005:0006:0007:0008"),
        v6([1, 2, 3, 4, 5, 6, 7, 8])
    );
}

#[test]
fn ipv6_digits_may_be_in_either_case() {
    assert_eq!(
        IpAddress::parse("ABCD:ef01:aBcD:EF01:0:0:0:1"),
        v6([0xabcd, 0xef01, 0xabcd, 0xef01, 0, 0, 0, 1])
    );
    assert_eq!(IpAddress::parse("::F"), v6([0, 0, 0, 0, 0, 0, 0, 15]));
    assert_eq!(IpAddress::parse("::f"), v6([0, 0, 0, 0, 0, 0, 0, 15]));
    assert_eq!(IpAddress::parse("::g"), None);
    assert_eq!(IpAddress::parse("::G"), None);
    assert_eq!(IpAddress::parse("::@"), None);
    assert_eq!(IpAddress::parse("::`"), None);
    assert_eq!(IpAddress::parse("::/"), None);
}

#[test]
fn double_colon_stands_for_zero_groups() {
    assert_eq!(IpAddress::parse("::"), Some(IpAddress::V6(0)));
    assert_eq!(IpAddress::parse("::1"), Some(IpAddress::V6(1)));
    assert_eq!(IpAddress::parse("1::"), Some(IpAddress::V6(1 << 112)));
    assert_eq!(IpAddress::parse("1::8"), v6([1, 0, 0, 0, 0, 0, 0, 8]));
    assert_eq!(IpAddress::parse("fe80::1"), v6([0xfe80, 0, 0, 0, 0, 0, 0, 1]));
    assert_eq!(IpAddress::parse("1:2::7:8"), v6([1, 2, 0, 0, 0, 0, 7, 8]));
    assert_eq!(IpAddress::parse("1:2:3:4:5:6:7::"), v6([1, 2, 3, 4, 5, 6, 7, 0]));
    assert_eq!(IpAddress::parse("::2:3:4:5:6:7:8"), v6([0, 2, 3, 4, 5, 6, 7, 8]));
    assert_eq!(IpAddress::parse("1:2:3::5:6:7:8"), v6([1, 2, 3, 0, 5, 6, 7, 8]));
}

#[test]
fn double_colon_stands_for_at_least_one_group() {
    assert_eq!(IpAddress::parse("1:2:3:4:5:6:7:8::"), None);
    assert_eq!(IpAddress::parse("::1:2:3:4:5:6:7:8"), None);
    assert_eq!(IpAddress::parse("1:2:3:4::5:6:7:8"), None);
    assert_eq!(IpAddress::parse("1:2:3:4:5::6:7:8:9"), None);
}

#[test]
fn double_colon_occurs_once() {
    assert_eq!(IpAddress::parse("1::2::3"), None);
    assert_eq!(IpAddress::parse("::1::"), None);
    assert_eq!(IpAddress::parse(":::"), None);
    assert_eq!(IpAddress::parse("::::"), None);
    assert_eq!(IpAddress::parse("1:::2"), None);
}

#[test]
fn ipv6_needs_eight_groups_without_double_colon() {
    assert_eq!(IpAddress::parse("1:2:3:4:5:6:7"), None);
    assert_eq!(IpAddress::parse("1:2:3:4:5:6:7:8:9"), None);
    assert_eq!(IpAddress::parse("1"), None);
    assert_eq!(IpAddress::parse(":"), None);
    assert_eq!(IpAddress::parse(":1"), None);
    assert_eq!(IpAddress::parse("1:"), None);
    assert_eq!(IpAddress::parse("::1:"), None);
    assert_eq!(IpAddress::parse(":1::"), None);
    assert_eq!(IpAddress::parse("1:2:3:4:5:6:7:8:"), None);
    assert_eq!(IpAddress::parse(":1:2:3:4:5:6:7:8"), None);
    assert_eq!(IpAddress::parse("1:2:3:4:5:6:7:"), None);
}

#[test]
fn ipv6_groups_have_one_to_four_digits() {
    assert_eq!(IpAddress::parse("12345::"), None);
    assert_eq!(IpAddress::parse("::12345"), None);
    assert_eq!(IpAddress::parse("1:2:3:4:5:6:7:00008"), None);
    assert_eq!(IpAddress::parse("::0000"), Some(IpAddress::V6(0)));
    assert_eq!(IpAddress::parse("::ffff"), Some(IpAddress::V6(0xffff)));
}

#[test]
fn ipv6_may_end_in_an_ipv4_address() {
    assert_eq!(
        IpAddress::parse("::ffff:1.2.3.4"),
        Some(IpAddress::V6(0xffff_0102_0304))
    );
    assert_eq!(IpAddress::parse("::1.2.3.4"), Some(IpAddress::V6(0x0102_0304)));
    assert_eq!(
        IpAddress::parse("::255.255.255.255"),
        Some(IpAddress::V6(0xffff_ffff))
    );
    assert_eq!(
        IpAddress::parse("1:2:3:4:5:6:1.2.3.4"),
        v6([1, 2, 3, 4, 5, 6, 0x0102, 0x0304])
    );
    assert_eq!(
        IpAddress::parse("64:ff9b::192.0.2.33"),
        v6([0x64, 0xff9b, 0, 0, 0, 0, 0xc000, 0x0221])
    );
    assert_eq!(
        IpAddress::parse("::2:3:4:5:6:1.2.3.4"),
        v6([0, 2, 3, 4, 5, 6, 0x0102, 0x0304])
    );
}

#[test]
fn an_ipv4_address_stands_at_the_end_only() {
    assert_eq!(IpAddress::parse("1.2.3.4::"), None);
    assert_eq!(IpAddress::parse("1.2.3.4::1"), None);
    assert_eq!(IpAddress::parse("::1.2.3.4:5"), None);
    assert_eq!(IpAddress::parse("1:2:3:4:5:1.2.3.4:8"), None);
    assert_eq!(IpAddress::parse("1:2:3:4:5:6:7:1.2.3.4"), None);
    assert_eq!(IpAddress::parse("1:2:3:4:5:1.2.3.4"), None);
    assert_eq!(IpAddress::parse("::1:2:3:4:5:6:1.2.3.4"), None);
    assert_eq!(IpAddress::parse("::1.2.3"), None);
    assert_eq!(IpAddress::parse("::1.2.3.256"), None);
    assert_eq!(IpAddress::parse("::01.2.3.4"), None);
}

#[test]
fn ipv6_takes_no_zone_port_or_brackets() {
    assert_eq!(IpAddress::parse("fe80::1%eth0"), None);
    assert_eq!(IpAddress::parse("[::1]"), None);
    assert_eq!(IpAddress::parse("[::1]:80"), None);
    assert_eq!(IpAddress::parse("::1/128"), None);
    assert_eq!(IpAddress::parse(" ::1"), None);
    assert_eq!(IpAddress::parse("::1 "), None);
}
