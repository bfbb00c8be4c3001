use bottleneck::address::{format_ip, Address, IpValue};

#[test]
fn ipaddr_from_ipv6_short() {
    let have = format_ip(&[32, 1, 3, 24], false);
    assert_eq!(have, IpValue::V6(0x2001_0318_0000_0000_0000_0000_0000_0000));
}

#[test]
fn ipaddr_from_ipv6_long() {
    let have = format_ip(&[32, 1, 2, 248, 16, 8], false);
    assert_eq!(have, IpValue::V6(0x2001_02f8_1008_0000_0000_0000_0000_0000));
}

#[test]
fn short_and_padded_bytes_agree() {
    assert_eq!(format_ip(&[32, 1, 3, 24], false), format_ip(&[32, 1, 3, 24, 0, 0, 0, 0, 0, 0, 0, 0, 0, 0, 0, 0], false));
    assert_eq!(format_ip(&[192, 168], true), format_ip(&[192, 168, 0, 0], true));
}

#[test]
fn full_ipv6_uses_every_byte() {
    let bytes: Vec<u8> = (1..=16).collect();
    assert_eq!(format_ip(&bytes, false), IpValue::V6(0x0102_0304_0506_0708_090a_0b0c_0d0e_0f10));
}

#[test]
fn leading_byte_of_each_family() {
    let a = Address { ip: format_ip(&[203, 0, 113], true), mask: 24 };
    assert_eq!(a.leading_byte(), 203);
    let b = Address { ip: format_ip(&[32, 1, 3, 24], false), mask: 32 };
    assert_eq!(b.leading_byte(), 32);
}
