use serf_rpc::addr::{deserialize_ip_addr, NodeAddr};

#[test]
fn v4_mapped_address_is_unwrapped() {
    let bits: u128 = 0xffff_c0a8_0001;
    assert_eq!(deserialize_ip_addr(bits), NodeAddr::V4(192, 168, 0, 1));
    assert_eq!(deserialize_ip_addr(0xffff_0000_0000), NodeAddr::V4(0, 0, 0, 0));
    assert_eq!(deserialize_ip_addr(0xffff_ffff_ffff), NodeAddr::V4(255, 255, 255, 255));
    assert_eq!(deserialize_ip_addr(0xffff_7f00_0001), NodeAddr::V4(127, 0, 0, 1));
}

#[test]
fn other_addresses_stay_v6() {
    assert_eq!(deserialize_ip_addr(1), NodeAddr::V6(1));
    assert_eq!(deserialize_ip_addr(0), NodeAddr::V6(0));
    assert_eq!(deserialize_ip_addr(0xc0a8_0001), NodeAddr::V6(0xc0a8_0001));
    assert_eq!(deserialize_ip_addr(0xfffe_c0a8_0001), NodeAddr::V6(0xfffe_c0a8_0001));
    assert_eq!(deserialize_ip_addr(0x1_ffff_c0a8_0001), NodeAddr::V6(0x1_ffff_c0a8_0001));
    assert_eq!(deserialize_ip_addr(u128::MAX), NodeAddr::V6(u128::MAX));
}

#[test]
fn address_written_back() {
    assert_eq!(NodeAddr::V4(192, 168, 0, 1).to_bits(), 0xffff_c0a8_0001);
    assert_eq!(NodeAddr::V6(42).to_bits(), 42);
    let bits: u128 = 0xffff_0a0b_0c0d;
    assert_eq!(deserialize_ip_addr(bits).to_bits(), bits);
}
