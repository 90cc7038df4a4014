use big_blocker::prefix::{BlockError, IpPrefix, V4Prefix, V6Prefix};

fn v4(ip: [u8; 4], prefix: u8) -> V4Prefix {
    V4Prefix { ip, prefix }
}

fn v6(ip: [u16; 8], prefix: u8) -> V6Prefix {
    V6Prefix { ip, prefix }
}

#[test]
fn parses_v4_network() {
    let p = V4Prefix::from_str("192.168.1.0/24").unwrap();
    assert_eq!(p, v4([192, 168, 1, 0], 24));
    assert_eq!(IpPrefix::V4(p), IpPrefix::V4(v4([192, 168, 1, 0], 24)));
}

#[test]
fn v4_without_slash_is_missing_component() {
    assert_eq!(V4Prefix::from_str("10.0.0.1"), Err(BlockError::MissingComponent));
}

#[test]
fn v4_non_numeric_length_is_malformed() {
    assert_eq!(V4Prefix::from_str("10.0.0.1/abc"), Err(BlockError::MalformedLength));
}

#[test]
fn v4_round_trip_examples() {
    for (ip, n) in [([0u8, 0, 0, 0], 0u8), ([255, 255, 255, 255], 32), ([10, 0, 7, 100], 8)] {
        let p = v4(ip, n);
        let text = p.to_string();
        assert_eq!(V4Prefix::from_str(&text), Ok(p));
    }
}

#[test]
fn v4_formats_dotted_quad() {
    assert_eq!(v4([192, 168, 1, 0], 24).to_string(), "192.168.1.0/24");
    assert_eq!(v4([0, 10, 100, 255], 0).to_string(), "0.10.100.255/0");
}

#[test]
fn v4_address_errors() {
    assert_eq!(V4Prefix::from_str("/24"), Err(BlockError::MalformedAddress));
    assert_eq!(V4Prefix::from_str("1.2.3/24"), Err(BlockError::MalformedAddress));
    assert_eq!(V4Prefix::from_str("1.2.3.4.5/24"), Err(BlockError::MalformedAddress));
    assert_eq!(V4Prefix::from_str("1.2.3.256/24"), Err(BlockError::MalformedAddress));
    assert_eq!(V4Prefix::from_str("01.2.3.4/24"), Err(BlockError::MalformedAddress));
    assert_eq!(V4Prefix::from_str("1..3.4/24"), Err(BlockError::MalformedAddress));
    assert_eq!(V4Prefix::from_str("a.b.c.d"), Err(BlockError::MalformedAddress));
    assert_eq!(V4Prefix::from_str(""), Err(BlockError::MalformedAddress));
}

#[test]
fn v4_length_rules() {
    assert_eq!(V4Prefix::from_str("1.2.3.4/+8"), Ok(v4([1, 2, 3, 4], 8)));
    assert_eq!(V4Prefix::from_str("1.2.3.4/008"), Ok(v4([1, 2, 3, 4], 8)));
    assert_eq!(V4Prefix::from_str("1.2.3.4/99"), Ok(v4([1, 2, 3, 4], 99)));
    assert_eq!(V4Prefix::from_str("1.2.3.4/255"), Ok(v4([1, 2, 3, 4], 255)));
    assert_eq!(V4Prefix::from_str("1.2.3.4/256"), Err(BlockError::MalformedLength));
    assert_eq!(V4Prefix::from_str("1.2.3.4/"), Err(BlockError::MalformedLength));
    assert_eq!(V4Prefix::from_str("1.2.3.4/+"), Err(BlockError::MalformedLength));
    assert_eq!(V4Prefix::from_str("1.2.3.4/-1"), Err(BlockError::MalformedLength));
    assert_eq!(V4Prefix::from_str("1.2.3.4/24/8"), Err(BlockError::MissingComponent));
}

#[test]
fn parses_compressed_v6() {
    assert_eq!(
        V6Prefix::from_str("2001:db8::1/64"),
        Ok(v6([0x2001, 0xdb8, 0, 0, 0, 0, 0, 1], 64))
    );
    assert_eq!(V6Prefix::from_str("::/0"), Ok(v6([0; 8], 0)));
    assert_eq!(V6Prefix::from_str("::1/128"), Ok(v6([0, 0, 0, 0, 0, 0, 0, 1], 128)));
    assert_eq!(V6Prefix::from_str("fe80::/10"), Ok(v6([0xfe80, 0, 0, 0, 0, 0, 0, 0], 10)));
    assert_eq!(
        V6Prefix::from_str("1:2:3:4:5:6:7::/112"),
        Ok(v6([1, 2, 3, 4, 5, 6, 7, 0], 112))
    );
    assert_eq!(
        V6Prefix::from_str("::2:3:4:5:6:7:8/16"),
        Ok(v6([0, 2, 3, 4, 5, 6, 7, 8], 16))
    );
    assert_eq!(
        V6Prefix::from_str("2600:1F18:0000:abcd:0:0:0:0/56"),
        Ok(v6([0x2600, 0x1f18, 0, 0xabcd, 0, 0, 0, 0], 56))
    );
}

#[test]
fn formats_v6_expanded() {
    let p = V6Prefix::from_str("2001:db8::1/64").unwrap();
    assert_eq!(p.to_string(), "2001:db8:0:0:0:0:0:1/64");
    assert_eq!(v6([0xffff, 0xabc, 0x10, 1, 0, 0, 0, 0], 128).to_string(), "ffff:abc:10:1:0:0:0:0/128");
}

#[test]
fn v6_round_trip_examples() {
    for (ip, n) in [
        ([0u16; 8], 0u8),
        ([0xffff; 8], 128),
        ([0x2001, 0xdb8, 0, 0x42, 0, 0, 0xfff, 1], 48),
    ] {
        let p = v6(ip, n);
        assert_eq!(V6Prefix::from_str(&p.to_string()), Ok(p));
    }
}

#[test]
fn v6_errors() {
    assert_eq!(V6Prefix::from_str("::"), Err(BlockError::MissingComponent));
    assert_eq!(V6Prefix::from_str("1:2:3:4:5:6:7:8:9/64"), Err(BlockError::MalformedAddress));
    assert_eq!(V6Prefix::from_str("1:2:3:4:5:6:7/64"), Err(BlockError::MalformedAddress));
    assert_eq!(V6Prefix::from_str("1::2::3/64"), Err(BlockError::MalformedAddress));
    assert_eq!(V6Prefix::from_str("12345::/8"), Err(BlockError::MalformedAddress));
    assert_eq!(V6Prefix::from_str(":/1"), Err(BlockError::MalformedAddress));
    assert_eq!(V6Prefix::from_str(":1::/1"), Err(BlockError::MalformedAddress));
    assert_eq!(V6Prefix::from_str("1:2:3:4:5:6:7:8::/1"), Err(BlockError::MalformedAddress));
    assert_eq!(V6Prefix::from_str("g::/1"), Err(BlockError::MalformedAddress));
    assert_eq!(V6Prefix::from_str("10.0.0.1/8"), Err(BlockError::MalformedAddress));
    assert_eq!(V6Prefix::from_str("::1/x"), Err(BlockError::MalformedLength));
    assert_eq!(V6Prefix::from_str("::1/200"), Ok(v6([0, 0, 0, 0, 0, 0, 0, 1], 200)));
}

#[test]
fn unified_prefix_formats_by_family() {
    assert_eq!(IpPrefix::V4(v4([10, 0, 0, 0], 8)).to_string(), "10.0.0.0/8");
    assert_eq!(
        IpPrefix::V6(v6([0x2001, 0xdb8, 0, 0, 0, 0, 0, 0], 32)).to_string(),
        "2001:db8:0:0:0:0:0:0/32"
    );
    assert_ne!(IpPrefix::V4(v4([0, 0, 0, 0], 0)), IpPrefix::V6(v6([0; 8], 0)));
}

#[test]
fn v6_with_trailing_dotted_quad() {
    assert_eq!(
        V6Prefix::from_str("::ffff:1.2.3.4/96"),
        Ok(v6([0, 0, 0, 0, 0, 0xffff, 0x0102, 0x0304], 96))
    );
    assert_eq!(
        V6Prefix::from_str("1:2:3:4:5:6:10.0.255.1/64"),
        Ok(v6([1, 2, 3, 4, 5, 6, 0x0a00, 0xff01], 64))
    );
    assert_eq!(V6Prefix::from_str("::1.2.3.4/8"), Ok(v6([0, 0, 0, 0, 0, 0, 0x0102, 0x0304], 8)));
    assert_eq!(
        V6Prefix::from_str("::ffff:1.2.3.4/96").unwrap().to_string(),
        "0:0:0:0:0:ffff:102:304/96"
    );
    assert_eq!(V6Prefix::from_str("1:2:3:4:5:6::1.2.3.4/64"), Err(BlockError::MalformedAddress));
    assert_eq!(V6Prefix::from_str("1:2:3:4:5:6:7:1.2.3.4/64"), Err(BlockError::MalformedAddress));
    assert_eq!(V6Prefix::from_str("1.2.3.4::/64"), Err(BlockError::MalformedAddress));
    assert_eq!(V6Prefix::from_str("::1.2.3.4:5/64"), Err(BlockError::MalformedAddress));
    assert_eq!(V6Prefix::from_str("::1.2.3/64"), Err(BlockError::MalformedAddress));
}
