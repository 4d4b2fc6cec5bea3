use edge_scan::address::IpAddr;
use edge_scan::cidr::{parse_ipv4_cidr, parse_ipv6_cidr, CidrError, Family};
use edge_scan::number::NumberError;

#[test]
fn blocks_are_read() {
    assert_eq!(parse_ipv4_cidr("173.245.48.0/20"), Ok((0xadf53000, 20)));
    assert_eq!(parse_ipv4_cidr("0.0.0.0/0"), Ok((0, 0)));
    assert_eq!(parse_ipv4_cidr("1.2.3.4/32"), Ok((0x01020304, 32)));
    assert_eq!(parse_ipv4_cidr("1.2.3.4/+8"), Ok((0x01020304, 8)));
    assert_eq!(parse_ipv6_cidr("2400:cb00::/32"), Ok((0x2400cb00u128 << 96, 32)));
    assert_eq!(parse_ipv6_cidr("::/128"), Ok((0, 128)));
    assert_eq!(parse_ipv6_cidr("::/0"), Ok((0, 0)));
}

#[test]
fn each_part_can_be_wrong() {
    assert_eq!(parse_ipv4_cidr("1.2.3.4"), Err(CidrError::Malformed));
    assert_eq!(parse_ipv4_cidr(""), Err(CidrError::Malformed));
    assert_eq!(parse_ipv4_cidr("1.2.3/8"), Err(CidrError::Address));
    assert_eq!(parse_ipv4_cidr("/"), Err(CidrError::Address));
    assert_eq!(parse_ipv4_cidr("::/8"), Err(CidrError::Address));
    assert_eq!(parse_ipv4_cidr("1.2.3.4/"), Err(CidrError::Prefix(NumberError::Empty)));
    assert_eq!(parse_ipv4_cidr("1.2.3.4/x"), Err(CidrError::Prefix(NumberError::InvalidDigit)));
    assert_eq!(parse_ipv4_cidr("1.2.3.4/8/9"), Err(CidrError::Prefix(NumberError::InvalidDigit)));
    assert_eq!(parse_ipv4_cidr("1.2.3.4/256"), Err(CidrError::Prefix(NumberError::TooLarge)));
    assert_eq!(parse_ipv4_cidr("1.2.3.4/33"), Err(CidrError::PrefixTooLong(33)));
    assert_eq!(parse_ipv6_cidr("::"), Err(CidrError::Malformed));
    assert_eq!(parse_ipv6_cidr("1.2.3.4/8"), Err(CidrError::Address));
    assert_eq!(parse_ipv6_cidr("::/129"), Err(CidrError::PrefixTooLong(129)));
    assert_eq!(parse_ipv6_cidr("::/ 1"), Err(CidrError::Prefix(NumberError::InvalidDigit)));
}

#[test]
fn messages_name_the_fault() {
    let said = |error: CidrError, family: Family| error.message(family, "text");
    assert_eq!(said(CidrError::Malformed, Family::V4), "Invalid IPv4 CIDR: text");
    assert_eq!(said(CidrError::Malformed, Family::V6), "Invalid IPv6 CIDR: text");
    assert_eq!(said(CidrError::Address, Family::V4), "invalid IPv4 address syntax");
    assert_eq!(said(CidrError::Address, Family::V6), "invalid IPv6 address syntax");
    assert_eq!(said(CidrError::PrefixTooLong(33), Family::V4), "Invalid IPv4 prefix: 33");
    assert_eq!(said(CidrError::PrefixTooLong(129), Family::V6), "Invalid IPv6 prefix: 129");
    assert_eq!(
        said(CidrError::Prefix(NumberError::Empty), Family::V4),
        "cannot parse integer from empty string"
    );
    assert_eq!(
        said(CidrError::Prefix(NumberError::InvalidDigit), Family::V4),
        "invalid digit found in string"
    );
    assert_eq!(
        said(CidrError::Prefix(NumberError::TooLarge), Family::V6),
        "number too large to fit in target type"
    );
}

#[test]
fn a_written_block_reads_back() {
    for prefix in 0..=32u8 {
        let text = format!("{}/{}", IpAddr::V4(0xc0a80101).to_text(), prefix);
        assert_eq!(parse_ipv4_cidr(&text), Ok((0xc0a80101, prefix)));
    }
    let address = 0x20010db8000000000000ffff00000001u128;
    for prefix in 0..=128u8 {
        let text = format!("{}/{}", IpAddr::V6(address).to_text(), prefix);
        assert_eq!(parse_ipv6_cidr(&text), Ok((address, prefix)));
    }
}
