use edge_scan::address::{parse_ip, parse_v4, parse_v6, v4_chars, v6_chars, IpAddr};
use edge_scan::text::{to_chars, to_text};

fn v4(text: &str) -> Option<u32> {
    parse_v4(&to_chars(text))
}

fn v6(text: &str) -> Option<u128> {
    parse_v6(&to_chars(text))
}

#[test]
fn dotted_addresses_are_read() {
    assert_eq!(v4("1.2.3.4"), Some(0x01020304));
    assert_eq!(v4("0.0.0.0"), Some(0));
    assert_eq!(v4("255.255.255.255"), Some(u32::MAX));
    assert_eq!(v4("104.16.0.0"), Some(0x68100000));
}

#[test]
fn other_texts_are_no_dotted_addresses() {
    let samples = [
        "", ".", "1.2.3", "1.2.3.4.5", "1.2.3.4.", ".1.2.3.4", "1..3.4", "256.1.1.1", "1.1.1.256",
        "01.2.3.4", "1.2.3.00", "1.2.3.4 ", " 1.2.3.4", "1.2.3.+4", "1.2.3.-4", "1.2.3.a",
        "0x1.2.3.4", "1.2.3.1000", "::1",
    ];
    for sample in samples {
        assert_eq!(v4(sample), None, "{:?}", sample);
    }
}

#[test]
fn colon_addresses_are_read() {
    let one = 1u128;
    let samples = [
        ("::", 0),
        ("::1", 1),
        ("1::", one << 112),
        ("2606:4700::", 0x26064700u128 << 96),
        ("2606:4700::1", (0x26064700u128 << 96) | 1),
        ("1:2:3:4:5:6:7:8", 0x00010002000300040005000600070008),
        ("1:2:3:4:5:6:7::", 0x00010002000300040005000600070000),
        ("::2:3:4:5:6:7:8", 0x00000002000300040005000600070008),
        ("1:2:3:4:5:6:1.2.3.4", 0x00010002000300040005000601020304),
        ("::ffff:1.2.3.4", 0xffff01020304),
        ("::1.2.3.4", 0x01020304),
        ("FFFF:ffff::00ab", 0xffffffff0000000000000000000000ab),
        ("1::0:2", (one << 112) | 2),
    ];
    for (text, value) in samples {
        assert_eq!(v6(text), Some(value), "{:?}", text);
    }
}

#[test]
fn other_texts_are_no_colon_addresses() {
    let samples = [
        "", ":", ":::", "1", "1:2", "1.2.3.4", "1:2:3:4:5:6:7", "1:2:3:4:5:6:7:8:9",
        "1:2:3:4:5:6:7:8::", "::1::", "1::2::3", "1:2:3:4:5:6:7:", ":1:2:3:4:5:6:7:8", "12345::",
        "g::", "1.2.3.4::", "::1.2.3.4:5", "::1.2.3", "::1.2.3.256", "1:2:3:4:5:6:7:1.2.3.4",
        "1:2:3:4:5:6:7::8", "::1 ", "::%eth0", "1::2:3:4:5:6:7:8", ":1::",
    ];
    for sample in samples {
        assert_eq!(v6(sample), None, "{:?}", sample);
    }
}

#[test]
fn dotted_addresses_are_written() {
    assert_eq!(to_text(&v4_chars(0)), "0.0.0.0");
    assert_eq!(to_text(&v4_chars(0x01020304)), "1.2.3.4");
    assert_eq!(to_text(&v4_chars(u32::MAX)), "255.255.255.255");
    assert_eq!(to_text(&v4_chars(0xac430064)), "172.67.0.100");
}

#[test]
fn colon_addresses_are_written() {
    let samples = [
        (0u128, "::"),
        (1, "::1"),
        (1 << 112, "1::"),
        (0x00010002000300040005000600070008, "1:2:3:4:5:6:7:8"),
        (0x20010db8000000000000000000000001, "2001:db8::1"),
        (0x20010db8000000010001000100010001, "2001:db8:0:1:1:1:1:1"),
        (0x20010db8000000000001000000000001, "2001:db8::1:0:0:1"),
        (0x20010000000000010000000000000001, "2001:0:0:1::1"),
        (0xffff01020304, "::ffff:1.2.3.4"),
        (0x01020304, "::102:304"),
        (0xfffe01020304, "::fffe:102:304"),
        (0xabcdef0123456789abcdef0123456789, "abcd:ef01:2345:6789:abcd:ef01:2345:6789"),
        (0x00010000000200000003000000040000, "1:0:2:0:3:0:4:0"),
        (0x00010000000000000000000000000000, "1::"),
        (0x00000000000000000000000000010000, "::1:0"),
    ];
    for (value, text) in samples {
        assert_eq!(to_text(&v6_chars(value)), text);
    }
}

#[test]
fn a_written_address_reads_back() {
    let mut value: u128 = 0x9e3779b97f4a7c15f39cc0605cedc834;
    for round in 0..2000u32 {
        value = value.wrapping_mul(0x2360ed051fc65da44385df649fccf645).wrapping_add(0x5851f42d4c957f2d);
        let mask = !(0xffffu128 << (16 * (round % 8))) & !(0xffffu128 << (16 * (round / 8 % 8)));
        for address in [value, value & mask, value & 0xffff, value & 0xffffffff | 0xffff00000000] {
            assert_eq!(parse_v6(&v6_chars(address)), Some(address));
            let ip = IpAddr::V6(address);
            assert_eq!(parse_ip(&ip.to_text()), Some(ip));
        }
        let low = value as u32;
        assert_eq!(parse_v4(&v4_chars(low)), Some(low));
        assert_eq!(parse_ip(&IpAddr::V4(low).to_text()), Some(IpAddr::V4(low)));
    }
}

#[test]
fn either_kind_is_told_apart() {
    assert_eq!(parse_ip("8.8.8.8"), Some(IpAddr::V4(0x08080808)));
    assert_eq!(parse_ip("::8"), Some(IpAddr::V6(8)));
    assert_eq!(parse_ip("example.com"), None);
    assert_eq!(parse_ip(""), None);
}
