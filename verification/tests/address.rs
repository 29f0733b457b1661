use lib::address::IpAddr;
use lib::parse_address;

fn shown(text: &str) -> String {
    parse_address(text).expect("an address").to_string()
}

#[test]
fn a_peer_is_read_bare_with_a_port_or_bracketed() {
    assert_eq!(parse_address("192.0.2.10").unwrap(), IpAddr::V4(0xc000_020a));
    assert_eq!(parse_address("192.0.2.10:4711").unwrap(), IpAddr::V4(0xc000_020a));
    assert_eq!(parse_address(" 192.0.2.10:0 \n").unwrap(), IpAddr::V4(0xc000_020a));
    assert_eq!(parse_address("[192.0.2.10]").unwrap(), IpAddr::V4(0xc000_020a));
    assert_eq!(parse_address("::1").unwrap(), IpAddr::V6(1));
    assert_eq!(parse_address("[::1]").unwrap(), IpAddr::V6(1));
    assert_eq!(parse_address("[::1]:443").unwrap(), IpAddr::V6(1));
    assert_eq!(parse_address("[::1%3]:443").unwrap(), IpAddr::V6(1));
    assert_eq!(parse_address("192.0.2.10:0065535").unwrap(), IpAddr::V4(0xc000_020a));
}

#[test]
fn what_is_not_an_address_is_refused_with_the_trimmed_text() {
    let failure = parse_address("  partner.example ").unwrap_err();
    assert_eq!(
        failure.to_string(),
        "the peer address \"partner.example\" is not an IP address"
    );
    assert_eq!(failure.message(), "the peer address \"partner.example\" is not an IP address");

    let failure = parse_address("say \"hi\"").unwrap_err();
    assert_eq!(
        failure.to_string(),
        "the peer address \"say \\\"hi\\\"\" is not an IP address"
    );

    for text in [
        "",
        "1.2.3",
        "1.2.3.4.5",
        "01.2.3.4",
        "256.1.1.1",
        "1.2.3.4:65536",
        "1.2.3.4:",
        "[1.2.3.4]:80",
        "[::1]80",
        "[::1%]:80",
        "1::2::3",
        "12345::",
        "1:2:3:4:5:6:7:8:9",
        "1:2:3:4:5:6:7:8::",
        ":1::2",
        "1.2.3.4::",
        "1:2:3:4:5:6::1.2.3.4",
        "::1.2.3.4:5",
        "[::1",
        "::1]",
        "[]",
    ] {
        assert!(parse_address(text).is_err(), "{text:?} is not an address");
    }
}

#[test]
fn ipv6_text_follows_the_usual_forms() {
    assert_eq!(IpAddr::parse("::"), Some(IpAddr::V6(0)));
    assert_eq!(IpAddr::parse("1::"), Some(IpAddr::V6(1 << 112)));
    assert_eq!(
        IpAddr::parse("1:2:3:4:5:6:7:8"),
        Some(IpAddr::V6(0x0001_0002_0003_0004_0005_0006_0007_0008))
    );
    assert_eq!(
        IpAddr::parse("1:2:3:4:5:6:1.2.3.4"),
        Some(IpAddr::V6(0x0001_0002_0003_0004_0005_0006_0102_0304))
    );
    assert_eq!(
        IpAddr::parse("::ffff:10.0.0.1"),
        Some(IpAddr::V6(0xffff_0a00_0001))
    );
    assert_eq!(
        IpAddr::parse("1:2:3:4:5:6:7::"),
        Some(IpAddr::V6(0x0001_0002_0003_0004_0005_0006_0007_0000))
    );
    assert_eq!(IpAddr::parse("ABCD::ef"), Some(IpAddr::V6((0xabcd << 112) | 0xef)));
    assert_eq!(IpAddr::parse(" ::1"), None);
    assert_eq!(IpAddr::parse("::1:80"), Some(IpAddr::V6(0x0001_0080)));
}

#[test]
fn addresses_are_shown_as_std_shows_them() {
    assert_eq!(shown("192.0.2.10"), "192.0.2.10");
    assert_eq!(shown("0.0.0.0"), "0.0.0.0");
    assert_eq!(shown("255.255.255.255"), "255.255.255.255");
    assert_eq!(shown("::"), "::");
    assert_eq!(shown("::1"), "::1");
    assert_eq!(shown("1::"), "1::");
    assert_eq!(shown("2001:DB8:0:0:0:0:0:1"), "2001:db8::1");
    assert_eq!(shown("1:0:0:1:0:0:0:1"), "1:0:0:1::1");
    assert_eq!(shown("1:0:0:2:0:0:3:4"), "1::2:0:0:3:4");
    assert_eq!(shown("1:0:2:3:4:5:6:7"), "1:0:2:3:4:5:6:7");
    assert_eq!(shown("::ffff:1.2.3.4"), "::ffff:1.2.3.4");
    assert_eq!(shown("::1.2.3.4"), "::102:304");
    assert_eq!(shown("fe80::abcd:ef01"), "fe80::abcd:ef01");
}

#[test]
fn a_shown_address_reads_back() {
    for text in [
        "192.0.2.10",
        "0.0.0.0",
        "::",
        "::1",
        "1::",
        "2001:db8::1",
        "1:0:0:1:0:0:0:1",
        "1:0:0:2:0:0:3:4",
        "1:2:3:4:5:6:7:8",
        "::ffff:1.2.3.4",
        "::1.2.3.4",
        "fe80::abcd:ef01",
        "ffff:ffff:ffff:ffff:ffff:ffff:ffff:ffff",
    ] {
        let a = IpAddr::parse(text).expect("an address");
        assert_eq!(IpAddr::parse(&a.to_string()), Some(a), "{text}");
    }
}

#[test]
fn surrounding_whitespace_changes_nothing_a_peer_reads() {
    assert_eq!(
        parse_address("\t [2001:db8::1]:443 \r\n").unwrap(),
        parse_address("[2001:db8::1]:443").unwrap()
    );
    assert_eq!(
        parse_address("  nowhere\u{85}").unwrap_err().to_string(),
        parse_address("nowhere").unwrap_err().to_string()
    );
}

#[test]
fn a_shown_address_and_socket_address_read_back() {
    let addresses = [
        IpAddr::V4(0),
        IpAddr::V4(0xc000_020a),
        IpAddr::V4(0xffff_ffff),
        IpAddr::V6(1),
        IpAddr::V6(0x2001_0db8_0000_0000_0000_0000_0000_0001),
        IpAddr::V6(0x0000_0000_0000_0000_0000_ffff_c000_020a),
        IpAddr::V6(0x2001_0db8_0001_0002_0003_0004_0005_0006),
    ];
    for a in addresses {
        let shown = a.to_string();
        assert_eq!(parse_address(&shown).unwrap(), a);
        let socket = match a {
            IpAddr::V4(_) => format!("{}:{}", shown, 4711),
            IpAddr::V6(_) => format!("[{}]:{}", shown, 443),
        };
        assert_eq!(parse_address(&socket).unwrap(), a);
    }
}
