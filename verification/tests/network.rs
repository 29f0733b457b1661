use lib::address::IpAddr;
use lib::network::Network;

fn address(text: &str) -> IpAddr {
    IpAddr::parse(text).expect("an address")
}

#[test]
fn a_prefix_contains_what_is_under_it_and_nothing_of_the_other_family() {
    let ten: Network = "10.0.0.0/8".parse().expect("a prefix");
    let documentation: Network = "2001:db8::/32".parse().expect("a prefix");

    assert!(ten.contains(address("10.255.1.2")));
    assert!(!ten.contains(address("11.0.0.1")));
    assert!(documentation.contains(address("2001:db8:cafe::17")));
    assert!(!documentation.contains(address("2001:db9::1")));
    assert!(!ten.contains(address("::ffff:10.0.0.1")));
}

#[test]
fn a_bare_address_is_a_prefix_of_one() {
    let one = Network::parse("192.0.2.1").expect("an address");

    assert!(one.contains(address("192.0.2.1")));
    assert!(!one.contains(address("192.0.2.2")));
}

#[test]
fn a_prefix_longer_than_the_address_is_refused_by_name() {
    let failure = Network::parse("192.0.2.0/33").expect_err("too long");

    assert_eq!(
        failure.to_string(),
        "\"192.0.2.0/33\" has a prefix longer than 32 bits"
    );
    assert!(Network::parse("partner.example").is_err());
}

#[test]
fn a_bare_address_takes_every_bit_of_its_family() {
    let v4 = Network::parse("192.0.2.1").expect("an address");
    let v6 = Network::parse("2001:db8::1").expect("an address");

    assert_eq!(v4.prefix(), 32);
    assert_eq!(v6.prefix(), 128);
    assert_eq!(v6.address(), address("2001:db8::1"));
    assert!(v6.contains(address("2001:db8::1")));
    assert!(!v6.contains(address("2001:db8::2")));
}

#[test]
fn a_zero_prefix_contains_its_whole_family_only() {
    let all_v4 = Network::parse("0.0.0.0/0").expect("a prefix");
    let all_v6 = Network::parse("::/0").expect("a prefix");

    assert!(all_v4.contains(address("255.255.255.255")));
    assert!(all_v4.contains(address("1.2.3.4")));
    assert!(!all_v4.contains(address("::1")));
    assert!(all_v6.contains(address("ffff:ffff:ffff:ffff:ffff:ffff:ffff:ffff")));
    assert!(!all_v6.contains(address("1.2.3.4")));
}

#[test]
fn prefixes_count_bits_not_octets() {
    let n = Network::parse("192.0.2.128/25").expect("a prefix");

    assert!(n.contains(address("192.0.2.200")));
    assert!(!n.contains(address("192.0.2.127")));

    let v6 = Network::parse("2001:db8:8000::/33").expect("a prefix");
    assert!(v6.contains(address("2001:db8:ffff::1")));
    assert!(!v6.contains(address("2001:db8:7fff::1")));
}

#[test]
fn the_text_is_trimmed_and_the_prefix_read_as_a_u8() {
    let n = Network::parse("  10.0.0.0/+8\t").expect("a prefix");
    assert_eq!(n.prefix(), 8);
    assert_eq!(n.address(), address("10.0.0.0"));

    let failure = Network::parse("10.0.0.0/").expect_err("no prefix");
    assert_eq!(
        failure.to_string(),
        "\"10.0.0.0/\" has a prefix longer than 32 bits"
    );

    let failure = Network::parse("2001:db8::/129").expect_err("too long");
    assert_eq!(
        failure.to_string(),
        "\"2001:db8::/129\" has a prefix longer than 128 bits"
    );

    let failure = Network::parse(" partner.example/8 ").expect_err("no address");
    assert_eq!(
        failure.to_string(),
        "\"partner.example/8\" is not an address or a prefix"
    );

    assert!(Network::parse("10.0.0.0/-8").is_err());
    assert!(Network::parse("10.0.0.0 /8").is_err());
    assert!(Network::parse("10.0.0.0:80").is_err());
}

#[test]
fn surrounding_whitespace_changes_nothing_a_network_reads() {
    assert_eq!(
        Network::parse(" \t10.0.0.0/8\n ").unwrap(),
        Network::parse("10.0.0.0/8").unwrap()
    );
    assert_eq!(
        Network::parse("\u{3000}bogus ").unwrap_err().to_string(),
        Network::parse("bogus").unwrap_err().to_string()
    );
}

#[test]
fn a_shorter_prefix_contains_what_a_longer_one_does() {
    let longer = Network::parse("10.1.0.0/16").unwrap();
    let shorter = Network::parse("10.1.0.0/8").unwrap();
    let inside = address("10.1.200.7");

    assert!(longer.contains(inside));
    assert!(shorter.contains(inside));
    assert!(shorter.contains(address("10.2.0.1")));
    assert!(!longer.contains(address("10.2.0.1")));
}

#[test]
fn host_bits_past_the_prefix_are_ignored() {
    let loose = Network::parse("10.1.2.3/8").unwrap();
    let tidy = Network::parse("10.0.0.0/8").unwrap();

    for candidate in ["10.0.0.1", "10.255.255.255", "11.0.0.0", "9.255.255.255", "::a00:1"] {
        assert_eq!(loose.contains(address(candidate)), tidy.contains(address(candidate)));
    }
}

#[test]
fn networks_with_the_same_address_and_prefix_are_equal() {
    assert_eq!(
        Network::parse("2001:db8::/32").unwrap(),
        Network::parse("2001:0db8:0::/32").unwrap()
    );
    assert_ne!(
        Network::parse("2001:db8::/32").unwrap(),
        Network::parse("2001:db8::/33").unwrap()
    );
}
