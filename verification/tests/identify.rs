use lib::arrival::{Arriving, StreamArrival};
use lib::network::Network;
use lib::{IpIdentifier, PEER_ADDRESS};

fn facts(pairs: &[(&str, &str)]) -> Vec<(String, String)> {
    pairs
        .iter()
        .map(|(name, value)| ((*name).to_string(), (*value).to_string()))
        .collect()
}

fn behind_proxies() -> IpIdentifier {
    IpIdentifier::new()
        .trusting(Network::parse("10.0.0.0/8").expect("a prefix"))
        .trusting(Network::parse("2001:db8::1").expect("an address"))
}

#[test]
fn the_socket_peer_is_the_claim_without_its_port() {
    let facts = facts(&[("peer.address", "192.0.2.10:4711")]);
    let arrival = StreamArrival::new(Arriving::Pushed, &facts);

    let claim = IpIdentifier::new()
        .identify(&arrival)
        .expect("read")
        .expect("a claim");

    assert_eq!(claim.value, "192.0.2.10");
    assert_eq!(claim.mechanism.name(), "ip");
    assert!(claim.evidence.is_empty(), "no proxy, nothing to explain");
}

#[test]
fn a_forwarded_header_is_read_only_behind_a_trusted_proxy() {
    let through_proxy = facts(&[
        ("peer.address", "10.1.2.3:80"),
        ("http.header.forwarded", "for=198.51.100.17;proto=https"),
    ]);
    let arrival = StreamArrival::new(Arriving::Pushed, &through_proxy);

    let claim = behind_proxies()
        .identify(&arrival)
        .expect("read")
        .expect("a claim");

    assert_eq!(claim.value, "198.51.100.17");
    assert_eq!(
        claim.evidence,
        vec![
            ("peer.address".to_string(), "10.1.2.3".to_string()),
            ("ip.forwarded-by".to_string(), "forwarded".to_string()),
        ]
    );

    // The same header from a peer nobody trusts is just text.
    let from_anyone = facts(&[
        ("peer.address", "203.0.113.9:80"),
        ("http.header.forwarded", "for=198.51.100.17"),
    ]);
    let arrival = StreamArrival::new(Arriving::Pushed, &from_anyone);

    let claim = behind_proxies()
        .identify(&arrival)
        .expect("read")
        .expect("a claim");

    assert_eq!(claim.value, "203.0.113.9");
}

#[test]
fn the_client_is_the_first_untrusted_hop_from_the_proxy_end() {
    // Two proxies of ours appended themselves; the hop before them is the
    // client, and whatever the client itself wrote to the left is ignored.
    let facts = facts(&[
        ("peer.address", "[2001:db8::1]:443"),
        (
            "http.header.x-forwarded-for",
            "1.2.3.4, 198.51.100.17, 10.0.0.5",
        ),
    ]);
    let arrival = StreamArrival::new(Arriving::Pushed, &facts);

    let claim = behind_proxies()
        .identify(&arrival)
        .expect("read")
        .expect("a claim");

    assert_eq!(claim.value, "198.51.100.17");
    assert_eq!(claim.evidence[1].1, "x-forwarded-for");
}

#[test]
fn an_arrival_with_no_peer_presents_nothing() {
    let arrival = StreamArrival::new(Arriving::Pushed, &[]);

    assert!(
        IpIdentifier::new()
            .identify(&arrival)
            .expect("read")
            .is_none()
    );
}

#[test]
fn a_peer_that_is_not_an_address_is_an_error() {
    let facts = facts(&[("peer.address", "partner.example")]);
    let arrival = StreamArrival::new(Arriving::Pushed, &facts);

    let failure = IpIdentifier::new()
        .identify(&arrival)
        .expect_err("not an address");

    assert_eq!(
        failure.to_string(),
        "the peer address \"partner.example\" is not an IP address"
    );
}

#[test]
fn a_scheduled_pickup_has_no_peer_to_present() {
    // We were the client; the address on the arrival is the server's.
    let facts = facts(&[("peer.address", "192.0.2.10:21")]);
    let arrival = StreamArrival::new(Arriving::Scheduled, &facts);

    assert!(
        IpIdentifier::new()
            .identify(&arrival)
            .expect("read")
            .is_none()
    );
}

#[test]
fn a_detected_arrival_has_no_peer_to_present() {
    let facts = facts(&[
        ("peer.address", "10.0.0.1"),
        ("http.header.forwarded", "for=198.51.100.17"),
    ]);
    let arrival = StreamArrival::new(Arriving::Detected, &facts);

    assert!(behind_proxies().identify(&arrival).expect("read").is_none());
}

#[test]
fn an_identifier_that_trusts_no_proxy_presents_the_peer() {
    let facts = facts(&[
        ("peer.address", "10.0.0.1:8080"),
        ("http.header.forwarded", "for=198.51.100.17"),
    ]);
    let arrival = StreamArrival::new(Arriving::Pushed, &facts);

    let claim = IpIdentifier::default()
        .identify(&arrival)
        .expect("read")
        .expect("a claim");
    assert_eq!(claim.value, "10.0.0.1");
    assert!(claim.evidence.is_empty());
}

#[test]
fn trusting_adds_the_proxy_to_those_trusted() {
    let none = IpIdentifier::new();
    let one = none.clone().trusting(Network::parse("10.0.0.0/8").expect("a prefix"));
    let two = one.clone().trusting(Network::parse("192.0.2.1").expect("an address"));

    let ten = lib::parse_address("10.9.8.7").expect("an address");
    let doc = lib::parse_address("192.0.2.1").expect("an address");
    let other = lib::parse_address("192.0.2.2").expect("an address");

    assert!(!none.trusts(ten));
    assert!(one.trusts(ten) && !one.trusts(doc));
    assert!(two.trusts(ten) && two.trusts(doc) && !two.trusts(other));
}

#[test]
fn a_bad_hop_behind_a_trusted_proxy_is_an_error() {
    let facts = facts(&[
        ("peer.address", "10.0.0.1"),
        ("http.header.forwarded", "for=_hidden"),
    ]);
    let arrival = StreamArrival::new(Arriving::Pushed, &facts);

    let failure = behind_proxies()
        .identify(&arrival)
        .expect_err("not an address");
    assert_eq!(
        failure.to_string(),
        "the Forwarded header names \"_hidden\", which is not an address"
    );

    // From a peer nobody trusts the header is never read.
    let facts2 = vec![
        ("peer.address".to_string(), "192.0.2.9".to_string()),
        ("http.header.forwarded".to_string(), "for=_hidden".to_string()),
    ];
    let arrival = StreamArrival::new(Arriving::Pushed, &facts2);
    let claim = behind_proxies()
        .identify(&arrival)
        .expect("read")
        .expect("a claim");
    assert_eq!(claim.value, "192.0.2.9");
}

#[test]
fn a_chain_without_a_hop_leaves_the_peer_as_the_claim() {
    let facts = facts(&[
        ("peer.address", "10.0.0.1"),
        ("http.header.forwarded", "proto=https;by=10.0.0.1"),
    ]);
    let arrival = StreamArrival::new(Arriving::Pushed, &facts);

    let claim = behind_proxies()
        .identify(&arrival)
        .expect("read")
        .expect("a claim");
    assert_eq!(claim.value, "10.0.0.1");
    assert!(claim.evidence.is_empty());
}

#[test]
fn a_chain_of_proxies_only_names_the_leftmost() {
    let facts = facts(&[
        ("peer.address", "10.0.0.1"),
        ("http.header.x-forwarded-for", "10.0.0.3, 10.0.0.2"),
    ]);
    let arrival = StreamArrival::new(Arriving::Pushed, &facts);

    let claim = behind_proxies()
        .identify(&arrival)
        .expect("read")
        .expect("a claim");
    assert_eq!(claim.value, "10.0.0.3");
    assert_eq!(
        claim.evidence,
        vec![
            (PEER_ADDRESS.to_string(), "10.0.0.1".to_string()),
            ("ip.forwarded-by".to_string(), "x-forwarded-for".to_string()),
        ]
    );
}

#[test]
fn the_first_peer_property_counts() {
    let facts = facts(&[("peer.address", "192.0.2.1"), ("peer.address", "192.0.2.2")]);
    let arrival = StreamArrival::new(Arriving::Pushed, &facts);
    assert_eq!(arrival.property("peer.address"), Some("192.0.2.1"));
    assert_eq!(arrival.property("peer.port"), None);
    assert_eq!(arrival.arriving(), Arriving::Pushed);

    let claim = IpIdentifier::new()
        .identify(&arrival)
        .expect("read")
        .expect("a claim");
    assert_eq!(claim.value, "192.0.2.1");
}

#[test]
fn an_ipv6_peer_is_shown_compressed() {
    let facts = facts(&[("peer.address", "[2001:0db8:0000:0000:0000:0000:0000:0001]:443")]);
    let arrival = StreamArrival::new(Arriving::Pushed, &facts);
    let claim = IpIdentifier::new()
        .identify(&arrival)
        .expect("read")
        .expect("a claim");
    assert_eq!(claim.value, "2001:db8::1");
}
