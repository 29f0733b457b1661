use lib::address::IpAddr;
use lib::arrival::{Arriving, StreamArrival};
use lib::forwarded::{chain, client, forwarded_for, x_forwarded_for};

fn address(text: &str) -> IpAddr {
    IpAddr::parse(text).expect("an address")
}

fn facts(pairs: &[(&str, &str)]) -> Vec<(String, String)> {
    pairs
        .iter()
        .map(|(name, value)| ((*name).to_string(), (*value).to_string()))
        .collect()
}

#[test]
fn a_forwarded_element_names_its_hop_in_the_for_parameter() {
    let chain = forwarded_for(
        "for=192.0.2.60;proto=http;by=203.0.113.43, FOR=\"[2001:db8:cafe::17]:4711\"",
    )
    .expect("read");

    assert_eq!(
        chain,
        vec![address("192.0.2.60"), address("2001:db8:cafe::17")]
    );
}

#[test]
fn an_obfuscated_hop_cannot_name_a_client() {
    let failure = forwarded_for("for=_hidden, for=192.0.2.60").expect_err("not an address");

    assert_eq!(
        failure.to_string(),
        "the Forwarded header names \"_hidden\", which is not an address"
    );
}

#[test]
fn the_client_is_read_from_the_proxy_end_and_the_leftmost_when_all_are_ours() {
    let chain = [address("1.2.3.4"), address("10.0.0.1"), address("10.0.0.2")];
    let ours = |hop: IpAddr| hop.to_string().starts_with("10.");

    assert_eq!(client(&chain, ours), Some(address("1.2.3.4")));
    assert_eq!(client(&chain[1..], ours), Some(address("10.0.0.1")));
    assert_eq!(client(&[], ours), None);
}

#[test]
fn elements_without_a_for_pair_name_no_hop() {
    let chain = forwarded_for("proto=https;by=203.0.113.43, for = 192.0.2.1 ; for=192.0.2.2")
        .expect("read");
    assert_eq!(chain, vec![address("192.0.2.1")]);

    assert_eq!(forwarded_for("proto=https").expect("read"), vec![]);
    assert_eq!(forwarded_for("").expect("read"), vec![]);
}

#[test]
fn a_forwarded_hop_may_be_quoted_bracketed_and_carry_a_port() {
    let chain = forwarded_for("for=\"192.0.2.43:47011\", for=\"[2001:db8::17]\", for=[::1]")
        .expect("read");
    assert_eq!(
        chain,
        vec![address("192.0.2.43"), address("2001:db8::17"), address("::1")]
    );
}

#[test]
fn the_unknown_hop_is_refused_with_the_header_named() {
    let failure = forwarded_for("for=unknown").expect_err("not an address");
    assert_eq!(
        failure.to_string(),
        "the Forwarded header names \"unknown\", which is not an address"
    );
}

#[test]
fn x_forwarded_for_is_a_comma_separated_list() {
    let chain = x_forwarded_for(" 1.2.3.4 ,198.51.100.17,  2001:db8::1").expect("read");
    assert_eq!(
        chain,
        vec![
            address("1.2.3.4"),
            address("198.51.100.17"),
            address("2001:db8::1")
        ]
    );

    let failure = x_forwarded_for("1.2.3.4, , 10.0.0.1").expect_err("empty hop");
    assert_eq!(
        failure.to_string(),
        "the X-Forwarded-For header names \"\", which is not an address"
    );

    let failure = x_forwarded_for("1.2.3.4, proxy.example").expect_err("a name");
    assert_eq!(
        failure.to_string(),
        "the X-Forwarded-For header names \"proxy.example\", which is not an address"
    );
}

#[test]
fn forwarded_wins_where_both_headers_are_present() {
    let both = facts(&[
        ("http.header.x-forwarded-for", "192.0.2.1"),
        ("http.header.forwarded", "for=192.0.2.2"),
    ]);
    let arrival = StreamArrival::new(Arriving::Pushed, &both);
    let (header, hops) = chain(&arrival).expect("read").expect("a chain");
    assert_eq!(header, "forwarded");
    assert_eq!(hops, vec![address("192.0.2.2")]);

    let older = facts(&[("http.header.x-forwarded-for", "192.0.2.1, 10.0.0.1")]);
    let arrival = StreamArrival::new(Arriving::Pushed, &older);
    let (header, hops) = chain(&arrival).expect("read").expect("a chain");
    assert_eq!(header, "x-forwarded-for");
    assert_eq!(hops, vec![address("192.0.2.1"), address("10.0.0.1")]);

    let none = facts(&[("peer.address", "10.0.0.1")]);
    let arrival = StreamArrival::new(Arriving::Pushed, &none);
    assert!(chain(&arrival).expect("read").is_none());
}

#[test]
fn hops_left_of_the_client_are_ignored() {
    let ours = |hop: IpAddr| hop.to_string().starts_with("10.");
    let short = [address("198.51.100.17"), address("10.0.0.5")];
    let long = [
        address("1.2.3.4"),
        address("5.6.7.8"),
        address("198.51.100.17"),
        address("10.0.0.5"),
    ];

    assert_eq!(client(&short, ours), client(&long, ours));
    assert_eq!(client(&long, ours), Some(address("198.51.100.17")));
}

#[test]
fn shown_addresses_joined_by_commas_read_back_in_order() {
    let hops = vec![
        address("203.0.113.9"),
        address("2001:db8::17"),
        address("::ffff:198.51.100.2"),
        address("10.0.0.5"),
    ];
    let shown: Vec<String> = hops.iter().map(|a| a.to_string()).collect();

    assert_eq!(x_forwarded_for(&shown.join(",")).unwrap(), hops);
    assert_eq!(x_forwarded_for(&shown.join(", ")).unwrap(), hops);
    assert_eq!(x_forwarded_for(&shown.join(" ,\t")).unwrap(), hops);
    assert_eq!(x_forwarded_for(&shown[0]).unwrap(), vec![hops[0]]);
}
