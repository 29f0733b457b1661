//! Identify by IP address: the peer address is the claim.
//!
//! The commonest allow-list there is, and spoofable on most networks, which
//! is why the mechanism identifies and never authenticates. The transport
//! puts the socket peer on the arrival as [`PEER_ADDRESS`] —
//! `192.0.2.10:4711`, `[2001:db8::1]:443` or a bare address — and this
//! presents the address without its port, passed.
//!
//! A load balancer or reverse proxy in front of the node makes the socket
//! peer the proxy. The identifier takes a list of trusted proxies, as
//! addresses or prefixes, and only where the socket peer is one of them reads
//! `Forwarded` (RFC 7239, the `for` parameter) or `X-Forwarded-For` off the
//! arrival: walking the chain from the proxy end, the first address that is
//! not a trusted proxy is the client. A forwarded header from an untrusted
//! peer is ignored, because anyone can write one.
//!
//! Only a pushed arrival has a peer. A detected or scheduled arrival presents
//! nothing here however the property reads: nobody connected, and the
//! address on it is a broker's or a server's, not a sender's.
//!
//! Evidence the claim carries: `peer.address` (the socket peer, where the
//! claim came through a proxy) and `ip.forwarded-by` (which header said so).

pub mod address;
pub mod arrival;
pub mod error;
pub mod forwarded;
pub mod network;
pub mod readback;
pub mod text;

use vstd::prelude::*;
use crate::address::{IpAddr, address_text, ip_display, parse_peer, socket_display};
use crate::arrival::{
    ArrivalView, Arriving, Mechanism, Presented, PresentedView, StreamArrival, property_of,
};
use crate::error::IdentifyError;
use crate::forwarded::{chain, chain_of, client, client_of, lemma_picked_client};
use crate::network::{Network, NetworkView, covers};
use crate::text::{all_space, chars_of, quote, quoted, trim, trimmed, lemma_trim_padding};
use crate::readback::{lemma_shown_address_text, lemma_socket_address_text};

verus! {

/// The arrival property the transport puts the socket peer on.
pub const PEER_ADDRESS: &'static str = "peer.address";

/// The evidence naming the header a forwarded claim was read from.
pub const FORWARDED_BY: &'static str = "ip.forwarded-by";

/// The message for a peer that is not an address.
pub open spec fn peer_error(t: Seq<char>) -> Seq<char> {
    "the peer address "@ + quote(t) + " is not an IP address"@
}

/// The address a transport's text writes once trimmed, or the message saying
/// it is none.
pub open spec fn address_of(text: Seq<char>) -> Result<IpAddr, Seq<char>> {
    match address_text(trim(text)) {
        Some(a) => Ok(a),
        None => Err(peer_error(trim(text))),
    }
}

/// The address that `text` writes, as `parse_address` reads it.
pub(crate) fn read_address(text: &Vec<char>) -> (r: Result<IpAddr, IdentifyError>)
    ensures
        match r {
            Ok(a) => address_of(text@) == Ok::<IpAddr, Seq<char>>(a),
            Err(e) => address_of(text@) == Err::<IpAddr, Seq<char>>(e@),
        },
{
    let t = trimmed(text);
    match parse_peer(&t) {
        Some(a) => Ok(a),
        None => {
            let mut m = String::from_str("the peer address ");
            let q = quoted(&t);
            m.append(q.as_str());
            m.append(" is not an IP address");
            Err(IdentifyError::new(m))
        },
    }
}

/// Read an address as a transport writes it: bare, with a port, or an IPv6
/// address in brackets with or without one.
///
/// # Errors
///
/// Where the text is none of those.
pub fn parse_address(text: &str) -> (r: Result<IpAddr, IdentifyError>)
    ensures
        match r {
            Ok(a) => address_of(text@) == Ok::<IpAddr, Seq<char>>(a),
            Err(e) => address_of(text@) == Err::<IpAddr, Seq<char>>(e@),
        },
{
    let t = chars_of(text);
    read_address(&t)
}

/// Whether one of the networks contains the address.
pub open spec fn trusts_any(trusted: Seq<NetworkView>, a: IpAddr) -> bool {
    exists|i: int| 0 <= i < trusted.len() && covers(#[trigger] trusted[i], a)
}

/// The claim of the socket peer itself.
pub open spec fn peer_claim(peer: IpAddr) -> PresentedView {
    PresentedView { mechanism: "ip"@, value: ip_display(peer), evidence: Seq::empty() }
}

/// The claim of a client read through a trusted proxy: the evidence names
/// the proxy and the header.
pub open spec fn forwarded_claim(client: IpAddr, peer: IpAddr, header: Seq<char>) -> PresentedView {
    PresentedView {
        mechanism: "ip"@,
        value: ip_display(client),
        evidence: seq![(PEER_ADDRESS@, ip_display(peer)), (FORWARDED_BY@, header)],
    }
}

/// The claim read through a trusted proxy: the client the forwarded chain
/// names, where there is a chain and it names one.
pub open spec fn via_proxy(
    trusted: Seq<NetworkView>,
    properties: Seq<(Seq<char>, Seq<char>)>,
    peer: IpAddr,
) -> Result<Option<PresentedView>, Seq<char>> {
    match chain_of(properties) {
        Err(e) => Err(e),
        Ok(Some((header, hops))) => match client_of(hops, |a: IpAddr| trusts_any(trusted, a)) {
            Some(c) => Ok(Some(forwarded_claim(c, peer, header))),
            None => Ok(None),
        },
        Ok(None) => Ok(None),
    }
}

/// What an identifier trusting these networks presents for the arrival.
pub open spec fn identified(trusted: Seq<NetworkView>, arrival: ArrivalView) -> Result<
    Option<PresentedView>,
    Seq<char>,
> {
    if arrival.arriving != Arriving::Pushed {
        Ok(None)
    } else {
        match property_of(arrival.properties, PEER_ADDRESS@) {
            None => Ok(None),
            Some(text) => match address_of(text) {
                Err(e) => Err(e),
                Ok(peer) => if trusts_any(trusted, peer) {
                    match via_proxy(trusted, arrival.properties, peer) {
                        Err(e) => Err(e),
                        Ok(Some(claim)) => Ok(Some(claim)),
                        Ok(None) => Ok(Some(peer_claim(peer))),
                    }
                } else {
                    Ok(Some(peer_claim(peer)))
                },
            },
        }
    }
}

/// Reads the peer address, through a trusted proxy where there is one.
#[derive(Clone, Debug)]
pub struct IpIdentifier {
    trusted: Vec<Network>,
}

impl View for IpIdentifier {
    type V = Seq<NetworkView>;

    closed spec fn view(&self) -> Seq<NetworkView> {
        self.trusted@.map_values(|n: Network| n@)
    }
}

impl IpIdentifier {
    /// Trusts no proxy: the socket peer is always the claim.
    pub fn new() -> (r: Self)
        ensures
            r@ == Seq::<NetworkView>::empty(),
    {
        let r = IpIdentifier { trusted: Vec::new() };
        assert(r@ =~= Seq::<NetworkView>::empty());
        r
    }

    /// Trust a proxy. A forwarded header is read only where the socket peer
    /// is one of these; the client is the first hop from the proxy end that
    /// is not.
    pub fn trusting(self, proxy: Network) -> (r: Self)
        ensures
            r@ == self@.push(proxy@),
    {
        let mut r = self;
        let ghost before = r.trusted@;
        r.trusted.push(proxy);
        assert(r.trusted@.map_values(|n: Network| n@) =~= before.map_values(|n: Network| n@).push(
            proxy@,
        ));
        r
    }

    /// Whether this address is one of the trusted proxies.
    pub fn trusts(&self, address: IpAddr) -> (r: bool)
        ensures
            r == trusts_any(self@, address),
    {
        let mut i: usize = 0;
        while i < self.trusted.len()
            invariant
                i <= self.trusted@.len(),
                forall|j: int| 0 <= j < i ==> !covers(#[trigger] self@[j], address),
            decreases self.trusted.len() - i,
        {
            if self.trusted[i].contains(address) {
                assert(covers(self@[i as int], address));
                return true;
            }
            i = i + 1;
        }
        false
    }

    /// The mechanism this identifier claims by: `ip`.
    pub fn mechanism(&self) -> (m: Mechanism)
        ensures
            m@ == "ip"@,
    {
        Mechanism::ip()
    }

    /// The claim the arrival makes: nothing unless it was pushed and carries
    /// a peer; the peer, without its port; or, where the peer is a trusted
    /// proxy and a forwarded header names a chain, the client in that chain.
    ///
    /// # Errors
    ///
    /// Where the peer is not an address, or the forwarded header behind a
    /// trusted proxy names a hop that is not one.
    pub fn identify(&self, arrival: &StreamArrival<'_>) -> (r: Result<Option<Presented>, IdentifyError>)
        ensures
            match r {
                Ok(Some(p)) => identified(self@, arrival@) == Ok::<
                    Option<PresentedView>,
                    Seq<char>,
                >(Some(p@)),
                Ok(None) => identified(self@, arrival@) == Ok::<
                    Option<PresentedView>,
                    Seq<char>,
                >(None),
                Err(e) => identified(self@, arrival@) == Err::<
                    Option<PresentedView>,
                    Seq<char>,
                >(e@),
            },
    {
        if arrival.arriving() != Arriving::Pushed {
            return Ok(None);
        }
        let peer_text = match arrival.property(PEER_ADDRESS) {
            Some(p) => p,
            None => return Ok(None),
        };
        let peer = match parse_address(peer_text) {
            Ok(a) => a,
            Err(e) => return Err(e),
        };
        if self.trusts(peer) {
            match self.through_proxy(arrival, peer) {
                Err(e) => return Err(e),
                Ok(Some(claim)) => return Ok(Some(claim)),
                Ok(None) => {},
            }
        }
        Ok(Some(Presented::passed(self.mechanism(), peer.to_string())))
    }
}

impl IpIdentifier {
    /// The claim read through the trusted proxy `peer`: the client the
    /// forwarded chain names, where the arrival carries a chain.
    fn through_proxy(&self, arrival: &StreamArrival<'_>, peer: IpAddr) -> (r: Result<
        Option<Presented>,
        IdentifyError,
    >)
        ensures
            match r {
                Ok(Some(p)) => via_proxy(self@, arrival@.properties, peer) == Ok::<
                    Option<PresentedView>,
                    Seq<char>,
                >(Some(p@)),
                Ok(None) => via_proxy(self@, arrival@.properties, peer) == Ok::<
                    Option<PresentedView>,
                    Seq<char>,
                >(None),
                Err(e) => via_proxy(self@, arrival@.properties, peer) == Err::<
                    Option<PresentedView>,
                    Seq<char>,
                >(e@),
            },
    {
        let (header, hops) = match chain(arrival) {
            Err(e) => return Err(e),
            Ok(Some(found)) => found,
            Ok(None) => return Ok(None),
        };
        let trusted = |hop: IpAddr| -> (b: bool)
            ensures
                b == trusts_any(self@, hop),
            { self.trusts(hop) };
        let c = match client(hops.as_slice(), trusted) {
            Some(c) => c,
            None => return Ok(None),
        };
        proof {
            let i = choose|i: int| crate::forwarded::picked(trusted, hops@, i) && hops@[i] == c;
            lemma_picked_client(trusted, |a: IpAddr| trusts_any(self@, a), hops@, i);
        }
        let claim = Presented::passed(self.mechanism(), c.to_string());
        let peer_shown = peer.to_string();
        let claim = claim.with_evidence(PEER_ADDRESS, peer_shown.as_str());
        let claim = claim.with_evidence(FORWARDED_BY, header);
        assert(claim@.evidence =~= seq![(PEER_ADDRESS@, ip_display(peer)), (FORWARDED_BY@, header@)]);
        Ok(Some(claim))
    }
}

impl Default for IpIdentifier {
    fn default() -> (r: Self)
        ensures
            r@ == Seq::<NetworkView>::empty(),
    {
        Self::new()
    }
}

/// Only a pushed arrival has a peer: a detected or scheduled one presents
/// nothing, whatever its properties say.
pub proof fn law_only_pushed_arrivals_present(trusted: Seq<NetworkView>, arrival: ArrivalView)
    requires
        arrival.arriving != Arriving::Pushed,
    ensures
        identified(trusted, arrival) == Ok::<Option<PresentedView>, Seq<char>>(None),
{
}

/// A forwarded header from a peer nobody trusts is ignored: the claim is the
/// peer, whatever the headers say.
pub proof fn law_untrusted_peer_is_the_claim(
    trusted: Seq<NetworkView>,
    arrival: ArrivalView,
    peer: IpAddr,
)
    requires
        arrival.arriving == Arriving::Pushed,
        property_of(arrival.properties, PEER_ADDRESS@) matches Some(text) && address_of(text)
            == Ok::<IpAddr, Seq<char>>(peer),
        !trusts_any(trusted, peer),
    ensures
        identified(trusted, arrival) == Ok::<Option<PresentedView>, Seq<char>>(
            Some(peer_claim(peer)),
        ),
{
}

/// An identifier that trusts no proxy always presents the socket peer.
pub proof fn law_no_proxy_means_the_peer(arrival: ArrivalView, peer: IpAddr)
    requires
        arrival.arriving == Arriving::Pushed,
        property_of(arrival.properties, PEER_ADDRESS@) matches Some(text) && address_of(text)
            == Ok::<IpAddr, Seq<char>>(peer),
    ensures
        identified(Seq::empty(), arrival) == Ok::<Option<PresentedView>, Seq<char>>(
            Some(peer_claim(peer)),
        ),
{
    law_untrusted_peer_is_the_claim(Seq::empty(), arrival, peer);
}

/// Trusting one more proxy trusts exactly the addresses it contains besides
/// those trusted before.
pub proof fn law_trusting_adds_the_proxy(trusted: Seq<NetworkView>, proxy: NetworkView, a: IpAddr)
    ensures
        trusts_any(trusted.push(proxy), a) <==> (trusts_any(trusted, a) || covers(proxy, a)),
{
    let more = trusted.push(proxy);
    if trusts_any(trusted, a) {
        let i = choose|i: int| 0 <= i < trusted.len() && covers(#[trigger] trusted[i], a);
        assert(more[i] == trusted[i]);
    }
    if covers(proxy, a) {
        assert(more[trusted.len() as int] == proxy);
    }
    if trusts_any(more, a) {
        let i = choose|i: int| 0 <= i < more.len() && covers(#[trigger] more[i], a);
        if i < trusted.len() {
            assert(more[i] == trusted[i]);
        }
    }
}

/// `Forwarded` wins where both headers are present: the chain is the one the
/// `Forwarded` value names, whatever `X-Forwarded-For` says.
pub proof fn law_forwarded_wins(properties: Seq<(Seq<char>, Seq<char>)>, value: Seq<char>)
    requires
        property_of(properties, crate::forwarded::FORWARDED@) == Some(value),
    ensures
        chain_of(properties) == chain_of(seq![(crate::forwarded::FORWARDED@, value)]),
{
    let one = seq![(crate::forwarded::FORWARDED@, value)];
    assert(one.drop_last() =~= Seq::<(Seq<char>, Seq<char>)>::empty());
    assert(property_of(one.drop_last(), crate::forwarded::FORWARDED@) is None);
    assert(one.last() == (crate::forwarded::FORWARDED@, value));
    assert(property_of(one, crate::forwarded::FORWARDED@) == Some(value));
}

/// Whitespace around a peer's text makes no difference to the address
/// `parse_address` reads, nor to the message where it reads none.
pub proof fn law_parse_address_ignores_surrounding_space(
    before: Seq<char>,
    text: Seq<char>,
    after: Seq<char>,
)
    requires
        all_space(before),
        all_space(after),
    ensures
        address_of(before + text + after) == address_of(text),
{
    lemma_trim_padding(before, text, after);
}

/// An address as it is shown reads back through `parse_address` as the same
/// address.
pub proof fn law_shown_address_parses(a: IpAddr)
    ensures
        address_of(ip_display(a)) == Ok::<IpAddr, Seq<char>>(a),
{
    lemma_shown_address_text(a);
}

/// A socket address as it is shown, `a.b.c.d:port` or `[ipv6]:port`, reads
/// back through `parse_address` as its address, the port dropped.
pub proof fn law_shown_socket_address_parses(a: IpAddr, port: u16)
    ensures
        address_of(socket_display(a, port)) == Ok::<IpAddr, Seq<char>>(a),
{
    lemma_socket_address_text(a, port);
}

/// Where the arrival carries neither a `Forwarded` nor an `X-Forwarded-For`
/// property, the claim is the socket peer itself, without a port and with no
/// evidence, whether or not the peer is a trusted proxy: trusting it changes
/// nothing.
pub proof fn law_no_forwarding_header_means_the_peer(
    trusted: Seq<NetworkView>,
    arrival: ArrivalView,
    peer: IpAddr,
)
    requires
        arrival.arriving == Arriving::Pushed,
        property_of(arrival.properties, PEER_ADDRESS@) matches Some(text) && address_of(text)
            == Ok::<IpAddr, Seq<char>>(peer),
        property_of(arrival.properties, crate::forwarded::FORWARDED@) is None,
        property_of(arrival.properties, crate::forwarded::X_FORWARDED_FOR@) is None,
    ensures
        identified(trusted, arrival) == Ok::<Option<PresentedView>, Seq<char>>(
            Some(PresentedView { mechanism: "ip"@, value: ip_display(peer), evidence: Seq::empty() }),
        ),
        identified(trusted, arrival) == identified(Seq::empty(), arrival),
{
    law_untrusted_peer_is_the_claim(Seq::empty(), arrival, peer);
}

} // verus!
