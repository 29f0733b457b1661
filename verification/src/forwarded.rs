//! The forwarded chain: the addresses a proxy says a request passed through.
//!
//! Two headers carry it. `Forwarded` (RFC 7239) is a list of elements, each a
//! `;`-separated set of `name=value` pairs, of which `for` names a hop; the
//! value may be quoted, and an IPv6 address is bracketed with an optional
//! port. `X-Forwarded-For` is the older comma-separated list of bare
//! addresses. Both read client first, proxy last: each proxy appends itself
//! to the right, so the right end is the only end anyone this side of the
//! proxy can vouch for.

use vstd::prelude::*;
use crate::address::{IpAddr, address_text, ip_display};
use crate::readback::lemma_shown_address_text;
use crate::arrival::{StreamArrival, property_of};
use crate::error::IdentifyError;
use crate::text::{
    chars_of, quote, eq_ignore_ascii_case, find_first, first_index, lemma_first_index,
    quoted, same_ignoring_ascii_case, slice, split, split_at_each, strip_all, stripped, trim,
    trimmed, views, all_space, is_space, lemma_split_append, lemma_split_separator,
    lemma_trim_padding, lemma_split_concat, lemma_split_whole, lemma_trim_no_space,
};

verus! {

/// The arrival property carrying RFC 7239 `Forwarded`.
pub const FORWARDED: &'static str = "http.header.forwarded";

/// The arrival property carrying `X-Forwarded-For`.
pub const X_FORWARDED_FOR: &'static str = "http.header.x-forwarded-for";

/// The hop a `name=value` pair names: the trimmed value, where the trimmed
/// name is `for` in any case.
pub open spec fn pair_hop(pair: Seq<char>) -> Option<Seq<char>> {
    let p = trim(pair);
    match first_index(p, '=') {
        Some(i) => if eq_ignore_ascii_case(trim(p.take(i)), "for"@) {
            Some(trim(p.skip(i + 1)))
        } else {
            None
        },
        None => None,
    }
}

/// The hop that the first `for` pair among `pairs` names.
pub open spec fn first_hop(pairs: Seq<Seq<char>>) -> Option<Seq<char>>
    decreases pairs.len(),
{
    if pairs.len() == 0 {
        None
    } else {
        match first_hop(pairs.drop_last()) {
            Some(h) => Some(h),
            None => pair_hop(pairs.last()),
        }
    }
}

/// The hops the `Forwarded` elements name, in order; an element without a
/// `for` pair names none.
pub open spec fn hops_in(elements: Seq<Seq<char>>) -> Seq<Seq<char>>
    decreases elements.len(),
{
    if elements.len() == 0 {
        Seq::empty()
    } else {
        let before = hops_in(elements.drop_last());
        match first_hop(split(elements.last(), ';')) {
            Some(h) => before.push(h),
            None => before,
        }
    }
}

/// The hop texts of a `Forwarded` value, quotes stripped.
pub open spec fn forwarded_hops(value: Seq<char>) -> Seq<Seq<char>> {
    hops_in(split(value, ',')).map_values(|h: Seq<char>| strip_all(h, '"'))
}

/// The hop texts of an `X-Forwarded-For` value, trimmed.
pub open spec fn x_forwarded_hops(value: Seq<char>) -> Seq<Seq<char>> {
    split(value, ',').map_values(|h: Seq<char>| trim(h))
}

/// The message for a hop that is not an address.
pub open spec fn hop_error(hop: Seq<char>, header: Seq<char>) -> Seq<char> {
    "the "@ + header + " header names "@ + quote(hop) + ", which is not an address"@
}

/// The addresses the hops write, or the message for the first that is not one.
pub open spec fn hop_addresses(hops: Seq<Seq<char>>, header: Seq<char>) -> Result<
    Seq<IpAddr>,
    Seq<char>,
>
    decreases hops.len(),
{
    if hops.len() == 0 {
        Ok(Seq::empty())
    } else {
        match hop_addresses(hops.drop_last(), header) {
            Err(e) => Err(e),
            Ok(v) => match address_text(trim(hops.last())) {
                Some(a) => Ok(v.push(a)),
                None => Err(hop_error(hops.last(), header)),
            },
        }
    }
}

/// The chain a `Forwarded` value names.
pub open spec fn forwarded_chain(value: Seq<char>) -> Result<Seq<IpAddr>, Seq<char>> {
    hop_addresses(forwarded_hops(value), "Forwarded"@)
}

/// The chain an `X-Forwarded-For` value names.
pub open spec fn x_forwarded_chain(value: Seq<char>) -> Result<Seq<IpAddr>, Seq<char>> {
    hop_addresses(x_forwarded_hops(value), "X-Forwarded-For"@)
}

/// The chain the properties carry and the header that carried it;
/// `Forwarded` wins where both are present.
pub open spec fn chain_of(properties: Seq<(Seq<char>, Seq<char>)>) -> Result<
    Option<(Seq<char>, Seq<IpAddr>)>,
    Seq<char>,
> {
    match property_of(properties, FORWARDED@) {
        Some(v) => match forwarded_chain(v) {
            Ok(c) => Ok(Some(("forwarded"@, c))),
            Err(e) => Err(e),
        },
        None => match property_of(properties, X_FORWARDED_FOR@) {
            Some(v) => match x_forwarded_chain(v) {
                Ok(c) => Ok(Some(("x-forwarded-for"@, c))),
                Err(e) => Err(e),
            },
            None => Ok(None),
        },
    }
}

/// The hop nearest the proxy end that `trusted` does not hold.
pub open spec fn last_untrusted(chain: Seq<IpAddr>, trusted: spec_fn(IpAddr) -> bool) -> Option<
    IpAddr,
>
    decreases chain.len(),
{
    if chain.len() == 0 {
        None
    } else if !trusted(chain.last()) {
        Some(chain.last())
    } else {
        last_untrusted(chain.drop_last(), trusted)
    }
}

/// The client in a chain: the first hop from the proxy end that is not
/// trusted; where every hop is, the leftmost.
pub open spec fn client_of(chain: Seq<IpAddr>, trusted: spec_fn(IpAddr) -> bool) -> Option<
    IpAddr,
> {
    match last_untrusted(chain, trusted) {
        Some(c) => Some(c),
        None => if chain.len() > 0 {
            Some(chain[0])
        } else {
            None
        },
    }
}

/// Whether hop `i` is the one `client` picks, by what `trusted` returned for
/// the hops: every later hop trusted, and this one not, or it is the first
/// and trusted too.
pub open spec fn picked<F: Fn(IpAddr) -> bool>(trusted: F, chain: Seq<IpAddr>, i: int) -> bool {
    &&& 0 <= i < chain.len()
    &&& forall|j: int| i < j < chain.len() ==> trusted.ensures((chain[j],), true)
    &&& (trusted.ensures((chain[i],), false) || (i == 0 && trusted.ensures((chain[0],), true)))
}

/// The client in a chain: the first hop from the proxy end that is not a
/// trusted proxy. Where every hop is trusted, the leftmost is the client —
/// the proxies had nothing before them to name.
pub fn client(chain: &[IpAddr], trusted: impl Fn(IpAddr) -> bool) -> (r: Option<IpAddr>)
    requires
        forall|a: IpAddr| trusted.requires((a,)),
    ensures
        r is None <==> chain@.len() == 0,
        r matches Some(c) ==> exists|i: int| picked(trusted, chain@, i) && chain@[i] == c,
{
    let mut i = chain.len();
    while i > 0
        invariant
            i <= chain@.len(),
            forall|a: IpAddr| trusted.requires((a,)),
            forall|j: int| i <= j < chain@.len() ==> trusted.ensures((chain@[j],), true),
        decreases i,
    {
        let hop = chain[i - 1];
        let t = trusted(hop);
        if !t {
            assert(picked(trusted, chain@, i - 1));
            return Some(hop);
        }
        i = i - 1;
    }
    if chain.len() > 0 {
        assert(picked(trusted, chain@, 0));
        Some(chain[0])
    } else {
        None
    }
}

/// Where `trusted` answers as `p` does, the hop `client` picks is `client_of`.
pub proof fn lemma_picked_client<F: Fn(IpAddr) -> bool>(
    trusted: F,
    p: spec_fn(IpAddr) -> bool,
    chain: Seq<IpAddr>,
    i: int,
)
    requires
        forall|a: IpAddr, b: bool| trusted.ensures((a,), b) ==> b == p(a),
        picked(trusted, chain, i),
    ensures
        client_of(chain, p) == Some(chain[i]),
{
    lemma_last_untrusted(chain, p, i);
}

proof fn lemma_last_untrusted(
    chain: Seq<IpAddr>,
    p: spec_fn(IpAddr) -> bool,
    i: int,
)
    requires
        0 <= i < chain.len(),
        forall|j: int| i < j < chain.len() ==> p(chain[j]),
    ensures
        !p(chain[i]) ==> last_untrusted(chain, p) == Some(chain[i]),
        p(chain[i]) ==> last_untrusted(chain, p) == last_untrusted(chain.take(i), p),
    decreases chain.len(),
{
    if i < chain.len() - 1 {
        lemma_last_untrusted(chain.drop_last(), p, i);
        assert(chain.drop_last().take(i) =~= chain.take(i));
    } else {
        assert(chain.drop_last() =~= chain.take(i));
    }
}

/// The hop a `name=value` pair names.
fn pair_hop_of(pair: &Vec<char>) -> (r: Option<Vec<char>>)
    ensures
        match r {
            Some(h) => pair_hop(pair@) == Some(h@),
            None => pair_hop(pair@) is None,
        },
{
    let p = trimmed(pair);
    match find_first(&p, '=') {
        None => None,
        Some(i) => {
            proof {
                lemma_first_index(p@, '=');
            }
            let name = trimmed(&slice(&p, 0, i));
            assert(p@.subrange(0, i as int) =~= p@.take(i as int));
            let word = chars_of("for");
            if same_ignoring_ascii_case(&name, &word) {
                let hop = trimmed(&slice(&p, i + 1, p.len()));
                assert(p@.subrange(i + 1, p@.len() as int) =~= p@.skip(i + 1));
                Some(hop)
            } else {
                None
            }
        },
    }
}

proof fn lemma_first_hop_prefix(pairs: Seq<Seq<char>>, n: int)
    requires
        0 <= n <= pairs.len(),
        first_hop(pairs.take(n)) is Some,
    ensures
        first_hop(pairs) == first_hop(pairs.take(n)),
    decreases pairs.len() - n,
{
    if n < pairs.len() {
        assert(pairs.take(n + 1).drop_last() =~= pairs.take(n));
        lemma_first_hop_prefix(pairs, n + 1);
    } else {
        assert(pairs.take(n) =~= pairs);
    }
}

/// The hop the first `for` pair of a `Forwarded` element names.
fn element_hop(element: &Vec<char>) -> (r: Option<Vec<char>>)
    ensures
        match r {
            Some(h) => first_hop(split(element@, ';')) == Some(h@),
            None => first_hop(split(element@, ';')) is None,
        },
{
    let pairs = split_at_each(element, ';');
    let ghost ps = views(pairs@);
    let mut k: usize = 0;
    while k < pairs.len()
        invariant
            k <= pairs@.len(),
            ps == views(pairs@),
            ps == split(element@, ';'),
            first_hop(ps.take(k as int)) is None,
        decreases pairs.len() - k,
    {
        assert(ps.take(k + 1).drop_last() =~= ps.take(k as int));
        assert(ps[k as int] == pairs@[k as int]@);
        if let Some(h) = pair_hop_of(&pairs[k]) {
            proof {
                lemma_first_hop_prefix(ps, k + 1);
            }
            return Some(h);
        }
        k = k + 1;
    }
    assert(ps.take(pairs@.len() as int) =~= ps);
    None
}

proof fn lemma_hop_addresses_error(hops: Seq<Seq<char>>, header: Seq<char>, n: int)
    requires
        0 <= n <= hops.len(),
        hop_addresses(hops.take(n), header) is Err,
    ensures
        hop_addresses(hops, header) == hop_addresses(hops.take(n), header),
    decreases hops.len() - n,
{
    if n < hops.len() {
        assert(hops.take(n + 1).drop_last() =~= hops.take(n));
        lemma_hop_addresses_error(hops, header, n + 1);
    } else {
        assert(hops.take(n) =~= hops);
    }
}

proof fn lemma_hop_addresses_step(hops: Seq<Seq<char>>, header: Seq<char>, k: int)
    requires
        0 <= k < hops.len(),
    ensures
        hop_addresses(hops.take(k + 1), header) == match hop_addresses(hops.take(k), header) {
            Err(e) => Err(e),
            Ok(v) => match address_text(trim(hops[k])) {
                Some(a) => Ok(v.push(a)),
                None => Err(hop_error(hops[k], header)),
            },
        },
{
    assert(hops.take(k + 1).drop_last() =~= hops.take(k));
}

/// The address a hop writes.
///
/// # Errors
///
/// Where the hop is not an address; the message names the header and the hop.
fn hop_address(hop: &Vec<char>, header: &str) -> (r: Result<IpAddr, IdentifyError>)
    ensures
        match r {
            Ok(a) => address_text(trim(hop@)) == Some(a),
            Err(e) => address_text(trim(hop@)) is None && e@ == hop_error(hop@, header@),
        },
{
    match crate::read_address(hop) {
        Ok(a) => Ok(a),
        Err(_) => {
            let mut m = String::from_str("the ");
            m.append(header);
            m.append(" header names ");
            let q = quoted(hop);
            m.append(q.as_str());
            m.append(", which is not an address");
            Err(IdentifyError::new(m))
        },
    }
}

/// The addresses the hops write.
fn hop_addresses_of(hops: &Vec<Vec<char>>, header: &str) -> (r: Result<Vec<IpAddr>, IdentifyError>)
    ensures
        match r {
            Ok(v) => hop_addresses(views(hops@), header@) == Ok::<Seq<IpAddr>, Seq<char>>(v@),
            Err(e) => hop_addresses(views(hops@), header@) == Err::<Seq<IpAddr>, Seq<char>>(e@),
        },
{
    let ghost hs = views(hops@);
    let mut out: Vec<IpAddr> = Vec::new();
    let mut k: usize = 0;
    assert(hs.take(0) =~= Seq::<Seq<char>>::empty());
    while k < hops.len()
        invariant
            k <= hops@.len(),
            hs == views(hops@),
            hop_addresses(hs.take(k as int), header@) == Ok::<Seq<IpAddr>, Seq<char>>(out@),
        decreases hops.len() - k,
    {
        proof {
            lemma_hop_addresses_step(hs, header@, k as int);
        }
        assert(hs[k as int] == hops@[k as int]@);
        match hop_address(&hops[k], header) {
            Ok(a) => {
                out.push(a);
            },
            Err(e) => {
                proof {
                    lemma_hop_addresses_error(hs, header@, k + 1);
                }
                return Err(e);
            },
        }
        k = k + 1;
    }
    assert(hs.take(hops@.len() as int) =~= hs);
    Ok(out)
}

/// The `for` hops of an RFC 7239 `Forwarded` value.
///
/// # Errors
///
/// Where a `for` value is not an address.
pub fn forwarded_for(value: &str) -> (r: Result<Vec<IpAddr>, IdentifyError>)
    ensures
        match r {
            Ok(v) => forwarded_chain(value@) == Ok::<Seq<IpAddr>, Seq<char>>(v@),
            Err(e) => forwarded_chain(value@) == Err::<Seq<IpAddr>, Seq<char>>(e@),
        },
{
    let v = chars_of(value);
    let elements = split_at_each(&v, ',');
    let ghost es = views(elements@);
    let mut hops: Vec<Vec<char>> = Vec::new();
    let mut k: usize = 0;
    assert(es.take(0) =~= Seq::<Seq<char>>::empty());
    assert(views(hops@) =~= hops_in(es.take(0)).map_values(|h: Seq<char>| strip_all(h, '"')));
    while k < elements.len()
        invariant
            k <= elements@.len(),
            es == views(elements@),
            es == split(value@, ','),
            views(hops@) == hops_in(es.take(k as int)).map_values(
                |h: Seq<char>| strip_all(h, '"'),
            ),
        decreases elements.len() - k,
    {
        assert(es.take(k + 1).drop_last() =~= es.take(k as int));
        assert(es[k as int] == elements@[k as int]@);
        let ghost before = hops@;
        if let Some(h) = element_hop(&elements[k]) {
            let s = stripped(&h, '"');
            hops.push(s);
            assert(views(hops@) =~= views(before).push(s@));
        }
        k = k + 1;
        assert(views(hops@) =~= hops_in(es.take(k as int)).map_values(
            |h: Seq<char>| strip_all(h, '"'),
        ));
    }
    assert(es.take(elements@.len() as int) =~= es);
    hop_addresses_of(&hops, "Forwarded")
}

/// The hops of an `X-Forwarded-For` value.
///
/// # Errors
///
/// Where a hop is not an address.
pub fn x_forwarded_for(value: &str) -> (r: Result<Vec<IpAddr>, IdentifyError>)
    ensures
        match r {
            Ok(v) => x_forwarded_chain(value@) == Ok::<Seq<IpAddr>, Seq<char>>(v@),
            Err(e) => x_forwarded_chain(value@) == Err::<Seq<IpAddr>, Seq<char>>(e@),
        },
{
    let v = chars_of(value);
    let pieces = split_at_each(&v, ',');
    let ghost ps = views(pieces@);
    let mut hops: Vec<Vec<char>> = Vec::new();
    let mut k: usize = 0;
    while k < pieces.len()
        invariant
            k <= pieces@.len(),
            ps == views(pieces@),
            ps == split(value@, ','),
            views(hops@) == ps.take(k as int).map_values(|h: Seq<char>| trim(h)),
        decreases pieces.len() - k,
    {
        assert(ps[k as int] == pieces@[k as int]@);
        let ghost before = hops@;
        let h = trimmed(&pieces[k]);
        hops.push(h);
        assert(views(hops@) =~= views(before).push(h@));
        k = k + 1;
        assert(views(hops@) =~= ps.take(k as int).map_values(|h: Seq<char>| trim(h)));
    }
    assert(ps.take(pieces@.len() as int) =~= ps);
    hop_addresses_of(&hops, "X-Forwarded-For")
}

/// The chain the arrival carries, client first, and which header carried it.
/// `Forwarded` wins where both are present, being the standard one.
///
/// # Errors
///
/// Where a hop in the header is not an address — RFC 7239 permits `unknown`
/// and obfuscated identifiers, and a chain with one in it cannot name a
/// client.
pub fn chain(arrival: &StreamArrival<'_>) -> (r: Result<
    Option<(&'static str, Vec<IpAddr>)>,
    IdentifyError,
>)
    ensures
        match r {
            Ok(Some((h, c))) => chain_of(arrival@.properties) == Ok::<
                Option<(Seq<char>, Seq<IpAddr>)>,
                Seq<char>,
            >(Some((h@, c@))),
            Ok(None) => chain_of(arrival@.properties) == Ok::<
                Option<(Seq<char>, Seq<IpAddr>)>,
                Seq<char>,
            >(None),
            Err(e) => chain_of(arrival@.properties) == Err::<
                Option<(Seq<char>, Seq<IpAddr>)>,
                Seq<char>,
            >(e@),
        },
{
    if let Some(value) = arrival.property(FORWARDED) {
        return match forwarded_for(value) {
            Ok(c) => Ok(Some(("forwarded", c))),
            Err(e) => Err(e),
        };
    }
    if let Some(value) = arrival.property(X_FORWARDED_FOR) {
        return match x_forwarded_for(value) {
            Ok(c) => Ok(Some(("x-forwarded-for", c))),
            Err(e) => Err(e),
        };
    }
    Ok(None)
}

/// The client is the first hop from the proxy end that is not trusted.
pub proof fn law_client_is_first_untrusted_from_proxy_end(
    chain: Seq<IpAddr>,
    trusted: spec_fn(IpAddr) -> bool,
    i: int,
)
    requires
        0 <= i < chain.len(),
        !trusted(chain[i]),
        forall|j: int| i < j < chain.len() ==> trusted(#[trigger] chain[j]),
    ensures
        client_of(chain, trusted) == Some(chain[i]),
{
    lemma_last_untrusted(chain, trusted, i);
}

/// Where every hop is trusted, the leftmost is the client.
pub proof fn law_all_trusted_names_the_leftmost(chain: Seq<IpAddr>, trusted: spec_fn(IpAddr) -> bool)
    requires
        chain.len() > 0,
        forall|j: int| 0 <= j < chain.len() ==> trusted(#[trigger] chain[j]),
    ensures
        client_of(chain, trusted) == Some(chain[0]),
{
    lemma_last_untrusted(chain, trusted, 0);
    assert(chain.take(0) =~= Seq::<IpAddr>::empty());
}

/// Whatever the client wrote to the left of the hops our proxies vouch for is
/// ignored: where the chain has a hop that is not trusted, putting more hops
/// before it changes nothing.
pub proof fn law_hops_left_of_the_client_are_ignored(
    left: Seq<IpAddr>,
    chain: Seq<IpAddr>,
    trusted: spec_fn(IpAddr) -> bool,
)
    requires
        last_untrusted(chain, trusted) is Some,
    ensures
        client_of(left + chain, trusted) == client_of(chain, trusted),
    decreases chain.len(),
{
    assert((left + chain).last() == chain.last());
    if trusted(chain.last()) {
        assert((left + chain).drop_last() =~= left + chain.drop_last());
        law_hops_left_of_the_client_are_ignored(left, chain.drop_last(), trusted);
    }
}

/// The addresses as they are shown, with `sep` between each two: the value
/// a proxy writes into `X-Forwarded-For`.
pub open spec fn shown_list(addrs: Seq<IpAddr>, sep: Seq<char>) -> Seq<char>
    decreases addrs.len(),
{
    if addrs.len() == 0 {
        Seq::empty()
    } else if addrs.len() == 1 {
        ip_display(addrs[0])
    } else {
        shown_list(addrs.drop_last(), sep) + sep + ip_display(addrs.last())
    }
}

/// Whitespace holds no comma.
proof fn lemma_space_no_comma(s: Seq<char>)
    requires
        all_space(s),
    ensures
        forall|i: int| 0 <= i < s.len() ==> #[trigger] s[i] != ',',
{
    assert forall|i: int| 0 <= i < s.len() implies #[trigger] s[i] != ',' by {
        assert(is_space(s[i]));
    }
}

/// The comma-separated pieces of shown addresses are, once trimmed, the
/// addresses as shown.
proof fn lemma_shown_list_pieces(addrs: Seq<IpAddr>, before: Seq<char>, after: Seq<char>)
    requires
        addrs.len() >= 1,
        all_space(before),
        all_space(after),
    ensures
        split(shown_list(addrs, before + seq![','] + after), ',').len() == addrs.len(),
        forall|i: int|
            0 <= i < addrs.len() ==> trim(
                #[trigger] split(shown_list(addrs, before + seq![','] + after), ',')[i],
            ) == ip_display(addrs[i]),
    decreases addrs.len(),
{
    let sep = before + seq![','] + after;
    let d = ip_display(addrs.last());
    lemma_shown_address_text(addrs.last());
    assert forall|i: int| 0 <= i < d.len() implies #[trigger] d[i] != ',' by {
        assert(crate::readback::shown_char(d[i]));
    }
    let pieces = split(shown_list(addrs, sep), ',');
    if addrs.len() == 1 {
        assert(shown_list(addrs, sep) == d);
        lemma_split_append(Seq::empty(), d, ',');
        assert(Seq::<char>::empty() + d =~= d);
        assert(split(Seq::<char>::empty(), ',') == seq![Seq::<char>::empty()]);
        assert(pieces =~= seq![d]);
    } else {
        let prev = addrs.drop_last();
        lemma_shown_list_pieces(prev, before, after);
        let x = shown_list(prev, sep);
        let px = split(x, ',');
        lemma_space_no_comma(before);
        lemma_space_no_comma(after);
        lemma_split_append(x, before, ',');
        let x1 = x + before;
        lemma_split_separator(x1, ',');
        let x2 = x1.push(',');
        let y = after + d;
        assert forall|i: int| 0 <= i < y.len() implies #[trigger] y[i] != ',' by {
            if i < after.len() {
                assert(y[i] == after[i]);
            } else {
                assert(y[i] == d[i - after.len()]);
            }
        }
        lemma_split_append(x2, y, ',');
        assert(shown_list(addrs, sep) =~= x2 + y);
        let n = px.len() as int;
        assert(Seq::<char>::empty() + y =~= y);
        assert(pieces =~= px.update(n - 1, px.last() + before).push(y));
        lemma_trim_padding(Seq::empty(), px.last(), before);
        assert(Seq::<char>::empty() + px.last() + before =~= px.last() + before);
        lemma_trim_padding(after, d, Seq::empty());
        assert(after + d + Seq::<char>::empty() =~= y);
        assert forall|i: int| 0 <= i < addrs.len() implies trim(#[trigger] pieces[i])
            == ip_display(addrs[i]) by {
            if i < n - 1 {
                assert(pieces[i] == px[i]);
                assert(addrs[i] == prev[i]);
            } else if i == n - 1 {
                assert(pieces[i] == px.last() + before);
                assert(px.last() == px[n - 1]);
                assert(addrs[i] == prev[i]);
            } else {
                assert(pieces[i] == y);
            }
        }
    }
}

/// Hops that each read as an address read as the chain of them.
proof fn lemma_hop_addresses_all(hops: Seq<Seq<char>>, addrs: Seq<IpAddr>, header: Seq<char>)
    requires
        hops.len() == addrs.len(),
        forall|i: int|
            0 <= i < hops.len() ==> address_text(trim(#[trigger] hops[i])) == Some(addrs[i]),
    ensures
        hop_addresses(hops, header) == Ok::<Seq<IpAddr>, Seq<char>>(addrs),
    decreases hops.len(),
{
    if hops.len() > 0 {
        lemma_hop_addresses_all(hops.drop_last(), addrs.drop_last(), header);
        assert(hops.last() == hops[hops.len() - 1]);
        assert(addrs.drop_last().push(addrs.last()) =~= addrs);
    } else {
        assert(addrs =~= Seq::<IpAddr>::empty());
    }
}

/// Addresses as they are shown, joined by commas with any whitespace around
/// them, read back from `X-Forwarded-For` as the same chain, in order.
pub proof fn law_shown_chain_reads_back(addrs: Seq<IpAddr>, before: Seq<char>, after: Seq<char>)
    requires
        addrs.len() >= 1,
        all_space(before),
        all_space(after),
    ensures
        x_forwarded_chain(shown_list(addrs, before + seq![','] + after)) == Ok::<
            Seq<IpAddr>,
            Seq<char>,
        >(addrs),
{
    let value = shown_list(addrs, before + seq![','] + after);
    lemma_shown_list_pieces(addrs, before, after);
    let hops = x_forwarded_hops(value);
    assert forall|i: int| 0 <= i < hops.len() implies address_text(trim(#[trigger] hops[i]))
        == Some(addrs[i]) by {
        lemma_shown_address_text(addrs[i]);
        assert(hops[i] == trim(split(value, ',')[i]));
    }
    lemma_hop_addresses_all(hops, addrs, "X-Forwarded-For"@);
}

/// A pair that names no hop, put before the others, changes nothing.
proof fn lemma_first_hop_skip(p: Seq<char>, qs: Seq<Seq<char>>)
    requires
        pair_hop(p) is None,
    ensures
        first_hop(seq![p] + qs) == first_hop(qs),
    decreases qs.len(),
{
    if qs.len() == 0 {
        assert(seq![p] + qs =~= seq![p]);
        assert(seq![p].drop_last() =~= Seq::<Seq<char>>::empty());
        assert(seq![p].last() == p);
        assert(first_hop(Seq::<Seq<char>>::empty()) is None);
        assert(first_hop(seq![p]) == pair_hop(p));
    } else {
        assert((seq![p] + qs).drop_last() =~= seq![p] + qs.drop_last());
        assert((seq![p] + qs).last() == qs.last());
        lemma_first_hop_skip(p, qs.drop_last());
    }
}

/// Pairs none of which names a hop name none together.
proof fn lemma_first_hop_none(pairs: Seq<Seq<char>>)
    requires
        forall|j: int| 0 <= j < pairs.len() ==> pair_hop(#[trigger] pairs[j]) is None,
    ensures
        first_hop(pairs) is None,
    decreases pairs.len(),
{
    if pairs.len() > 0 {
        let d = pairs.drop_last();
        assert forall|j: int| 0 <= j < d.len() implies pair_hop(#[trigger] d[j]) is None by {
            assert(d[j] == pairs[j]);
        }
        lemma_first_hop_none(d);
    }
}

/// The hop an element names is that of its first pair whose name is `for`,
/// wherever in the element that pair stands: the pairs before it, naming no
/// hop, are passed over.
pub proof fn law_first_for_pair_names_the_hop(pairs: Seq<Seq<char>>, i: int)
    requires
        0 <= i < pairs.len(),
        pair_hop(pairs[i]) is Some,
        forall|j: int| 0 <= j < i ==> pair_hop(#[trigger] pairs[j]) is None,
    ensures
        first_hop(pairs) == pair_hop(pairs[i]),
    decreases pairs.len(),
{
    let d = pairs.drop_last();
    assert forall|j: int| 0 <= j < d.len() implies #[trigger] d[j] == pairs[j] by {}
    if i == pairs.len() - 1 {
        assert forall|j: int| 0 <= j < d.len() implies pair_hop(#[trigger] d[j]) is None by {
            assert(d[j] == pairs[j]);
        }
        lemma_first_hop_none(d);
    } else {
        assert(d[i] == pairs[i]);
        assert forall|j: int| 0 <= j < i implies pair_hop(#[trigger] d[j]) is None by {
            assert(d[j] == pairs[j]);
        }
        law_first_for_pair_names_the_hop(d, i);
    }
}

/// The hops of a `Forwarded` value of one element: the hop its first `for`
/// pair names, quotes stripped, or none.
proof fn lemma_one_element(v: Seq<char>)
    requires
        forall|j: int| 0 <= j < v.len() ==> #[trigger] v[j] != ',',
    ensures
        forwarded_hops(v) == match first_hop(split(v, ';')) {
            Some(h) => seq![strip_all(h, '"')],
            None => Seq::<Seq<char>>::empty(),
        },
{
    lemma_split_whole(v, ',');
    assert(seq![v].drop_last() =~= Seq::<Seq<char>>::empty());
    assert(seq![v].last() == v);
    assert(hops_in(Seq::<Seq<char>>::empty()) == Seq::<Seq<char>>::empty());
    match first_hop(split(v, ';')) {
        Some(h) => {
            assert(hops_in(seq![v]) == Seq::<Seq<char>>::empty().push(h));
            assert(Seq::<Seq<char>>::empty().push(h).map_values(|h: Seq<char>| strip_all(h, '"'))
                =~= seq![strip_all(h, '"')]);
        },
        None => {
            assert(hops_in(seq![v]) == Seq::<Seq<char>>::empty());
            assert(Seq::<Seq<char>>::empty().map_values(|h: Seq<char>| strip_all(h, '"'))
                =~= Seq::<Seq<char>>::empty());
        },
    }
}

/// A pair whose name is not `for`, put before the rest of a `Forwarded`
/// element, changes nothing of the hop the element names nor of the chain.
pub proof fn law_pairs_before_the_for_pair_are_passed_over(before: Seq<char>, rest: Seq<char>)
    requires
        forall|j: int| 0 <= j < before.len() ==> #[trigger] before[j] != ',' && before[j] != ';',
        forall|j: int| 0 <= j < rest.len() ==> #[trigger] rest[j] != ',',
        pair_hop(before) is None,
    ensures
        forwarded_hops(before.push(';') + rest) == forwarded_hops(rest),
        forwarded_chain(before.push(';') + rest) == forwarded_chain(rest),
{
    let v = before.push(';') + rest;
    assert forall|j: int| 0 <= j < v.len() implies #[trigger] v[j] != ',' by {
        if j < before.len() {
            assert(v[j] == before[j]);
        } else if j > before.len() {
            assert(v[j] == rest[j - before.len() - 1]);
        }
    }
    lemma_one_element(v);
    lemma_one_element(rest);
    lemma_split_concat(before, rest, ';');
    lemma_split_whole(before, ';');
    lemma_first_hop_skip(before, split(rest, ';'));
}

/// `for=` and an address as it is shown name that address, alone or after a
/// pair with another name: `for=192.0.2.60` and `proto=https;for=192.0.2.60`
/// both give the chain `[192.0.2.60]`.
pub proof fn law_for_pair_names_the_address(a: IpAddr)
    ensures
        forwarded_chain("for="@ + ip_display(a)) == Ok::<Seq<IpAddr>, Seq<char>>(seq![a]),
        forwarded_chain("proto=https;for="@ + ip_display(a)) == Ok::<Seq<IpAddr>, Seq<char>>(
            seq![a],
        ),
{
    let x = ip_display(a);
    lemma_shown_address_text(a);
    reveal_strlit("for=");
    reveal_strlit("for");
    reveal_strlit("proto=https;for=");
    reveal_strlit("proto=https");
    reveal_strlit("proto");
    let v = "for="@ + x;
    assert forall|j: int| 0 <= j < v.len() implies #[trigger] v[j] != ',' && v[j] != ';'
        && !is_space(v[j]) && (j != 3 ==> v[j] != '=') && (j == 3 ==> v[j] == '=') by {
        if j < 4 {
            assert(v[j] == "for="@[j]);
        } else {
            assert(v[j] == x[j - 4]);
            assert(crate::readback::shown_char(x[j - 4]));
        }
    }
    lemma_trim_no_space(v);
    lemma_first_index(v, '=');
    assert(v[3] == '=');
    assert(first_index(v, '=') == Some(3int)) by {
        assert(v[0] != '=' && v[1] != '=' && v[2] != '=');
    }
    assert(v.take(3) =~= "for"@);
    lemma_trim_no_space("for"@);
    assert(v.skip(4) =~= x);
    assert(pair_hop(v) == Some(x));
    lemma_split_whole(v, ';');
    assert(seq![v].drop_last() =~= Seq::<Seq<char>>::empty());
    assert(seq![v].last() == v);
    assert(first_hop(Seq::<Seq<char>>::empty()) is None);
    assert(first_hop(seq![v]) == Some(x));
    lemma_one_element(v);
    assert(x.len() > 0 ==> crate::readback::shown_char(x[0]) && crate::readback::shown_char(
        x[x.len() - 1],
    ));
    assert(strip_all(x, '"') == x);
    assert(forwarded_hops(v) == seq![x]);
    lemma_hop_addresses_all(seq![x], seq![a], "Forwarded"@);

    let b = "proto=https"@;
    assert forall|j: int| 0 <= j < b.len() implies #[trigger] b[j] != ',' && b[j] != ';'
        && !is_space(b[j]) && (j != 5 ==> b[j] != '=') && (j == 5 ==> b[j] == '=') by {}
    lemma_trim_no_space(b);
    lemma_first_index(b, '=');
    assert(b[5] == '=');
    assert(first_index(b, '=') == Some(5int)) by {
        assert(b[0] != '=' && b[1] != '=' && b[2] != '=' && b[3] != '=' && b[4] != '=');
    }
    assert(b.take(5) =~= "proto"@);
    lemma_trim_no_space("proto"@);
    assert(pair_hop(b) is None);
    law_pairs_before_the_for_pair_are_passed_over(b, v);
    assert("proto=https;for="@ + x =~= b.push(';') + v);
}

} // verus!
