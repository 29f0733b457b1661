//! An address or a prefix of them, as a trusted-proxy list is written.
//!
//! `10.0.0.5` is one address; `10.0.0.0/8` is every address whose first
//! eight bits match; `2001:db8::/32` the same for IPv6. A prefix never
//! contains an address of the other family.

use vstd::prelude::*;
use vstd::arithmetic::power2::{pow2, lemma2_to64, lemma_pow2_adds, lemma_pow2_pos};
use vstd::arithmetic::div_mod::{lemma_basic_div, lemma_div_denominator};
use vstd::bits::{lemma_u32_shr_is_div, lemma_u128_shr_is_div};
use crate::address::{
    IpAddr, ip_text, ip_display, dec_text, parse_ip, dec_run_at, dec_number, lemma_dec_run,
};
use crate::readback::{lemma_shown_address_text, lemma_dec_text, law_shown_address_reads_back, shown_char};
use crate::error::IdentifyError;
use crate::text::{
    all_dec_digits, all_space, dec_value, quote, first_index, trim, chars_of, find_first,
    quoted, slice, trimmed, lemma_first_index, lemma_trim_padding, lemma_trim_no_space, is_space,
    is_dec_digit,
};

verus! {

/// How many bits an address of this family has: 32 or 128.
pub open spec fn bits(a: IpAddr) -> nat {
    match a {
        IpAddr::V4(_) => 32,
        IpAddr::V6(_) => 128,
    }
}

/// The address as a number.
pub open spec fn number(a: IpAddr) -> nat {
    match a {
        IpAddr::V4(v) => v as nat,
        IpAddr::V6(v) => v as nat,
    }
}

/// Whether two addresses are of the same family.
pub open spec fn same_family(a: IpAddr, b: IpAddr) -> bool {
    (a is V4) == (b is V4)
}

/// The first `n` bits of the address, as a number.
pub open spec fn leading_bits(a: IpAddr, n: nat) -> nat {
    number(a) / pow2((bits(a) - n) as nat)
}

/// What a network is: an address and how many of its leading bits count.
pub struct NetworkView {
    pub address: IpAddr,
    pub prefix: nat,
}

/// Whether the network contains the candidate: same family, and the first
/// `prefix` bits agree.
pub open spec fn covers(n: NetworkView, candidate: IpAddr) -> bool {
    &&& same_family(n.address, candidate)
    &&& leading_bits(n.address, n.prefix) == leading_bits(candidate, n.prefix)
}

/// Whether a view is one a `Network` can have: the prefix is no longer than
/// the address.
pub open spec fn well_formed(n: NetworkView) -> bool {
    n.prefix <= bits(n.address)
}

/// The prefix length that the text after `/` writes, as `str::parse::<u8>`
/// reads it: an optional `+`, then decimal digits writing at most 255.
pub open spec fn u8_text(s: Seq<char>) -> Option<nat> {
    let d = if s.len() > 0 && s[0] == '+' {
        s.drop_first()
    } else {
        s
    };
    if d.len() > 0 && all_dec_digits(d) && dec_value(d) <= 255 {
        Some(dec_value(d))
    } else {
        None
    }
}

/// The message for text that is neither an address nor a prefix.
pub open spec fn not_a_network(t: Seq<char>) -> Seq<char> {
    quote(t) + " is not an address or a prefix"@
}

/// The message for a prefix that does not fit the address.
pub open spec fn prefix_too_long(t: Seq<char>, a: IpAddr) -> Seq<char> {
    quote(t) + " has a prefix longer than "@ + (if a is V4 {
        "32"@
    } else {
        "128"@
    }) + " bits"@
}

/// What `Network::parse` reads from the trimmed text `t`: `address` or
/// `address/prefix`, or the message saying why it cannot.
pub open spec fn network_text(t: Seq<char>) -> Result<NetworkView, Seq<char>> {
    let address = match first_index(t, '/') {
        Some(i) => t.take(i),
        None => t,
    };
    match ip_text(address) {
        None => Err(not_a_network(t)),
        Some(a) => match first_index(t, '/') {
            None => Ok(NetworkView { address: a, prefix: bits(a) }),
            Some(i) => match u8_text(t.skip(i + 1)) {
                Some(p) => if p <= bits(a) {
                    Ok(NetworkView { address: a, prefix: p })
                } else {
                    Err(prefix_too_long(t, a))
                },
                None => Err(prefix_too_long(t, a)),
            },
        },
    }
}

/// One address, or every address under a prefix.
#[derive(Clone, Copy, Debug, PartialEq, Eq)]
pub struct Network {
    address: IpAddr,
    prefix: u8,
}

impl View for Network {
    type V = NetworkView;

    closed spec fn view(&self) -> NetworkView {
        NetworkView { address: self.address, prefix: self.prefix as nat }
    }
}

/// The first `prefix` bits of a 32-bit address, as a number.
fn leading_v4(address: u32, prefix: u8) -> (m: u32)
    requires
        prefix <= 32,
    ensures
        m as nat == address as nat / pow2((32 - prefix) as nat),
{
    proof {
        lemma_pow2_128();
    }
    if prefix == 0 {
        proof {
            lemma_basic_div(address as int, pow2(32) as int);
        }
        0
    } else {
        let k = 32 - prefix as u32;
        proof {
            lemma_u32_shr_is_div(address, k);
        }
        address >> k
    }
}

/// The first `prefix` bits of a 128-bit address, as a number.
fn leading_v6(address: u128, prefix: u8) -> (m: u128)
    requires
        prefix <= 128,
    ensures
        m as nat == address as nat / pow2((128 - prefix) as nat),
{
    proof {
        lemma_pow2_128();
    }
    if prefix == 0 {
        proof {
            lemma_basic_div(address as int, pow2(128) as int);
        }
        0
    } else {
        let k = 128 - prefix as u32;
        proof {
            lemma_u128_shr_is_div(address, k as u128);
        }
        address >> k
    }
}

proof fn lemma_pow2_128()
    ensures
        pow2(32) == 0x1_0000_0000,
        pow2(128) == 0x1_0000_0000_0000_0000_0000_0000_0000_0000,
{
    lemma2_to64();
    lemma_pow2_adds(64, 64);
}

impl Network {
    #[verifier::type_invariant]
    spec fn prefix_fits(self) -> bool {
        self.prefix as nat <= bits(self.address)
    }

    /// The network's address.
    pub fn address(&self) -> (a: IpAddr)
        ensures
            a == self@.address,
    {
        self.address
    }

    /// How many leading bits of the address count.
    pub fn prefix(&self) -> (p: u8)
        ensures
            p as nat == self@.prefix,
            well_formed(self@),
    {
        proof {
            use_type_invariant(self);
        }
        self.prefix
    }

    /// Read `address` or `address/prefix`.
    ///
    /// # Errors
    ///
    /// Where the address does not parse or the prefix is longer than the
    /// address has bits.
    pub fn parse(text: &str) -> (r: Result<Network, IdentifyError>)
        ensures
            match r {
                Ok(n) => network_text(trim(text@)) == Ok::<NetworkView, Seq<char>>(n@),
                Err(e) => network_text(trim(text@)) == Err::<NetworkView, Seq<char>>(e@),
            },
            r matches Ok(n) ==> well_formed(n@),
    {
        let all = chars_of(text);
        let t = trimmed(&all);
        let slash = find_first(&t, '/');
        proof {
            lemma_first_index(t@, '/');
        }
        let address_text = match slash {
            Some(i) => slice(&t, 0, i),
            None => slice(&t, 0, t.len()),
        };
        assert(t@.subrange(0, t.len() as int) =~= t@);
        let address = match parse_ip(&address_text) {
            Some(a) => a,
            None => {
                let mut m = quoted(&t);
                m.append(" is not an address or a prefix");
                return Err(IdentifyError::new(m));
            },
        };
        let bits: u8 = match address {
            IpAddr::V4(_) => 32,
            IpAddr::V6(_) => 128,
        };
        let prefix = match slash {
            None => bits,
            Some(i) => {
                let p = slice(&t, i + 1, t.len());
                assert(p@ =~= t@.skip(i + 1));
                match read_prefix(&p) {
                    Some(n) if n <= bits => n,
                    _ => {
                        let mut m = quoted(&t);
                        m.append(" has a prefix longer than ");
                        if bits == 32 {
                            m.append("32");
                        } else {
                            m.append("128");
                        }
                        m.append(" bits");
                        return Err(IdentifyError::new(m));
                    },
                }
            },
        };
        Ok(Network { address, prefix })
    }

    /// Whether the address is this one, or under this prefix.
    pub fn contains(&self, candidate: IpAddr) -> (r: bool)
        ensures
            r == covers(self@, candidate),
    {
        proof {
            use_type_invariant(self);
        }
        let prefix = self.prefix;
        match (self.address, candidate) {
            (IpAddr::V4(network), IpAddr::V4(c)) => leading_v4(network, prefix) == leading_v4(
                c,
                prefix,
            ),
            (IpAddr::V6(network), IpAddr::V6(c)) => leading_v6(network, prefix) == leading_v6(
                c,
                prefix,
            ),
            _ => false,
        }
    }
}

/// The prefix length that `p` writes: an optional `+`, then digits writing at
/// most 255.
fn read_prefix(p: &Vec<char>) -> (r: Option<u8>)
    ensures
        match r {
            Some(n) => u8_text(p@) == Some(n as nat),
            None => u8_text(p@) is None,
        },
{
    let start: usize = if p.len() > 0 && p[0] == '+' {
        1
    } else {
        0
    };
    let ghost d = if p@.len() > 0 && p@[0] == '+' {
        p@.drop_first()
    } else {
        p@
    };
    assert(d =~= p@.subrange(start as int, p.len() as int));
    let n = p.len() - start;
    if n == 0 {
        return None;
    }
    let run = dec_run_at(p, start);
    proof {
        lemma_dec_run(p@, start as int);
    }
    if run != n {
        assert(!all_dec_digits(d)) by {
            assert(!crate::text::is_dec_digit(d[run as int]));
        }
        return None;
    }
    assert(all_dec_digits(d));
    match dec_number(p, start, n, 255) {
        Some(v) => Some(v as u8),
        None => None,
    }
}

impl core::str::FromStr for Network {
    type Err = IdentifyError;

    fn from_str(text: &str) -> (r: Result<Self, Self::Err>)
        ensures
            match r {
                Ok(n) => network_text(trim(text@)) == Ok::<NetworkView, Seq<char>>(n@),
                Err(e) => network_text(trim(text@)) == Err::<NetworkView, Seq<char>>(e@),
            },
            r matches Ok(n) ==> well_formed(n@),
    {
        Self::parse(text)
    }
}

/// A prefix never contains an address of the other family.
pub proof fn law_other_family_never_contained(n: NetworkView, candidate: IpAddr)
    requires
        !same_family(n.address, candidate),
    ensures
        !covers(n, candidate),
{
}

/// A bare address is a prefix of one: the network its full length of bits
/// makes contains that address and no other.
pub proof fn law_bare_address_is_one(a: IpAddr, candidate: IpAddr)
    ensures
        covers(NetworkView { address: a, prefix: bits(a) }, candidate) <==> candidate == a,
{
    lemma2_to64();
    assert(pow2(0) == 1);
    let n = NetworkView { address: a, prefix: bits(a) };
    assert((bits(a) - n.prefix) as nat == 0);
    assert(number(a) / 1 == number(a));
    assert(number(candidate) / 1 == number(candidate));
    match (a, candidate) {
        (IpAddr::V4(x), IpAddr::V4(y)) => {},
        (IpAddr::V6(x), IpAddr::V6(y)) => {},
        _ => {},
    }
}

/// Two networks are equal when their views are: a network is its address and
/// its prefix length, nothing more.
pub proof fn law_view_determines_network(n: Network, m: Network)
    requires
        n@ == m@,
    ensures
        n == m,
{
}

/// Whitespace around the text makes no difference to what `Network::parse`
/// reads, nor to the message where it reads nothing.
pub proof fn law_parse_ignores_surrounding_space(before: Seq<char>, text: Seq<char>, after: Seq<char>)
    requires
        all_space(before),
        all_space(after),
    ensures
        network_text(trim(before + text + after)) == network_text(trim(text)),
{
    lemma_trim_padding(before, text, after);
}

/// The leading bits of an address under a shorter prefix are those under the
/// longer one with the extra bits dropped.
proof fn lemma_leading_bits_shorter(a: IpAddr, q: nat, p: nat)
    requires
        q <= p <= bits(a),
    ensures
        leading_bits(a, q) == leading_bits(a, p) / pow2((p - q) as nat),
{
    let lo = (bits(a) - p) as nat;
    let hi = (p - q) as nat;
    lemma_pow2_adds(lo, hi);
    lemma_pow2_pos(lo);
    lemma_pow2_pos(hi);
    assert((bits(a) - q) as nat == lo + hi);
    lemma_div_denominator(number(a) as int, pow2(lo) as int, pow2(hi) as int);
}

/// A shorter prefix contains every address the longer one does: the network
/// `a/q` contains all of `a/p` where `q <= p`.
pub proof fn law_shorter_prefix_contains_more(a: IpAddr, q: nat, p: nat, candidate: IpAddr)
    requires
        q <= p <= bits(a),
        covers(NetworkView { address: a, prefix: p }, candidate),
    ensures
        covers(NetworkView { address: a, prefix: q }, candidate),
{
    lemma_leading_bits_shorter(a, q, p);
    lemma_leading_bits_shorter(candidate, q, p);
}

/// Only the prefix bits of a network's address count: two addresses of one
/// family that agree on their first `p` bits make networks containing the
/// same addresses (`10.1.2.3/8` and `10.0.0.0/8` alike).
pub proof fn law_host_bits_ignored(a: IpAddr, b: IpAddr, p: nat, candidate: IpAddr)
    requires
        same_family(a, b),
        p <= bits(a),
        leading_bits(a, p) == leading_bits(b, p),
    ensures
        covers(NetworkView { address: a, prefix: p }, candidate) == covers(
            NetworkView { address: b, prefix: p },
            candidate,
        ),
{
}

/// An address as it is shown reads as the network of that address alone.
proof fn lemma_bare_shown(a: IpAddr)
    ensures
        network_text(trim(ip_display(a))) == Ok::<NetworkView, Seq<char>>(
            NetworkView { address: a, prefix: bits(a) },
        ),
{
    let x = ip_display(a);
    lemma_shown_address_text(a);
    law_shown_address_reads_back(a);
    assert forall|j: int| 0 <= j < x.len() implies #[trigger] x[j] != '/' by {
        assert(shown_char(x[j]));
    }
    lemma_first_index(x, '/');
}

/// An address as it is shown, then `/` and a prefix length in decimal, reads
/// as the network of that address and length wherever the length is at most
/// the bits of the address — the full length too, which is the bare address
/// — and is refused only where the length is longer.
pub proof fn law_prefix_up_to_the_full_length_is_accepted(a: IpAddr, p: u8)
    ensures
        network_text(trim(ip_display(a) + seq!['/'] + dec_text(p as nat))) is Ok <==> p as nat
            <= bits(a),
        p as nat <= bits(a) ==> network_text(trim(ip_display(a) + seq!['/'] + dec_text(p as nat)))
            == Ok::<NetworkView, Seq<char>>(NetworkView { address: a, prefix: p as nat }),
        network_text(trim(ip_display(a))) == Ok::<NetworkView, Seq<char>>(
            NetworkView { address: a, prefix: bits(a) },
        ),
        p as nat == bits(a) ==> network_text(trim(ip_display(a) + seq!['/'] + dec_text(p as nat)))
            == network_text(trim(ip_display(a))),
{
    let x = ip_display(a);
    let d = dec_text(p as nat);
    let t = x + seq!['/'] + d;
    let n = x.len() as int;
    lemma_bare_shown(a);
    lemma_shown_address_text(a);
    law_shown_address_reads_back(a);
    lemma_dec_text(p as nat);
    assert forall|j: int| 0 <= j < t.len() implies !is_space(#[trigger] t[j]) && (j != n ==> t[j]
        != '/') by {
        if j < n {
            assert(t[j] == x[j]);
            assert(shown_char(x[j]));
        } else if j > n {
            assert(t[j] == d[j - n - 1]);
            assert(is_dec_digit(d[j - n - 1]));
        }
    }
    lemma_trim_no_space(t);
    assert(t[n] == '/');
    lemma_first_index(t, '/');
    assert(first_index(t, '/') == Some(n));
    assert(t.take(n) =~= x);
    assert(t.skip(n + 1) =~= d);
    assert(is_dec_digit(d[0]));
    assert(all_dec_digits(d));
    assert(u8_text(d) == Some(p as nat));
}

} // verus!
