//! IP addresses and the text they are written in.
//!
//! An IPv4 address is four decimal octets separated by `.`, none with a
//! leading zero. An IPv6 address is up to eight hexadecimal groups of one to
//! four digits separated by `:`, where one `::` stands for a run of zero
//! groups and the last two groups may be written as an IPv4 address. A socket
//! address adds a port: `192.0.2.10:4711`, `[2001:db8::1]:443`, the IPv6 form
//! optionally with a `%` scope between address and `]`.
//!
//! An address is shown as `std` shows one: IPv4 in dotted decimal; IPv6 in
//! small hexadecimal groups with the first longest run of two or more zero
//! groups written `::`, and an IPv4-mapped address as `::ffff:a.b.c.d`.

use vstd::prelude::*;
use crate::text::{
    dec_value, hex_digit_of, hex_value, is_dec_digit, is_dec_digit_char, is_hex_digit,
    is_hex_digit_char,
};

verus! {

/// An IPv4 or IPv6 address, held as the big-endian number of its bits.
#[derive(Clone, Copy, Debug, PartialEq, Eq, Structural)]
pub enum IpAddr {
    V4(u32),
    V6(u128),
}

// ---------------------------------------------------------------------------
// The numbers an address is made of

/// The IPv4 address with these four octets.
pub open spec fn v4_value(a: u8, b: u8, c: u8, d: u8) -> nat {
    a as nat * 0x100_0000 + b as nat * 0x1_0000 + c as nat * 0x100 + d as nat
}

/// The four octets of an IPv4 address, first to last.
pub open spec fn v4_octets(v: u32) -> Seq<u8> {
    seq![
        (v / 0x100_0000) as u8,
        ((v / 0x1_0000) % 0x100) as u8,
        ((v / 0x100) % 0x100) as u8,
        (v % 0x100) as u8,
    ]
}

/// The number whose base-65536 digits, most significant first, are `s`.
pub open spec fn v6_value(s: Seq<u16>) -> nat
    decreases s.len(),
{
    if s.len() == 0 {
        0
    } else {
        v6_value(s.drop_last()) * 0x1_0000 + s.last() as nat
    }
}

/// The last `n` base-65536 digits of `v`, most significant first.
pub open spec fn v6_segments(v: nat, n: nat) -> Seq<u16>
    decreases n,
{
    if n == 0 {
        Seq::<u16>::empty()
    } else {
        v6_segments(v / 0x1_0000, (n - 1) as nat).push((v % 0x1_0000) as u16)
    }
}

/// 65536 to the power `n`.
pub open spec fn v6_bound(n: nat) -> nat
    decreases n,
{
    if n == 0 {
        1
    } else {
        v6_bound((n - 1) as nat) * 0x1_0000
    }
}

/// 16 to the power `n`.
pub open spec fn hex_bound(n: nat) -> nat
    decreases n,
{
    if n == 0 {
        1
    } else {
        hex_bound((n - 1) as nat) * 16
    }
}

// ---------------------------------------------------------------------------
// Reading: each function reads at position `p` of the text `t` and gives what
// it read and the position after it.

/// How many decimal digits follow from `p` on.
pub open spec fn dec_run(t: Seq<char>, p: int) -> nat
    decreases t.len() - p,
{
    if 0 <= p < t.len() && is_dec_digit(t[p]) {
        1 + dec_run(t, p + 1)
    } else {
        0
    }
}

/// How many hexadecimal digits follow from `p` on.
pub open spec fn hex_run(t: Seq<char>, p: int) -> nat
    decreases t.len() - p,
{
    if 0 <= p < t.len() && is_hex_digit(t[p]) {
        1 + hex_run(t, p + 1)
    } else {
        0
    }
}

/// An IPv4 octet at `p`: all the decimal digits there, at least one, no
/// leading zero, at most 255.
pub open spec fn octet_at(t: Seq<char>, p: int) -> Option<(u8, int)> {
    let n = dec_run(t, p);
    let v = dec_value(t.subrange(p, p + n));
    if n >= 1 && (n == 1 || t[p] != '0') && v <= 255 {
        Some((v as u8, p + n))
    } else {
        None
    }
}

/// A `.` at `p` and an octet after it.
pub open spec fn dotted_octet_at(t: Seq<char>, p: int) -> Option<(u8, int)> {
    if 0 <= p < t.len() && t[p] == '.' {
        octet_at(t, p + 1)
    } else {
        None
    }
}

/// An IPv4 address at `p`: four octets separated by `.`.
pub open spec fn v4_at(t: Seq<char>, p: int) -> Option<(u32, int)> {
    match octet_at(t, p) {
        Some((a, p1)) => match dotted_octet_at(t, p1) {
            Some((b, p2)) => match dotted_octet_at(t, p2) {
                Some((c, p3)) => match dotted_octet_at(t, p3) {
                    Some((d, p4)) => Some((v4_value(a, b, c, d) as u32, p4)),
                    None => None,
                },
                None => None,
            },
            None => None,
        },
        None => None,
    }
}

/// An IPv6 group at `p`: all the hexadecimal digits there, one to four.
pub open spec fn group_at(t: Seq<char>, p: int) -> Option<(u16, int)> {
    let n = hex_run(t, p);
    if 1 <= n <= 4 {
        Some((hex_value(t.subrange(p, p + n)) as u16, p + n))
    } else {
        None
    }
}

/// Up to `limit - i` groups from `p` on, the `i`-th and later ones each after
/// a `:`; where at least two places are left an IPv4 address may stand for the
/// last two groups, and reading stops after it. Gives the groups read, the
/// position after them and whether an IPv4 address ended them.
pub open spec fn read_groups(t: Seq<char>, p: int, i: nat, limit: nat) -> (Seq<u16>, int, bool)
    decreases limit - i,
{
    if i >= limit {
        (Seq::<u16>::empty(), p, false)
    } else if i > 0 && !(0 <= p < t.len() && t[p] == ':') {
        (Seq::<u16>::empty(), p, false)
    } else {
        let st = if i > 0 {
            p + 1
        } else {
            p
        };
        if i + 1 < limit && v4_at(t, st) is Some {
            let v = v4_at(t, st).unwrap().0;
            (seq![(v / 0x1_0000) as u16, (v % 0x1_0000) as u16], v4_at(t, st).unwrap().1, true)
        } else {
            match group_at(t, st) {
                Some((g, e)) => {
                    let rest = read_groups(t, e, i + 1, limit);
                    (seq![g] + rest.0, rest.1, rest.2)
                },
                None => (Seq::<u16>::empty(), p, false),
            }
        }
    }
}

/// The eight groups of an IPv6 address whose written groups are `head`, a
/// run of zero groups, then `tail`.
pub open spec fn expand(head: Seq<u16>, tail: Seq<u16>) -> Seq<u16> {
    head + Seq::new((8 - head.len() - tail.len()) as nat, |k: int| 0u16) + tail
}

/// An IPv6 address at `p`: eight groups, or fewer with one `::` among them;
/// an IPv4 address may stand for the last two groups, but not before `::`.
pub open spec fn v6_at(t: Seq<char>, p: int) -> Option<(u128, int)> {
    let head = read_groups(t, p, 0, 8);
    if head.0.len() == 8 {
        Some((v6_value(head.0) as u128, head.1))
    } else if head.2 {
        None
    } else if 0 <= head.1 && head.1 + 1 < t.len() && t[head.1] == ':' && t[head.1 + 1] == ':' {
        let tail = read_groups(t, head.1 + 2, 0, (7 - head.0.len()) as nat);
        Some((v6_value(expand(head.0, tail.0)) as u128, tail.1))
    } else {
        None
    }
}

/// A decimal number at `p`, leading zeros allowed, at most `max`; gives the
/// position after it.
pub open spec fn number_at(t: Seq<char>, p: int, max: nat) -> Option<int> {
    let n = dec_run(t, p);
    if n >= 1 && dec_value(t.subrange(p, p + n)) <= max {
        Some(p + n)
    } else {
        None
    }
}

/// A `:` and a port number (at most 65535) at `p`.
pub open spec fn port_at(t: Seq<char>, p: int) -> Option<int> {
    if 0 <= p < t.len() && t[p] == ':' {
        number_at(t, p + 1, 0xffff)
    } else {
        None
    }
}

/// The position after an optional `%` and scope number (at most `u32::MAX`)
/// at `p`; `p` itself where there is none.
pub open spec fn after_scope(t: Seq<char>, p: int) -> int {
    if 0 <= p < t.len() && t[p] == '%' {
        match number_at(t, p + 1, 0xffff_ffff) {
            Some(e) => e,
            None => p,
        }
    } else {
        p
    }
}

/// The address that the whole of `t` writes, as `str::parse::<IpAddr>` reads it.
#[verifier::opaque]
pub open spec fn ip_text(t: Seq<char>) -> Option<IpAddr> {
    match v4_at(t, 0) {
        Some((v, e)) => if e == t.len() {
            Some(IpAddr::V4(v))
        } else {
            None
        },
        None => match v6_at(t, 0) {
            Some((v, e)) => if e == t.len() {
                Some(IpAddr::V6(v))
            } else {
                None
            },
            None => None,
        },
    }
}

/// The address of the socket address that the whole of `t` writes, as
/// `str::parse::<SocketAddr>` reads it: `a.b.c.d:port` or
/// `[ipv6]:port`, `[ipv6%scope]:port`.
#[verifier::opaque]
pub open spec fn socket_text(t: Seq<char>) -> Option<IpAddr> {
    match v4_at(t, 0) {
        Some((v, e)) => if port_at(t, e) == Some(t.len() as int) {
            Some(IpAddr::V4(v))
        } else {
            None
        },
        None => if t.len() > 0 && t[0] == '[' {
            match v6_at(t, 1) {
                Some((v, e)) => {
                    let e1 = after_scope(t, e);
                    if 0 <= e1 < t.len() && t[e1] == ']' && port_at(t, e1 + 1) == Some(
                        t.len() as int,
                    ) {
                        Some(IpAddr::V6(v))
                    } else {
                        None
                    }
                },
                None => None,
            }
        } else {
            None
        },
    }
}

/// The address that an already trimmed `t` writes, as a transport writes a
/// peer: bare, with a port, or an IPv6 address in brackets.
#[verifier::opaque]
pub open spec fn address_text(t: Seq<char>) -> Option<IpAddr> {
    match ip_text(t) {
        Some(a) => Some(a),
        None => match socket_text(t) {
            Some(a) => Some(a),
            None => if t.len() >= 2 && t[0] == '[' && t.last() == ']' {
                ip_text(t.subrange(1, t.len() - 1))
            } else {
                None
            },
        },
    }
}

/// An optional `Some((value, position))` with the position as an integer.
pub open spec fn at<T>(r: Option<(T, usize)>) -> Option<(T, int)> {
    match r {
        Some((v, e)) => Some((v, e as int)),
        None => None,
    }
}

// ---------------------------------------------------------------------------
// Facts about the reading functions

pub(crate) proof fn lemma_dec_run(t: Seq<char>, p: int)
    requires
        0 <= p <= t.len(),
    ensures
        p + dec_run(t, p) <= t.len(),
        forall|j: int| p <= j < p + dec_run(t, p) ==> is_dec_digit(#[trigger] t[j]),
        p + dec_run(t, p) < t.len() ==> !is_dec_digit(t[p + dec_run(t, p)]),
    decreases t.len() - p,
{
    if p < t.len() && is_dec_digit(t[p]) {
        lemma_dec_run(t, p + 1);
    }
}

pub(crate) proof fn lemma_hex_run(t: Seq<char>, p: int)
    requires
        0 <= p <= t.len(),
    ensures
        p + hex_run(t, p) <= t.len(),
        forall|j: int| p <= j < p + hex_run(t, p) ==> is_hex_digit(#[trigger] t[j]),
    decreases t.len() - p,
{
    if p < t.len() && is_hex_digit(t[p]) {
        lemma_hex_run(t, p + 1);
    }
}

/// A longer run of digits never writes a smaller number.
proof fn lemma_dec_value_prefix(s: Seq<char>, k: int)
    requires
        0 <= k <= s.len(),
    ensures
        dec_value(s.take(k)) <= dec_value(s),
    decreases s.len() - k,
{
    if k < s.len() {
        assert(s.take(k + 1).drop_last() =~= s.take(k));
        lemma_dec_value_prefix(s, k + 1);
    } else {
        assert(s.take(k) =~= s);
    }
}

proof fn lemma_octet_end(t: Seq<char>, p: int)
    requires
        0 <= p <= t.len(),
    ensures
        octet_at(t, p) matches Some((_, e)) ==> p < e <= t.len(),
{
    lemma_dec_run(t, p);
}

proof fn lemma_v4_end(t: Seq<char>, p: int)
    requires
        0 <= p <= t.len(),
    ensures
        v4_at(t, p) matches Some((_, e)) ==> p < e <= t.len(),
{
    lemma_octet_end(t, p);
    if let Some((_, p1)) = octet_at(t, p) {
        if p1 < t.len() {
            lemma_octet_end(t, p1 + 1);
            if let Some((_, p2)) = dotted_octet_at(t, p1) {
                if p2 < t.len() {
                    lemma_octet_end(t, p2 + 1);
                    if let Some((_, p3)) = dotted_octet_at(t, p2) {
                        if p3 < t.len() {
                            lemma_octet_end(t, p3 + 1);
                        }
                    }
                }
            }
        }
    }
}

proof fn lemma_group_end(t: Seq<char>, p: int)
    requires
        0 <= p <= t.len(),
    ensures
        group_at(t, p) matches Some((_, e)) ==> p < e <= t.len(),
{
    lemma_hex_run(t, p);
}

proof fn lemma_read_groups(t: Seq<char>, p: int, i: nat, limit: nat)
    requires
        0 <= p <= t.len(),
        i <= limit,
    ensures
        read_groups(t, p, i, limit).0.len() <= limit - i,
        p <= read_groups(t, p, i, limit).1 <= t.len(),
        read_groups(t, p, i, limit).2 ==> read_groups(t, p, i, limit).0.len() >= 2,
    decreases limit - i,
{
    if i < limit && !(i > 0 && !(0 <= p < t.len() && t[p] == ':')) {
        let st = if i > 0 {
            p + 1
        } else {
            p
        };
        lemma_v4_end(t, st);
        lemma_group_end(t, st);
        if i + 1 < limit && v4_at(t, st) is Some {
        } else if let Some((g, e)) = group_at(t, st) {
            lemma_read_groups(t, e, i + 1, limit);
        }
    }
}

pub(crate) proof fn lemma_v6_bound_grows(m: nat, n: nat)
    requires
        m <= n,
    ensures
        1 <= v6_bound(m) <= v6_bound(n),
    decreases n,
{
    if m < n {
        lemma_v6_bound_grows(m, (n - 1) as nat);
    } else if n > 0 {
        lemma_v6_bound_grows((n - 1) as nat, (n - 1) as nat);
    }
}

proof fn lemma_v6_value_bound(s: Seq<u16>)
    ensures
        v6_value(s) < v6_bound(s.len()),
    decreases s.len(),
{
    if s.len() > 0 {
        lemma_v6_value_bound(s.drop_last());
    }
}

// ---------------------------------------------------------------------------
// The readers, executable

pub(crate) fn dec_run_at(t: &Vec<char>, p: usize) -> (n: usize)
    requires
        p <= t.len(),
    ensures
        n == dec_run(t@, p as int),
        p + n <= t.len(),
{
    let mut q = p;
    while q < t.len() && is_dec_digit_char(t[q])
        invariant
            p <= q <= t.len(),
            dec_run(t@, p as int) == (q - p) + dec_run(t@, q as int),
        decreases t.len() - q,
    {
        q = q + 1;
    }
    q - p
}

fn hex_run_at(t: &Vec<char>, p: usize) -> (n: usize)
    requires
        p <= t.len(),
    ensures
        n == hex_run(t@, p as int),
        p + n <= t.len(),
{
    let mut q = p;
    while q < t.len() && is_hex_digit_char(t[q])
        invariant
            p <= q <= t.len(),
            hex_run(t@, p as int) == (q - p) + hex_run(t@, q as int),
        decreases t.len() - q,
    {
        q = q + 1;
    }
    q - p
}

/// The number that the digits `t[p..p + n]` write, where it is at most `max`.
pub(crate) fn dec_number(t: &Vec<char>, p: usize, n: usize, max: u64) -> (r: Option<u64>)
    requires
        p + n <= t.len(),
        max <= 0xffff_ffff,
        forall|j: int| p <= j < p + n ==> is_dec_digit(#[trigger] t@[j]),
    ensures
        match r {
            Some(v) => v == dec_value(t@.subrange(p as int, p + n)) && v <= max,
            None => dec_value(t@.subrange(p as int, p + n)) > max,
        },
{
    let ghost s = t@.subrange(p as int, p + n);
    let mut v: u64 = 0;
    let mut k: usize = 0;
    assert(s.take(0) =~= Seq::<char>::empty());
    while k < n
        invariant
            k <= n,
            p + n <= t.len(),
            s == t@.subrange(p as int, p + n),
            max <= 0xffff_ffff,
            forall|j: int| p <= j < p + n ==> is_dec_digit(#[trigger] t@[j]),
            v == dec_value(s.take(k as int)),
            v <= max,
        decreases n - k,
    {
        assert(s.take(k + 1).drop_last() =~= s.take(k as int));
        assert(s.take(k + 1).last() == t@[p + k]);
        assert(is_dec_digit(t@[p + k]));
        let d = (t[p + k] as u32 - 0x30) as u64;
        v = v * 10 + d;
        k = k + 1;
        if v > max {
            proof {
                lemma_dec_value_prefix(s, k as int);
            }
            return None;
        }
    }
    assert(s.take(n as int) =~= s);
    Some(v)
}

fn read_octet(t: &Vec<char>, p: usize) -> (r: Option<(u8, usize)>)
    requires
        p <= t.len(),
    ensures
        at(r) == octet_at(t@, p as int),
        r matches Some((_, e)) ==> p < e <= t.len(),
{
    let n = dec_run_at(t, p);
    proof {
        lemma_dec_run(t@, p as int);
    }
    if n == 0 {
        return None;
    }
    if n > 1 && t[p] == '0' {
        return None;
    }
    match dec_number(t, p, n, 255) {
        Some(v) => Some((v as u8, p + n)),
        None => None,
    }
}

fn read_dotted_octet(t: &Vec<char>, p: usize) -> (r: Option<(u8, usize)>)
    requires
        p <= t.len(),
    ensures
        at(r) == dotted_octet_at(t@, p as int),
        r matches Some((_, e)) ==> p < e <= t.len(),
{
    if p < t.len() && t[p] == '.' {
        read_octet(t, p + 1)
    } else {
        None
    }
}

fn read_v4(t: &Vec<char>, p: usize) -> (r: Option<(u32, usize)>)
    requires
        p <= t.len(),
    ensures
        at(r) == v4_at(t@, p as int),
        r matches Some((_, e)) ==> p < e <= t.len(),
{
    let (a, p1) = match read_octet(t, p) {
        Some(x) => x,
        None => return None,
    };
    let (b, p2) = match read_dotted_octet(t, p1) {
        Some(x) => x,
        None => return None,
    };
    let (c, p3) = match read_dotted_octet(t, p2) {
        Some(x) => x,
        None => return None,
    };
    let (d, p4) = match read_dotted_octet(t, p3) {
        Some(x) => x,
        None => return None,
    };
    let v = (a as u32) * 0x100_0000 + (b as u32) * 0x1_0000 + (c as u32) * 0x100 + (d as u32);
    Some((v, p4))
}

fn read_group(t: &Vec<char>, p: usize) -> (r: Option<(u16, usize)>)
    requires
        p <= t.len(),
    ensures
        at(r) == group_at(t@, p as int),
        r matches Some((_, e)) ==> p < e <= t.len(),
{
    let n = hex_run_at(t, p);
    proof {
        lemma_hex_run(t@, p as int);
    }
    if n < 1 || n > 4 {
        return None;
    }
    let ghost s = t@.subrange(p as int, p + n);
    proof {
        reveal_with_fuel(hex_bound, 5);
        assert(hex_bound(n as nat) <= 0x1_0000);
    }
    let mut v: u32 = 0;
    let mut k: usize = 0;
    assert(s.take(0) =~= Seq::<char>::empty());
    while k < n
        invariant
            k <= n <= 4,
            p + n <= t.len(),
            s == t@.subrange(p as int, p + n),
            forall|j: int| p <= j < p + n ==> is_hex_digit(#[trigger] t@[j]),
            v == hex_value(s.take(k as int)),
            v < hex_bound(k as nat),
            hex_bound(n as nat) <= 0x1_0000,
        decreases n - k,
    {
        assert(s.take(k + 1).drop_last() =~= s.take(k as int));
        assert(s.take(k + 1).last() == t@[p + k]);
        assert(is_hex_digit(t@[p + k]));
        proof {
            lemma_hex_bound_grows((k + 1) as nat, n as nat);
        }
        let d = hex_digit_of(t[p + k]);
        v = v * 16 + d;
        k = k + 1;
    }
    assert(s.take(n as int) =~= s);
    Some((v as u16, p + n))
}

proof fn lemma_hex_bound_grows(m: nat, n: nat)
    requires
        m <= n,
    ensures
        1 <= hex_bound(m) <= hex_bound(n),
    decreases n,
{
    if n > 0 {
        if m < n {
            lemma_hex_bound_grows(m, (n - 1) as nat);
        } else {
            lemma_hex_bound_grows((n - 1) as nat, (n - 1) as nat);
        }
    }
}

fn read_groups_from(t: &Vec<char>, p: usize, i: usize, limit: usize) -> (r: (Vec<u16>, usize, bool))
    requires
        p <= t.len(),
        i <= limit <= 8,
    ensures
        r.0@ == read_groups(t@, p as int, i as nat, limit as nat).0,
        r.1 as int == read_groups(t@, p as int, i as nat, limit as nat).1,
        r.2 == read_groups(t@, p as int, i as nat, limit as nat).2,
    decreases limit - i,
{
    if i >= limit {
        return (Vec::new(), p, false);
    }
    if i > 0 && !(p < t.len() && t[p] == ':') {
        return (Vec::new(), p, false);
    }
    let st = if i > 0 {
        p + 1
    } else {
        p
    };
    if i + 1 < limit {
        if let Some((v, e)) = read_v4(t, st) {
            let mut g: Vec<u16> = Vec::new();
            g.push((v / 0x1_0000) as u16);
            g.push((v % 0x1_0000) as u16);
            return (g, e, true);
        }
    }
    match read_group(t, st) {
        Some((g, e)) => {
            let (mut rest, e2, b) = read_groups_from(t, e, i + 1, limit);
            rest.insert(0, g);
            proof {
                let sp = read_groups(t@, e as int, (i + 1) as nat, limit as nat);
                assert(rest@ =~= seq![g] + sp.0);
            }
            (rest, e2, b)
        },
        None => (Vec::new(), p, false),
    }
}

/// The number of the eight groups `s`, big-endian.
fn segments_value(s: &Vec<u16>) -> (v: u128)
    requires
        s.len() == 8,
    ensures
        v == v6_value(s@),
{
    proof {
        reveal_with_fuel(v6_bound, 9);
        assert(v6_bound(8) == 0x1_0000_0000_0000_0000_0000_0000_0000_0000);
    }
    let mut v: u128 = 0;
    let mut k: usize = 0;
    assert(s@.take(0) =~= Seq::<u16>::empty());
    while k < 8
        invariant
            k <= 8,
            s.len() == 8,
            v == v6_value(s@.take(k as int)),
            v6_bound(8) == 0x1_0000_0000_0000_0000_0000_0000_0000_0000,
        decreases 8 - k,
    {
        assert(s@.take(k + 1).drop_last() =~= s@.take(k as int));
        proof {
            lemma_v6_value_bound(s@.take(k as int));
            lemma_v6_bound_grows((k + 1) as nat, 8);
            assert(v6_bound((k + 1) as nat) == v6_bound(k as nat) * 0x1_0000);
        }
        v = v * 0x1_0000 + s[k] as u128;
        k = k + 1;
    }
    assert(s@.take(8) =~= s@);
    v
}

fn read_v6(t: &Vec<char>, p: usize) -> (r: Option<(u128, usize)>)
    requires
        p <= t.len(),
    ensures
        at(r) == v6_at(t@, p as int),
        r matches Some((_, e)) ==> p <= e <= t.len(),
{
    let (head, e, ipv4) = read_groups_from(t, p, 0, 8);
    proof {
        lemma_read_groups(t@, p as int, 0, 8);
    }
    if head.len() == 8 {
        let v = segments_value(&head);
        return Some((v, e));
    }
    if ipv4 {
        return None;
    }
    if e < t.len() && e + 1 < t.len() && t[e] == ':' && t[e + 1] == ':' {
        let limit = 7 - head.len();
        let (tail, e2, _) = read_groups_from(t, e + 2, 0, limit);
        proof {
            lemma_read_groups(t@, e + 2, 0, limit as nat);
        }
        let mut all: Vec<u16> = Vec::new();
        let mut k: usize = 0;
        while k < head.len()
            invariant
                k <= head.len(),
                all@ == head@.take(k as int),
            decreases head.len() - k,
        {
            all.push(head[k]);
            k = k + 1;
            assert(all@ =~= head@.take(k as int));
        }
        let zeros = 8 - head.len() - tail.len();
        let mut z: usize = 0;
        while z < zeros
            invariant
                z <= zeros,
                all@ == head@ + Seq::new(z as nat, |j: int| 0u16),
            decreases zeros - z,
        {
            all.push(0);
            z = z + 1;
            assert(all@ =~= head@ + Seq::new(z as nat, |j: int| 0u16));
        }
        let ghost mid = all@;
        let mut k: usize = 0;
        while k < tail.len()
            invariant
                k <= tail.len(),
                all@ == mid + tail@.take(k as int),
            decreases tail.len() - k,
        {
            all.push(tail[k]);
            k = k + 1;
            assert(all@ =~= mid + tail@.take(k as int));
        }
        assert(tail@.take(tail.len() as int) =~= tail@);
        assert(all@ =~= expand(head@, tail@));
        let v = segments_value(&all);
        return Some((v, e2));
    }
    None
}

/// Whether a decimal number of at most `max` starts at `p`; the position after it.
fn read_number(t: &Vec<char>, p: usize, max: u64) -> (r: Option<usize>)
    requires
        p <= t.len(),
        max <= 0xffff_ffff,
    ensures
        match r {
            Some(e) => number_at(t@, p as int, max as nat) == Some(e as int) && e <= t.len(),
            None => number_at(t@, p as int, max as nat) is None,
        },
{
    let n = dec_run_at(t, p);
    proof {
        lemma_dec_run(t@, p as int);
    }
    if n == 0 {
        return None;
    }
    match dec_number(t, p, n, max) {
        Some(_) => Some(p + n),
        None => None,
    }
}

fn read_port(t: &Vec<char>, p: usize) -> (r: Option<usize>)
    requires
        p <= t.len(),
    ensures
        match r {
            Some(e) => port_at(t@, p as int) == Some(e as int) && e <= t.len(),
            None => port_at(t@, p as int) is None,
        },
{
    if p < t.len() && t[p] == ':' {
        read_number(t, p + 1, 0xffff)
    } else {
        None
    }
}

fn skip_scope(t: &Vec<char>, p: usize) -> (e: usize)
    requires
        p <= t.len(),
    ensures
        e as int == after_scope(t@, p as int),
        p <= e <= t.len(),
{
    if p < t.len() && t[p] == '%' {
        match read_number(t, p + 1, 0xffff_ffff) {
            Some(e) => e,
            None => p,
        }
    } else {
        p
    }
}

/// The address that the whole of `t` writes.
pub(crate) fn parse_ip(t: &Vec<char>) -> (r: Option<IpAddr>)
    ensures
        r == ip_text(t@),
{
    reveal(ip_text);
    match read_v4(t, 0) {
        Some((v, e)) => if e == t.len() {
            Some(IpAddr::V4(v))
        } else {
            None
        },
        None => match read_v6(t, 0) {
            Some((v, e)) => if e == t.len() {
                Some(IpAddr::V6(v))
            } else {
                None
            },
            None => None,
        },
    }
}

/// The address of the socket address that the whole of `t` writes.
pub(crate) fn parse_socket(t: &Vec<char>) -> (r: Option<IpAddr>)
    ensures
        r == socket_text(t@),
{
    reveal(socket_text);
    match read_v4(t, 0) {
        Some((v, e)) => match read_port(t, e) {
            Some(e2) => if e2 == t.len() {
                Some(IpAddr::V4(v))
            } else {
                None
            },
            None => None,
        },
        None => {
            if t.len() > 0 && t[0] == '[' {
                match read_v6(t, 1) {
                    Some((v, e)) => {
                        let e1 = skip_scope(t, e);
                        if e1 < t.len() && t[e1] == ']' {
                            match read_port(t, e1 + 1) {
                                Some(e2) => if e2 == t.len() {
                                    Some(IpAddr::V6(v))
                                } else {
                                    None
                                },
                                None => None,
                            }
                        } else {
                            None
                        }
                    },
                    None => None,
                }
            } else {
                None
            }
        },
    }
}

/// The address that the trimmed text `t` writes: bare, with a port, or an
/// IPv6 address in brackets.
pub(crate) fn parse_peer(t: &Vec<char>) -> (r: Option<IpAddr>)
    ensures
        r == address_text(t@),
{
    reveal(address_text);
    if let Some(a) = parse_ip(t) {
        return Some(a);
    }
    if let Some(a) = parse_socket(t) {
        return Some(a);
    }
    let n = t.len();
    if n >= 2 && t[0] == '[' && t[n - 1] == ']' {
        let inner = crate::text::slice(t, 1, n - 1);
        return parse_ip(&inner);
    }
    None
}

// ---------------------------------------------------------------------------
// Writing an address

/// The digit that writes `d` (below 16), in small letters past 9.
pub open spec fn digit_char(d: nat) -> char {
    if d < 10 {
        (0x30 + d) as char
    } else {
        (0x57 + d) as char
    }
}

/// `n` in decimal, without leading zeros.
pub open spec fn dec_text(n: nat) -> Seq<char>
    decreases n,
{
    if n < 10 {
        seq![digit_char(n)]
    } else {
        dec_text(n / 10).push(digit_char(n % 10))
    }
}

/// `n` in small hexadecimal, without leading zeros.
pub open spec fn hex_text(n: nat) -> Seq<char>
    decreases n,
{
    if n < 16 {
        seq![digit_char(n)]
    } else {
        hex_text(n / 16).push(digit_char(n % 16))
    }
}

/// An IPv4 address in dotted decimal.
#[verifier::opaque]
pub open spec fn v4_text(v: u32) -> Seq<char> {
    let o = v4_octets(v);
    dec_text(o[0] as nat) + seq!['.'] + dec_text(o[1] as nat) + seq!['.'] + dec_text(o[2] as nat)
        + seq!['.'] + dec_text(o[3] as nat)
}

/// Groups in hexadecimal, separated by `:`.
pub open spec fn join_hex(s: Seq<u16>) -> Seq<char>
    decreases s.len(),
{
    if s.len() == 0 {
        Seq::<char>::empty()
    } else if s.len() == 1 {
        hex_text(s[0] as nat)
    } else {
        join_hex(s.drop_last()) + seq![':'] + hex_text(s.last() as nat)
    }
}

/// How many zero groups follow from `i` on.
pub open spec fn zero_run(s: Seq<u16>, i: int) -> nat
    decreases s.len() - i,
{
    if 0 <= i < s.len() && s[i] == 0 {
        1 + zero_run(s, i + 1)
    } else {
        0
    }
}

/// The start and length of the first of the longest runs of zero groups from
/// `i` on; length 0 where there is none.
pub open spec fn longest_zero_run(s: Seq<u16>, i: int) -> (int, nat)
    decreases s.len() - i,
{
    if 0 <= i < s.len() {
        let later = longest_zero_run(s, i + 1);
        let here = zero_run(s, i);
        if here > 0 && here >= later.1 {
            (i, here)
        } else {
            later
        }
    } else {
        (s.len() as int, 0)
    }
}

/// Whether the groups are those of an IPv4-mapped address, `::ffff:a.b.c.d`.
pub open spec fn is_v4_mapped(s: Seq<u16>) -> bool {
    &&& s.len() == 8
    &&& forall|k: int| 0 <= k < 5 ==> s[k] == 0
    &&& s[5] == 0xffff
}

/// An IPv6 address as `std` writes it.
#[verifier::opaque]
pub open spec fn v6_text(v: u128) -> Seq<char> {
    let s = v6_segments(v as nat, 8);
    if is_v4_mapped(s) {
        seq![':', ':', 'f', 'f', 'f', 'f', ':'] + v4_text(
            (s[6] as nat * 0x1_0000 + s[7] as nat) as u32,
        )
    } else {
        let run = longest_zero_run(s, 0);
        if run.1 > 1 {
            join_hex(s.take(run.0)) + seq![':', ':'] + join_hex(s.skip(run.0 + run.1))
        } else {
            join_hex(s)
        }
    }
}

/// An address as `std` writes it (its `Display`).
#[verifier::opaque]
pub open spec fn ip_display(a: IpAddr) -> Seq<char> {
    match a {
        IpAddr::V4(v) => v4_text(v),
        IpAddr::V6(v) => v6_text(v),
    }
}

/// A socket address as `std` writes one with no IPv6 scope: `a.b.c.d:port`,
/// `[ipv6]:port`.
pub open spec fn socket_display(a: IpAddr, port: u16) -> Seq<char> {
    match a {
        IpAddr::V4(_) => ip_display(a) + seq![':'] + dec_text(port as nat),
        IpAddr::V6(_) => seq!['['] + ip_display(a) + seq![']', ':'] + dec_text(port as nat),
    }
}

fn digit_of(d: u32) -> (c: char)
    requires
        d < 16,
    ensures
        c == digit_char(d as nat),
{
    if d < 10 {
        ((0x30 + d) as u8) as char
    } else {
        ((0x57 + d) as u8) as char
    }
}

fn push_dec(out: &mut Vec<char>, n: u32)
    ensures
        final(out)@ == old(out)@ + dec_text(n as nat),
    decreases n,
{
    if n >= 10 {
        push_dec(out, n / 10);
    }
    out.push(digit_of(n % 10));
}

fn push_hex(out: &mut Vec<char>, n: u32)
    ensures
        final(out)@ == old(out)@ + hex_text(n as nat),
    decreases n,
{
    if n >= 16 {
        push_hex(out, n / 16);
    }
    out.push(digit_of(n % 16));
}

fn push_v4(out: &mut Vec<char>, v: u32)
    ensures
        final(out)@ == old(out)@ + v4_text(v),
{
    reveal(v4_text);
    let ghost start = out@;
    push_dec(out, v / 0x100_0000);
    out.push('.');
    push_dec(out, (v / 0x1_0000) % 0x100);
    out.push('.');
    push_dec(out, (v / 0x100) % 0x100);
    out.push('.');
    push_dec(out, v % 0x100);
    assert(out@ =~= start + v4_text(v));
}

proof fn lemma_v6_segments_len(v: nat, n: nat)
    ensures
        v6_segments(v, n).len() == n,
    decreases n,
{
    if n > 0 {
        lemma_v6_segments_len(v / 0x1_0000, (n - 1) as nat);
    }
}

/// The last `n` base-65536 digits of `v`.
fn segments_of(v: u128, n: usize) -> (s: Vec<u16>)
    ensures
        s@ == v6_segments(v as nat, n as nat),
        s.len() == n,
    decreases n,
{
    if n == 0 {
        Vec::new()
    } else {
        let mut s = segments_of(v / 0x1_0000, n - 1);
        proof {
            lemma_v6_segments_len(v as nat, n as nat);
        }
        s.push((v % 0x1_0000) as u16);
        s
    }
}

/// Writes the groups `s[lo..hi]` in hexadecimal, separated by `:`.
fn push_joined(out: &mut Vec<char>, s: &Vec<u16>, lo: usize, hi: usize)
    requires
        lo <= hi <= s.len(),
    ensures
        final(out)@ == old(out)@ + join_hex(s@.subrange(lo as int, hi as int)),
{
    let ghost start = out@;
    let mut k = lo;
    assert(s@.subrange(lo as int, lo as int) =~= Seq::<u16>::empty());
    while k < hi
        invariant
            lo <= k <= hi <= s.len(),
            out@ == start + join_hex(s@.subrange(lo as int, k as int)),
        decreases hi - k,
    {
        assert(s@.subrange(lo as int, k + 1).drop_last() =~= s@.subrange(lo as int, k as int));
        if k > lo {
            out.push(':');
        }
        push_hex(out, s[k] as u32);
        k = k + 1;
        assert(out@ =~= start + join_hex(s@.subrange(lo as int, k as int)));
    }
}

fn zero_run_at(s: &Vec<u16>, i: usize) -> (n: usize)
    requires
        i <= s.len(),
    ensures
        n == zero_run(s@, i as int),
        i + n <= s.len(),
{
    let mut q = i;
    while q < s.len() && s[q] == 0
        invariant
            i <= q <= s.len(),
            zero_run(s@, i as int) == (q - i) + zero_run(s@, q as int),
        decreases s.len() - q,
    {
        q = q + 1;
    }
    q - i
}

fn longest_zeros(s: &Vec<u16>) -> (r: (usize, usize))
    ensures
        r.0 as int == longest_zero_run(s@, 0).0,
        r.1 as nat == longest_zero_run(s@, 0).1,
        r.0 + r.1 <= s.len(),
{
    let mut best: (usize, usize) = (s.len(), 0);
    let mut i = s.len();
    while i > 0
        invariant
            i <= s.len(),
            best.0 as int == longest_zero_run(s@, i as int).0,
            best.1 as nat == longest_zero_run(s@, i as int).1,
            best.0 + best.1 <= s.len(),
        decreases i,
    {
        i = i - 1;
        let here = zero_run_at(s, i);
        if here > 0 && here >= best.1 {
            best = (i, here);
        }
    }
    best
}

fn push_v6(out: &mut Vec<char>, v: u128)
    ensures
        final(out)@ == old(out)@ + v6_text(v),
{
    reveal(v6_text);
    let ghost start = out@;
    let s = segments_of(v, 8);
    let mapped = s[0] == 0 && s[1] == 0 && s[2] == 0 && s[3] == 0 && s[4] == 0 && s[5] == 0xffff;
    assert(mapped == is_v4_mapped(s@)) by {
        if mapped {
            assert forall|k: int| 0 <= k < 5 implies s@[k] == 0 by {
                if k == 0 {
                } else if k == 1 {
                } else if k == 2 {
                } else if k == 3 {
                } else {
                }
            }
        }
    }
    if mapped {
        out.push(':');
        out.push(':');
        out.push('f');
        out.push('f');
        out.push('f');
        out.push('f');
        out.push(':');
        push_v4(out, (s[6] as u32) * 0x1_0000 + s[7] as u32);
        assert(out@ =~= start + v6_text(v));
    } else {
        let (st, n) = longest_zeros(&s);
        if n > 1 {
            push_joined(out, &s, 0, st);
            out.push(':');
            out.push(':');
            push_joined(out, &s, st + n, 8);
            assert(s@.subrange(0, st as int) =~= s@.take(st as int));
            assert(s@.subrange((st + n) as int, 8) =~= s@.skip((st + n) as int));
            assert(out@ =~= start + v6_text(v));
        } else {
            push_joined(out, &s, 0, 8);
            assert(s@.subrange(0, 8) =~= s@);
        }
    }
}

impl IpAddr {
    /// The characters this address is written in.
    pub(crate) fn text(&self) -> (t: Vec<char>)
        ensures
            t@ == ip_display(*self),
    {
        reveal(ip_display);
        let mut out: Vec<char> = Vec::new();
        match *self {
            IpAddr::V4(v) => push_v4(&mut out, v),
            IpAddr::V6(v) => push_v6(&mut out, v),
        }
        assert(out@ =~= ip_display(*self));
        out
    }

    /// The address as `std` writes it: `192.0.2.10`, `2001:db8::1`.
    pub fn to_string(&self) -> (s: String)
        ensures
            s@ == ip_display(*self),
    {
        let t = self.text();
        crate::text::string_of(&t)
    }

    /// The address that the whole of `text` writes, as `str::parse::<IpAddr>`
    /// reads it: no surrounding whitespace, no port, no brackets.
    pub fn parse(text: &str) -> (r: Option<IpAddr>)
        ensures
            r == ip_text(text@),
    {
        let t = crate::text::chars_of(text);
        parse_ip(&t)
    }
}

} // verus!
