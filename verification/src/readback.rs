//! An address as it is shown reads back as the same address: `to_string`
//! and `parse` undo each other.

use vstd::prelude::*;
use crate::address::{
    IpAddr, digit_char, dec_text, hex_text, dec_run, hex_run, octet_at, v4_at, v4_text, v4_octets,
    v4_value, v6_text, v6_segments, v6_value, v6_bound, v6_at, ip_text, ip_display, group_at,
    read_groups, join_hex, zero_run, longest_zero_run, is_v4_mapped, expand, hex_bound,
    address_text, socket_text, socket_display, port_at, number_at, after_scope,
};
use vstd::arithmetic::div_mod::{lemma_breakdown, lemma_small_mod};
use crate::text::{
    is_dec_digit, dec_digit_value, is_hex_digit, hex_digit_value, dec_value, hex_value, trim,
    is_space, lemma_trim_no_space,
};

verus! {

proof fn lemma_digit_char(d: nat)
    requires
        d < 16,
    ensures
        is_hex_digit(digit_char(d)),
        hex_digit_value(digit_char(d)) == d,
        d < 10 ==> is_dec_digit(digit_char(d)) && dec_digit_value(digit_char(d)) == d,
        d >= 10 ==> !is_dec_digit(digit_char(d)),
        d != 0 ==> digit_char(d) != '0',
        digit_char(d) != ':' && digit_char(d) != '.',
{
}

/// The decimal text of `n`: at least one digit, all digits, no leading zero,
/// writing `n`.
pub(crate) proof fn lemma_dec_text(n: nat)
    ensures
        dec_text(n).len() >= 1,
        forall|j: int| 0 <= j < dec_text(n).len() ==> is_dec_digit(#[trigger] dec_text(n)[j]),
        dec_value(dec_text(n)) == n,
        n >= 10 ==> dec_text(n)[0] != '0',
        n < 10 ==> dec_text(n).len() == 1,
    decreases n,
{
    lemma_digit_char(n % 10);
    if n < 10 {
        assert(dec_text(n).drop_last() =~= Seq::<char>::empty());
        assert(dec_value(Seq::<char>::empty()) == 0);
        assert(dec_value(dec_text(n)) == dec_value(dec_text(n).drop_last()) * 10
            + dec_digit_value(dec_text(n).last()));
    } else {
        lemma_dec_text(n / 10);
        let t = dec_text(n);
        assert(t.drop_last() =~= dec_text(n / 10));
        assert(t.last() == digit_char(n % 10));
        assert((n / 10) * 10 + n % 10 == n);
        assert(dec_value(t) == dec_value(t.drop_last()) * 10 + dec_digit_value(t.last()));
        assert forall|j: int| 0 <= j < t.len() implies is_dec_digit(#[trigger] t[j]) by {
            if j < t.len() - 1 {
                assert(t[j] == dec_text(n / 10)[j]);
            }
        }
        assert(t[0] == dec_text(n / 10)[0]);
        if n / 10 < 10 {
            lemma_digit_char(n / 10);
        }
    }
}

/// The hexadecimal text of `n`: at least one digit, all hexadecimal digits,
/// writing `n`, and no longer than `k` where `n` is below 16 to the `k`.
proof fn lemma_hex_text(n: nat, k: nat)
    requires
        k >= 1,
        n < crate::address::hex_bound(k),
    ensures
        1 <= hex_text(n).len() <= k,
        forall|j: int| 0 <= j < hex_text(n).len() ==> is_hex_digit(#[trigger] hex_text(n)[j]),
        forall|j: int|
            0 <= j < hex_text(n).len() ==> #[trigger] hex_text(n)[j] != ':' && hex_text(n)[j]
                != '.',
        hex_value(hex_text(n)) == n,
    decreases n,
{
    lemma_digit_char(n % 16);
    if n < 16 {
        assert(hex_text(n).drop_last() =~= Seq::<char>::empty());
        assert(hex_value(Seq::<char>::empty()) == 0);
        assert(hex_value(hex_text(n)) == hex_value(hex_text(n).drop_last()) * 16
            + hex_digit_value(hex_text(n).last()));
        assert(crate::address::hex_bound(1) == 16) by {
            reveal_with_fuel(crate::address::hex_bound, 2);
        }
    } else {
        assert(k >= 2) by {
            if k == 1 {
                reveal_with_fuel(crate::address::hex_bound, 2);
            }
        }
        assert(n / 16 < crate::address::hex_bound((k - 1) as nat));
        lemma_hex_text(n / 16, (k - 1) as nat);
        let t = hex_text(n);
        assert(t.drop_last() =~= hex_text(n / 16));
        assert(t.last() == digit_char(n % 16));
        assert((n / 16) * 16 + n % 16 == n);
        assert(hex_value(t) == hex_value(t.drop_last()) * 16 + hex_digit_value(t.last()));
        assert forall|j: int| 0 <= j < t.len() implies is_hex_digit(#[trigger] t[j]) && t[j]
            != ':' && t[j] != '.' by {
            if j < t.len() - 1 {
                assert(t[j] == hex_text(n / 16)[j]);
            }
        }
    }
}

/// A run of exactly `k` decimal digits at `p`.
proof fn lemma_dec_run_exact(t: Seq<char>, p: int, k: int)
    requires
        0 <= p,
        0 <= k,
        p + k <= t.len(),
        forall|j: int| p <= j < p + k ==> is_dec_digit(#[trigger] t[j]),
        p + k == t.len() || !is_dec_digit(t[p + k]),
    ensures
        dec_run(t, p) == k,
    decreases k,
{
    if k > 0 {
        lemma_dec_run_exact(t, p + 1, k - 1);
    }
}

/// A run of exactly `k` hexadecimal digits at `p`.
proof fn lemma_hex_run_exact(t: Seq<char>, p: int, k: int)
    requires
        0 <= p,
        0 <= k,
        p + k <= t.len(),
        forall|j: int| p <= j < p + k ==> is_hex_digit(#[trigger] t[j]),
        p + k == t.len() || !is_hex_digit(t[p + k]),
    ensures
        hex_run(t, p) == k,
    decreases k,
{
    if k > 0 {
        lemma_hex_run_exact(t, p + 1, k - 1);
    }
}

/// An octet written in decimal at `p` reads back.
proof fn lemma_read_octet(t: Seq<char>, p: int, n: nat)
    requires
        n <= 255,
        0 <= p,
        p + dec_text(n).len() <= t.len(),
        t.subrange(p, p + dec_text(n).len()) == dec_text(n),
        p + dec_text(n).len() == t.len() || !is_dec_digit(t[p + dec_text(n).len()]),
    ensures
        octet_at(t, p) == Some((n as u8, p + dec_text(n).len())),
{
    let d = dec_text(n);
    lemma_dec_text(n);
    assert forall|j: int| p <= j < p + d.len() implies is_dec_digit(#[trigger] t[j]) by {
        assert(t[j] == d[j - p]);
    }
    lemma_dec_run_exact(t, p, d.len() as int);
    assert(t[p] == d[0]);
}

proof fn lemma_v4_octets(v: u32)
    ensures
        v4_value(v4_octets(v)[0], v4_octets(v)[1], v4_octets(v)[2], v4_octets(v)[3]) == v,
        v4_octets(v).len() == 4,
{
    let a = v / 0x100_0000;
    let b = (v / 0x1_0000) % 0x100;
    let c = (v / 0x100) % 0x100;
    let d = v % 0x100;
    assert(a < 0x100 && a * 0x100_0000 + b * 0x1_0000 + c * 0x100 + d == v) by (bit_vector)
        requires
            a == v / 0x100_0000,
            b == (v / 0x1_0000) % 0x100,
            c == (v / 0x100) % 0x100,
            d == v % 0x100,
    ;
}

/// An IPv4 address shown at `p` reads back.
pub(crate) proof fn lemma_read_v4(t: Seq<char>, p: int, v: u32)
    requires
        0 <= p,
        p + v4_text(v).len() <= t.len(),
        t.subrange(p, p + v4_text(v).len()) == v4_text(v),
        p + v4_text(v).len() == t.len() || !is_dec_digit(t[p + v4_text(v).len()]),
    ensures
        v4_at(t, p) == Some((v, p + v4_text(v).len())),
{
    reveal(v4_text);
    let o = v4_octets(v);
    lemma_v4_octets(v);
    let d0 = dec_text(o[0] as nat);
    let d1 = dec_text(o[1] as nat);
    let d2 = dec_text(o[2] as nat);
    let d3 = dec_text(o[3] as nat);
    let p1 = p + d0.len();
    let p2 = p1 + 1 + d1.len();
    let p3 = p2 + 1 + d2.len();
    let p4 = p3 + 1 + d3.len();
    let whole = v4_text(v);
    assert(whole =~= d0 + seq!['.'] + d1 + seq!['.'] + d2 + seq!['.'] + d3);
    assert(p4 == p + whole.len());
    assert forall|j: int| 0 <= j < whole.len() implies #[trigger] t[p + j] == whole[j] by {
        assert(t.subrange(p, p + whole.len())[j] == t[p + j]);
    }
    assert(whole[p1 - p] == '.');
    assert(whole[p2 - p] == '.');
    assert(whole[p3 - p] == '.');
    assert(t[p + (p1 - p)] == '.');
    assert(t[p + (p2 - p)] == '.');
    assert(t[p + (p3 - p)] == '.');
    assert forall|j: int| 0 <= j < d0.len() implies #[trigger] t.subrange(p, p1)[j] == d0[j] by {
        assert(t[p + j] == whole[j]);
    }
    assert forall|j: int| 0 <= j < d1.len() implies #[trigger] t.subrange(p1 + 1, p2)[j]
        == d1[j] by {
        assert(t[p + (p1 + 1 - p + j)] == whole[p1 + 1 - p + j]);
    }
    assert forall|j: int| 0 <= j < d2.len() implies #[trigger] t.subrange(p2 + 1, p3)[j]
        == d2[j] by {
        assert(t[p + (p2 + 1 - p + j)] == whole[p2 + 1 - p + j]);
    }
    assert forall|j: int| 0 <= j < d3.len() implies #[trigger] t.subrange(p3 + 1, p4)[j]
        == d3[j] by {
        assert(t[p + (p3 + 1 - p + j)] == whole[p3 + 1 - p + j]);
    }
    assert(t.subrange(p, p1) =~= d0);
    assert(t.subrange(p1 + 1, p2) =~= d1);
    assert(t.subrange(p2 + 1, p3) =~= d2);
    assert(t.subrange(p3 + 1, p4) =~= d3);
    lemma_dec_text(o[0] as nat);
    lemma_dec_text(o[1] as nat);
    lemma_dec_text(o[2] as nat);
    lemma_read_octet(t, p, o[0] as nat);
    lemma_read_octet(t, p1 + 1, o[1] as nat);
    lemma_read_octet(t, p2 + 1, o[2] as nat);
    lemma_read_octet(t, p3 + 1, o[3] as nat);
}

/// Groups, each after a `:`.
spec fn colon_hex(s: Seq<u16>) -> Seq<char>
    decreases s.len(),
{
    if s.len() == 0 {
        Seq::empty()
    } else {
        seq![':'] + hex_text(s[0] as nat) + colon_hex(s.drop_first())
    }
}

/// Whether the text holds no `.`.
spec fn no_dot(t: Seq<char>) -> bool {
    forall|j: int| 0 <= j < t.len() ==> t[j] != '.'
}

/// Whether every character is a hexadecimal digit or `:`.
spec fn hex_or_colon(t: Seq<char>) -> bool {
    forall|j: int| 0 <= j < t.len() ==> is_hex_digit(#[trigger] t[j]) || t[j] == ':'
}

proof fn lemma_hex_text_u16(g: u16)
    ensures
        1 <= hex_text(g as nat).len() <= 4,
        forall|j: int|
            0 <= j < hex_text(g as nat).len() ==> is_hex_digit(#[trigger] hex_text(g as nat)[j]),
        hex_value(hex_text(g as nat)) == g,
{
    assert(hex_bound(4) == 0x1_0000) by {
        reveal_with_fuel(hex_bound, 5);
    }
    lemma_hex_text(g as nat, 4);
}

proof fn lemma_colon_push(u: Seq<u16>, x: u16)
    ensures
        colon_hex(u.push(x)) == colon_hex(u) + seq![':'] + hex_text(x as nat),
    decreases u.len(),
{
    if u.len() == 0 {
        assert(u.push(x).drop_first() =~= Seq::<u16>::empty());
        assert(colon_hex(Seq::<u16>::empty()) =~= Seq::<char>::empty());
        assert(u.push(x)[0] == x);
        assert(colon_hex(u.push(x)) =~= colon_hex(u) + seq![':'] + hex_text(x as nat));
    } else {
        assert(u.push(x).drop_first() =~= u.drop_first().push(x));
        lemma_colon_push(u.drop_first(), x);
        assert(colon_hex(u.push(x)) =~= colon_hex(u) + seq![':'] + hex_text(x as nat));
    }
}

/// Groups joined by `:` are the first group and then each other after a `:`.
proof fn lemma_join_front(s: Seq<u16>)
    requires
        s.len() >= 1,
    ensures
        join_hex(s) == hex_text(s[0] as nat) + colon_hex(s.drop_first()),
    decreases s.len(),
{
    if s.len() == 1 {
        assert(s.drop_first() =~= Seq::<u16>::empty());
        assert(join_hex(s) =~= hex_text(s[0] as nat) + colon_hex(s.drop_first()));
    } else {
        lemma_join_front(s.drop_last());
        assert(s.drop_last().drop_first() =~= s.drop_first().drop_last());
        assert(s.drop_first() =~= s.drop_first().drop_last().push(s.last()));
        lemma_colon_push(s.drop_first().drop_last(), s.last());
        assert(s.drop_last()[0] == s[0]);
        assert(join_hex(s) =~= hex_text(s[0] as nat) + colon_hex(s.drop_first()));
    }
}

proof fn lemma_colon_chars(s: Seq<u16>)
    ensures
        hex_or_colon(colon_hex(s)),
        no_dot(colon_hex(s)),
    decreases s.len(),
{
    if s.len() > 0 {
        lemma_colon_chars(s.drop_first());
        lemma_hex_text_u16(s[0]);
        let h = hex_text(s[0] as nat);
        let c = colon_hex(s);
        assert forall|j: int| 0 <= j < c.len() implies (is_hex_digit(#[trigger] c[j]) || c[j]
            == ':') && c[j] != '.' by {
            if j == 0 {
            } else if j < 1 + h.len() {
                assert(c[j] == h[j - 1]);
            } else {
                assert(c[j] == colon_hex(s.drop_first())[j - 1 - h.len()]);
            }
        }
    }
}

proof fn lemma_join_chars(s: Seq<u16>)
    ensures
        hex_or_colon(join_hex(s)),
        no_dot(join_hex(s)),
{
    if s.len() > 0 {
        lemma_join_front(s);
        lemma_colon_chars(s.drop_first());
        lemma_hex_text_u16(s[0]);
        let h = hex_text(s[0] as nat);
        let c = join_hex(s);
        assert forall|j: int| 0 <= j < c.len() implies (is_hex_digit(#[trigger] c[j]) || c[j]
            == ':') && c[j] != '.' by {
            if j < h.len() {
                assert(c[j] == h[j]);
            } else {
                assert(c[j] == colon_hex(s.drop_first())[j - h.len()]);
            }
        }
    }
}

proof fn lemma_no_v4(t: Seq<char>, p: int)
    requires
        no_dot(t),
        0 <= p <= t.len(),
    ensures
        v4_at(t, p) is None,
{
    crate::address::lemma_dec_run(t, p);
}

/// Whether reading groups stops at `q` after `k` of them: the limit is
/// reached, or no `:` and group follow.
spec fn stops(t: Seq<char>, q: int, k: nat, limit: nat) -> bool {
    &&& (k >= limit || !(0 <= q < t.len() && t[q] == ':') || group_at(t, q + 1) is None)
    &&& (q == t.len() || !is_hex_digit(t[q]))
}

/// A group written in hexadecimal at `p`, followed by no hexadecimal digit,
/// reads back.
proof fn lemma_read_group(t: Seq<char>, p: int, g: u16)
    requires
        0 <= p,
        p + hex_text(g as nat).len() <= t.len(),
        t.subrange(p, p + hex_text(g as nat).len()) == hex_text(g as nat),
        p + hex_text(g as nat).len() == t.len() || !is_hex_digit(
            t[p + hex_text(g as nat).len()],
        ),
    ensures
        group_at(t, p) == Some((g, p + hex_text(g as nat).len())),
{
    let h = hex_text(g as nat);
    lemma_hex_text_u16(g);
    assert forall|j: int| p <= j < p + h.len() implies is_hex_digit(#[trigger] t[j]) by {
        assert(t[j] == h[j - p]);
    }
    lemma_hex_run_exact(t, p, h.len() as int);
}

/// Groups each after a `:` read back, from the `i`-th on.
proof fn lemma_read_colon_groups(t: Seq<char>, p: int, s: Seq<u16>, i: nat, limit: nat)
    requires
        1 <= i,
        i + s.len() <= limit,
        no_dot(t),
        0 <= p,
        p + colon_hex(s).len() <= t.len(),
        t.subrange(p, p + colon_hex(s).len()) == colon_hex(s),
        stops(t, p + colon_hex(s).len(), i + s.len(), limit),
    ensures
        read_groups(t, p, i, limit) == (s, p + colon_hex(s).len(), false),
    decreases s.len(),
{
    if s.len() == 0 {
        if i < limit && 0 <= p < t.len() && t[p] == ':' {
            lemma_no_v4(t, p + 1);
        }
        assert(read_groups(t, p, i, limit).0 =~= s);
    } else {
        let c = colon_hex(s);
        let h = hex_text(s[0] as nat);
        let rest = colon_hex(s.drop_first());
        lemma_hex_text_u16(s[0]);
        assert(c =~= seq![':'] + h + rest);
        assert(t[p] == c[0]);
        lemma_no_v4(t, p + 1);
        assert(t.subrange(p + 1, p + 1 + h.len()) =~= h) by {
            assert forall|j: int| 0 <= j < h.len() implies #[trigger] t.subrange(
                p + 1,
                p + 1 + h.len(),
            )[j] == h[j] by {
                assert(t.subrange(p, p + c.len())[1 + j] == c[1 + j]);
            }
        }
        let q = p + 1 + h.len();
        if s.len() > 1 {
            assert(rest.len() > 0);
            assert(t[q] == c[1 + h.len() as int]);
            assert(c[1 + h.len() as int] == rest[0]);
        }
        lemma_read_group(t, p + 1, s[0]);
        assert(t.subrange(q, q + rest.len()) =~= rest) by {
            assert forall|j: int| 0 <= j < rest.len() implies #[trigger] t.subrange(
                q,
                q + rest.len(),
            )[j] == rest[j] by {
                assert(t.subrange(p, p + c.len())[1 + h.len() + j] == c[1 + h.len() + j]);
            }
        }
        lemma_read_colon_groups(t, q, s.drop_first(), i + 1, limit);
        assert(seq![s[0]] + s.drop_first() =~= s);
    }
}

/// Groups joined by `:` read back from the first on.
proof fn lemma_read_joined(t: Seq<char>, p: int, s: Seq<u16>, limit: nat)
    requires
        1 <= s.len() <= limit,
        no_dot(t),
        0 <= p,
        p + join_hex(s).len() <= t.len(),
        t.subrange(p, p + join_hex(s).len()) == join_hex(s),
        stops(t, p + join_hex(s).len(), s.len(), limit),
    ensures
        read_groups(t, p, 0, limit) == (s, p + join_hex(s).len(), false),
{
    let j = join_hex(s);
    let h = hex_text(s[0] as nat);
    let rest = colon_hex(s.drop_first());
    lemma_join_front(s);
    lemma_hex_text_u16(s[0]);
    lemma_no_v4(t, p);
    assert(t.subrange(p, p + h.len()) =~= h) by {
        assert forall|k: int| 0 <= k < h.len() implies #[trigger] t.subrange(p, p + h.len())[k]
            == h[k] by {
            assert(t.subrange(p, p + j.len())[k] == j[k]);
        }
    }
    let q = p + h.len();
    if s.len() > 1 {
        assert(t[q] == j[h.len() as int]);
        assert(j[h.len() as int] == rest[0]);
    }
    lemma_read_group(t, p, s[0]);
    assert(t.subrange(q, q + rest.len()) =~= rest) by {
        assert forall|k: int| 0 <= k < rest.len() implies #[trigger] t.subrange(
            q,
            q + rest.len(),
        )[k] == rest[k] by {
            assert(t.subrange(p, p + j.len())[h.len() + k] == j[h.len() + k]);
        }
    }
    lemma_read_colon_groups(t, q, s.drop_first(), 1, limit);
    assert(seq![s[0]] + s.drop_first() =~= s);
}

proof fn lemma_v6_value_segments(x: nat, n: nat)
    ensures
        v6_value(v6_segments(x, n)) == x % v6_bound(n),
        v6_segments(x, n).len() == n,
    decreases n,
{
    if n == 0 {
        assert(x % 1 == 0);
    } else {
        lemma_v6_value_segments(x / 0x1_0000, (n - 1) as nat);
        let b = v6_bound((n - 1) as nat);
        crate::address::lemma_v6_bound_grows(0, (n - 1) as nat);
        lemma_breakdown(x as int, 0x1_0000, b as int);
        let segs = v6_segments(x, n);
        assert(segs.drop_last() =~= v6_segments(x / 0x1_0000, (n - 1) as nat));
    }
}

proof fn lemma_zero_run(s: Seq<u16>, i: int)
    requires
        0 <= i,
    ensures
        zero_run(s, i) > 0 ==> i + zero_run(s, i) <= s.len(),
        forall|j: int| i <= j < i + zero_run(s, i) ==> s[j] == 0,
    decreases s.len() - i,
{
    if 0 <= i < s.len() && s[i] == 0 {
        lemma_zero_run(s, i + 1);
    }
}

proof fn lemma_longest_zero_run(s: Seq<u16>, i: int)
    requires
        0 <= i,
    ensures
        longest_zero_run(s, i).1 > 0 ==> {
            let (st, n) = longest_zero_run(s, i);
            &&& i <= st
            &&& st + n <= s.len()
            &&& zero_run(s, st) == n
        },
    decreases s.len() - i,
{
    if 0 <= i < s.len() {
        lemma_longest_zero_run(s, i + 1);
        lemma_zero_run(s, i);
    }
}

/// `ffff` reads as the group 0xffff.
proof fn lemma_ffff(t: Seq<char>, p: int)
    requires
        0 <= p,
        p + 5 <= t.len(),
        t.subrange(p, p + 5) == seq!['f', 'f', 'f', 'f', ':'],
    ensures
        group_at(t, p) == Some((0xffffu16, p + 4)),
        v4_at(t, p) is None,
{
    assert(t[p] == 'f' && t[p + 1] == 'f' && t[p + 2] == 'f' && t[p + 3] == 'f' && t[p + 4]
        == ':') by {
        assert(t.subrange(p, p + 5)[0] == t[p]);
        assert(t.subrange(p, p + 5)[1] == t[p + 1]);
        assert(t.subrange(p, p + 5)[2] == t[p + 2]);
        assert(t.subrange(p, p + 5)[3] == t[p + 3]);
        assert(t.subrange(p, p + 5)[4] == t[p + 4]);
    }
    assert(dec_run(t, p) == 0);
    lemma_hex_run_exact(t, p, 4);
    let f = seq!['f', 'f', 'f', 'f'];
    assert(t.subrange(p, p + 4) =~= f);
    assert(hex_value(f) == 0xffff) by {
        assert(f.drop_last() =~= seq!['f', 'f', 'f']);
        assert(f.drop_last().drop_last() =~= seq!['f', 'f']);
        assert(f.drop_last().drop_last().drop_last() =~= seq!['f']);
        assert(f.drop_last().drop_last().drop_last().drop_last() =~= Seq::<char>::empty());
        reveal_with_fuel(hex_value, 5);
    }
}

/// Whether the text ends at `e`, or goes on with a character that no
/// hexadecimal group, `:` or `.` starts.
spec fn ends_at(t: Seq<char>, e: int) -> bool {
    e == t.len() || (!is_hex_digit(t[e]) && t[e] != ':' && t[e] != '.')
}

/// The characters of `x` where `t` holds it at `p`.
proof fn lemma_holds(t: Seq<char>, p: int, x: Seq<char>)
    requires
        0 <= p,
        p + x.len() <= t.len(),
        t.subrange(p, p + x.len()) == x,
    ensures
        forall|j: int| 0 <= j < x.len() ==> #[trigger] t[p + j] == x[j],
{
    assert forall|j: int| 0 <= j < x.len() implies #[trigger] t[p + j] == x[j] by {
        assert(t.subrange(p, p + x.len())[j] == t[p + j]);
    }
}

/// After `::ffff` at `p`, a `:` and an IPv4 address read as the last two
/// groups.
proof fn lemma_read_mapped_tail(t: Seq<char>, p: int, w: u32)
    requires
        0 <= p,
        p + 7 + v4_text(w).len() <= t.len(),
        t.subrange(p + 2, p + 7) == seq!['f', 'f', 'f', 'f', ':'],
        t.subrange(p + 7, p + 7 + v4_text(w).len()) == v4_text(w),
        p + 7 + v4_text(w).len() == t.len() || !is_dec_digit(t[p + 7 + v4_text(w).len()]),
    ensures
        read_groups(t, p + 2, 0, 7) == (
            seq![0xffffu16, (w / 0x1_0000) as u16, (w % 0x1_0000) as u16],
            p + 7 + v4_text(w).len(),
            true,
        ),
{
    lemma_ffff(t, p + 2);
    assert(t[p + 6] == ':') by {
        assert(t.subrange(p + 2, p + 7)[4] == t[p + 6]);
    }
    lemma_read_v4(t, p + 7, w);
    let rest = read_groups(t, p + 6, 1, 7);
    assert(rest == (
        seq![(w / 0x1_0000) as u16, (w % 0x1_0000) as u16],
        p + 7 + v4_text(w).len(),
        true,
    ));
    assert(seq![0xffffu16] + rest.0 =~= seq![
        0xffffu16,
        (w / 0x1_0000) as u16,
        (w % 0x1_0000) as u16,
    ]);
}

/// An IPv4-mapped address shown at `p`, `::ffff:a.b.c.d`, reads back.
proof fn lemma_read_mapped(v: u128, s: Seq<u16>, t: Seq<char>, p: int, x: Seq<char>)
    requires
        s == v6_segments(v as nat, 8),
        s.len() == 8,
        is_v4_mapped(s),
        x == seq![':', ':', 'f', 'f', 'f', 'f', ':'] + v4_text(
            (s[6] as nat * 0x1_0000 + s[7] as nat) as u32,
        ),
        0 <= p,
        p + x.len() <= t.len(),
        t.subrange(p, p + x.len()) == x,
        ends_at(t, p + x.len()),
    ensures
        v4_at(t, p) is None,
        v6_at(t, p) == Some((v6_value(s) as u128, p + x.len())),
{
    let w = (s[6] as nat * 0x1_0000 + s[7] as nat) as u32;
    lemma_holds(t, p, x);
    assert(t[p + 0] == x[0] && t[p + 1] == x[1]);
    assert(dec_run(t, p) == 0);
    assert(hex_run(t, p) == 0);
    assert(read_groups(t, p, 0, 8) == (Seq::<u16>::empty(), p, false));
    assert(t.subrange(p + 2, p + 7) =~= seq!['f', 'f', 'f', 'f', ':']) by {
        assert forall|j: int| 0 <= j < 5 implies #[trigger] t.subrange(p + 2, p + 7)[j] == seq![
            'f',
            'f',
            'f',
            'f',
            ':',
        ][j] by {
            assert(t[p + (2 + j)] == x[2 + j]);
        }
    }
    assert(t.subrange(p + 7, p + x.len()) =~= v4_text(w)) by {
        assert forall|j: int| 0 <= j < v4_text(w).len() implies #[trigger] t.subrange(
            p + 7,
            p + x.len(),
        )[j] == v4_text(w)[j] by {
            assert(t[p + (7 + j)] == x[7 + j]);
        }
    }
    lemma_read_mapped_tail(t, p, w);
    assert((w / 0x1_0000) as u16 == s[6] && (w % 0x1_0000) as u16 == s[7]);
    let tail = read_groups(t, p + 2, 0, 7);
    assert(expand(Seq::<u16>::empty(), tail.0) =~= s);
}

/// An address shown at `p` with its longest run of zero groups as `::` reads
/// back.
proof fn lemma_read_compressed(s: Seq<u16>, st: int, n: nat, t: Seq<char>, p: int, x: Seq<char>)
    requires
        s.len() == 8,
        0 <= st,
        st + n <= 8,
        n > 1,
        forall|j: int| st <= j < st + n ==> s[j] == 0,
        x == join_hex(s.take(st)) + seq![':', ':'] + join_hex(s.skip(st + n)),
        0 <= p,
        p + x.len() <= t.len(),
        t.subrange(p, p + x.len()) == x,
        ends_at(t, p + x.len()),
        no_dot(t),
    ensures
        v4_at(t, p) is None,
        v6_at(t, p) == Some((v6_value(s) as u128, p + x.len())),
{
    let a = s.take(st);
    let b = s.skip(st + n);
    let ja = join_hex(a);
    let jb = join_hex(b);
    let e = p + x.len();
    lemma_join_chars(a);
    lemma_join_chars(b);
    lemma_holds(t, p, x);
    let q = p + ja.len();
    assert(t[p + ja.len()] == x[ja.len() as int]);
    assert(t[p + (ja.len() + 1)] == x[ja.len() + 1int]);
    assert(t[q] == ':' && t[q + 1] == ':');
    lemma_no_v4(t, p);
    lemma_no_v4(t, q + 2);
    crate::address::lemma_hex_run(t, q + 2);
    let head = read_groups(t, p, 0, 8);
    if a.len() == 0 {
        assert(hex_run(t, p) == 0);
        assert(head.0 =~= a);
    } else {
        assert(t.subrange(p, q) =~= ja) by {
            assert forall|j: int| 0 <= j < ja.len() implies #[trigger] t.subrange(p, q)[j]
                == ja[j] by {
                assert(t[p + j] == x[j]);
            }
        }
        assert(hex_run(t, q + 1) == 0);
        lemma_read_joined(t, p, a, 8);
    }
    assert(head == (a, q, false));
    let tail = read_groups(t, q + 2, 0, (7 - a.len()) as nat);
    if b.len() == 0 {
        assert(q + 2 == e);
        assert(hex_run(t, q + 2) == 0);
        assert(tail.0 =~= b);
    } else {
        assert(t.subrange(q + 2, e) =~= jb) by {
            assert forall|j: int| 0 <= j < jb.len() implies #[trigger] t.subrange(q + 2, e)[j]
                == jb[j] by {
                assert(t[p + (ja.len() + 2 + j)] == x[ja.len() + 2int + j]);
            }
        }
        lemma_read_joined(t, q + 2, b, (7 - a.len()) as nat);
    }
    assert(tail == (b, e, false));
    assert(expand(a, b) =~= s);
}

/// An address shown at `p` with all eight groups reads back.
proof fn lemma_read_full(s: Seq<u16>, t: Seq<char>, p: int)
    requires
        s.len() == 8,
        0 <= p,
        p + join_hex(s).len() <= t.len(),
        t.subrange(p, p + join_hex(s).len()) == join_hex(s),
        ends_at(t, p + join_hex(s).len()),
        no_dot(t),
    ensures
        v4_at(t, p) is None,
        v6_at(t, p) == Some((v6_value(s) as u128, p + join_hex(s).len())),
{
    lemma_no_v4(t, p);
    lemma_read_joined(t, p, s, 8);
}

/// An IPv6 address shown at `p` of `t` reads back, where what follows is no
/// part of an address and the text around it holds no `.`.
proof fn lemma_read_v6_at(v: u128, t: Seq<char>, p: int)
    requires
        0 <= p,
        p + v6_text(v).len() <= t.len(),
        t.subrange(p, p + v6_text(v).len()) == v6_text(v),
        ends_at(t, p + v6_text(v).len()),
        forall|j: int|
            0 <= j < t.len() && !(p <= j < p + v6_text(v).len()) ==> #[trigger] t[j] != '.',
    ensures
        v4_at(t, p) is None,
        v6_at(t, p) == Some((v, p + v6_text(v).len())),
{
    reveal(v6_text);
    let s = v6_segments(v as nat, 8);
    lemma_v6_value_segments(v as nat, 8);
    assert(v6_bound(8) == 0x1_0000_0000_0000_0000_0000_0000_0000_0000) by {
        reveal_with_fuel(v6_bound, 9);
    }
    lemma_small_mod(v as nat, v6_bound(8));
    let x = v6_text(v);
    lemma_holds(t, p, x);
    if is_v4_mapped(s) {
        lemma_read_mapped(v, s, t, p, x);
    } else {
        let run = longest_zero_run(s, 0);
        lemma_longest_zero_run(s, 0);
        if run.1 > 1 {
            lemma_join_chars(s.take(run.0));
            lemma_join_chars(s.skip(run.0 + run.1));
            let ja = join_hex(s.take(run.0));
            let jb = join_hex(s.skip(run.0 + run.1));
            assert(no_dot(t)) by {
                assert forall|j: int| 0 <= j < t.len() implies t[j] != '.' by {
                    if p <= j < p + x.len() {
                        let k = j - p;
                        assert(t[p + k] == x[k]);
                        if k < ja.len() {
                            assert(x[k] == ja[k]);
                        } else if k >= ja.len() + 2 {
                            assert(x[k] == jb[k - ja.len() - 2]);
                        }
                    }
                }
            }
            lemma_zero_run(s, run.0);
            lemma_read_compressed(s, run.0, run.1, t, p, x);
        } else {
            lemma_join_chars(s);
            assert(no_dot(t)) by {
                assert forall|j: int| 0 <= j < t.len() implies t[j] != '.' by {
                    if p <= j < p + x.len() {
                        assert(t[p + (j - p)] == x[j - p]);
                    }
                }
            }
            lemma_read_full(s, t, p);
        }
    }
}

/// An IPv6 address as it is shown reads back.
proof fn lemma_read_v6_text(v: u128)
    ensures
        ip_text(v6_text(v)) == Some(IpAddr::V6(v)),
{
    reveal(ip_text);
    let t = v6_text(v);
    assert(t.subrange(0, t.len() as int) =~= t);
    lemma_read_v6_at(v, t, 0);
}

/// An address reads back from the text it is shown in: `to_string` and
/// `parse` undo each other, so a claim's value names its address exactly.
pub proof fn law_shown_address_reads_back(a: IpAddr)
    ensures
        ip_text(ip_display(a)) == Some(a),
{
    reveal(ip_display);
    match a {
        IpAddr::V4(v) => {
            reveal(ip_text);
            let t = v4_text(v);
            assert(t.subrange(0, t.len() as int) =~= t);
            lemma_read_v4(t, 0, v);
        },
        IpAddr::V6(v) => {
            lemma_read_v6_text(v);
        },
    }
}

/// The characters an address is shown in: hexadecimal digits, `:` and `.`.
pub open spec fn shown_char(c: char) -> bool {
    is_hex_digit(c) || c == ':' || c == '.'
}

proof fn lemma_v4_text_chars(v: u32)
    ensures
        forall|j: int| 0 <= j < v4_text(v).len() ==> shown_char(#[trigger] v4_text(v)[j]),
{
    reveal(v4_text);
    let o = v4_octets(v);
    let d0 = dec_text(o[0] as nat);
    let d1 = dec_text(o[1] as nat);
    let d2 = dec_text(o[2] as nat);
    let d3 = dec_text(o[3] as nat);
    lemma_dec_text(o[0] as nat);
    lemma_dec_text(o[1] as nat);
    lemma_dec_text(o[2] as nat);
    lemma_dec_text(o[3] as nat);
    let dot = seq!['.'];
    let t = v4_text(v);
    assert(t =~= d0 + dot + d1 + dot + d2 + dot + d3);
    assert forall|j: int| 0 <= j < t.len() implies shown_char(#[trigger] t[j]) by {
        let a = d0.len() as int;
        let b = a + 1 + d1.len();
        let c = b + 1 + d2.len();
        if j < a {
            assert(t[j] == d0[j]);
        } else if j == a || j == b || j == c {
        } else if j < b {
            assert(t[j] == d1[j - a - 1]);
        } else if j < c {
            assert(t[j] == d2[j - b - 1]);
        } else {
            assert(t[j] == d3[j - c - 1]);
        }
    }
}

proof fn lemma_v6_text_chars(v: u128)
    ensures
        forall|j: int| 0 <= j < v6_text(v).len() ==> shown_char(#[trigger] v6_text(v)[j]),
{
    reveal(v6_text);
    let s = v6_segments(v as nat, 8);
    let t = v6_text(v);
    if is_v4_mapped(s) {
        let w = (s[6] as nat * 0x1_0000 + s[7] as nat) as u32;
        lemma_v4_text_chars(w);
        let pre = seq![':', ':', 'f', 'f', 'f', 'f', ':'];
        assert forall|j: int| 0 <= j < t.len() implies shown_char(#[trigger] t[j]) by {
            if j < 7 {
                assert(t[j] == pre[j]);
            } else {
                assert(t[j] == v4_text(w)[j - 7]);
            }
        }
    } else {
        let run = longest_zero_run(s, 0);
        if run.1 > 1 {
            let ja = join_hex(s.take(run.0));
            let jb = join_hex(s.skip(run.0 + run.1));
            lemma_join_chars(s.take(run.0));
            lemma_join_chars(s.skip(run.0 + run.1));
            assert forall|j: int| 0 <= j < t.len() implies shown_char(#[trigger] t[j]) by {
                if j < ja.len() {
                    assert(t[j] == ja[j]);
                } else if j >= ja.len() + 2 {
                    assert(t[j] == jb[j - ja.len() - 2]);
                }
            }
        } else {
            lemma_join_chars(s);
        }
    }
}

/// An address is shown without whitespace: only hexadecimal digits, `:` and
/// `.`.
pub(crate) proof fn lemma_shown_chars(a: IpAddr)
    ensures
        forall|j: int| 0 <= j < ip_display(a).len() ==> shown_char(#[trigger] ip_display(a)[j]),
{
    reveal(ip_display);
    match a {
        IpAddr::V4(v) => lemma_v4_text_chars(v),
        IpAddr::V6(v) => lemma_v6_text_chars(v),
    }
}

/// An address as it is shown is its own trimmed text, and reads back as a
/// peer address too.
pub(crate) proof fn lemma_shown_address_text(a: IpAddr)
    ensures
        trim(ip_display(a)) == ip_display(a),
        address_text(ip_display(a)) == Some(a),
        forall|j: int| 0 <= j < ip_display(a).len() ==> shown_char(#[trigger] ip_display(a)[j]),
{
    lemma_shown_chars(a);
    lemma_trim_no_space(ip_display(a));
    law_shown_address_reads_back(a);
    reveal(address_text);
}

/// The port written in decimal at the end of `t`, after a `:` at `e`, reads.
proof fn lemma_read_port(t: Seq<char>, e: int, port: u16)
    requires
        0 <= e,
        t.len() == e + 1 + dec_text(port as nat).len(),
        t[e] == ':',
        t.subrange(e + 1, t.len() as int) == dec_text(port as nat),
    ensures
        port_at(t, e) == Some(t.len() as int),
{
    let d = dec_text(port as nat);
    lemma_dec_text(port as nat);
    lemma_holds(t, e + 1, d);
    assert forall|j: int| e + 1 <= j < t.len() implies is_dec_digit(#[trigger] t[j]) by {
        assert(t[e + 1 + (j - e - 1)] == d[j - e - 1]);
    }
    lemma_dec_run_exact(t, e + 1, d.len() as int);
}

/// `a.b.c.d:port` reads back as the IPv4 address.
proof fn lemma_socket_v4(v: u32, port: u16, t: Seq<char>)
    requires
        t == v4_text(v) + seq![':'] + dec_text(port as nat),
    ensures
        ip_text(t) is None,
        socket_text(t) == Some(IpAddr::V4(v)),
{
    let x = v4_text(v);
    let d = dec_text(port as nat);
    let e = x.len() as int;
    lemma_dec_text(port as nat);
    assert(t[e] == ':');
    assert(t.subrange(0, e) =~= x);
    assert(t.subrange(e + 1, t.len() as int) =~= d);
    lemma_read_v4(t, 0, v);
    lemma_read_port(t, e, port);
    reveal(ip_text);
    reveal(socket_text);
}

/// `[ipv6]:port` reads back as the IPv6 address.
proof fn lemma_socket_v6(v: u128, port: u16, t: Seq<char>)
    requires
        t == seq!['['] + v6_text(v) + seq![']', ':'] + dec_text(port as nat),
        forall|j: int| 0 <= j < v6_text(v).len() ==> shown_char(#[trigger] v6_text(v)[j]),
    ensures
        ip_text(t) is None,
        socket_text(t) == Some(IpAddr::V6(v)),
{
    let x = v6_text(v);
    let d = dec_text(port as nat);
    let e = 1 + x.len() as int;
    lemma_dec_text(port as nat);
    assert(t[0] == '[');
    assert(t[e] == ']');
    assert(t[e + 1] == ':');
    assert(t.subrange(1, e) =~= x);
    assert(t.subrange(e + 2, t.len() as int) =~= d);
    assert forall|j: int| 0 <= j < t.len() && !(1 <= j < e) implies #[trigger] t[j] != '.' by {
        if j > e + 1 {
            assert(t[j] == d[j - e - 2]);
        }
    }
    lemma_read_v6_at(v, t, 1);
    assert(after_scope(t, e) == e);
    lemma_read_port(t, e + 1, port);
    assert(dec_run(t, 0) == 0);
    assert(hex_run(t, 0) == 0);
    assert(read_groups(t, 0, 0, 8) == (Seq::<u16>::empty(), 0int, false));
    reveal(ip_text);
    reveal(socket_text);
}

/// A socket address as it is shown holds no whitespace.
proof fn lemma_socket_chars(a: IpAddr, port: u16)
    ensures
        forall|j: int|
            0 <= j < socket_display(a, port).len() ==> !is_space(
                #[trigger] socket_display(a, port)[j],
            ),
{
    let t = socket_display(a, port);
    let x = ip_display(a);
    let d = dec_text(port as nat);
    lemma_dec_text(port as nat);
    lemma_shown_chars(a);
    assert forall|j: int| 0 <= j < t.len() implies !is_space(#[trigger] t[j]) by {
        match a {
            IpAddr::V4(_) => {
                if j < x.len() {
                    assert(t[j] == x[j]);
                    assert(shown_char(x[j]));
                } else if j > x.len() {
                    assert(t[j] == d[j - x.len() - 1]);
                }
            },
            IpAddr::V6(_) => {
                if 1 <= j < 1 + x.len() {
                    assert(t[j] == x[j - 1]);
                    assert(shown_char(x[j - 1]));
                } else if j > x.len() + 2 {
                    assert(t[j] == d[j - x.len() - 3]);
                }
            },
        }
    }
}

/// A socket address as it is shown reads back as a peer address: its address
/// without the port.
pub(crate) proof fn lemma_socket_address_text(a: IpAddr, port: u16)
    ensures
        trim(socket_display(a, port)) == socket_display(a, port),
        address_text(socket_display(a, port)) == Some(a),
{
    let t = socket_display(a, port);
    lemma_socket_chars(a, port);
    lemma_trim_no_space(t);
    lemma_shown_chars(a);
    reveal(ip_display);
    match a {
        IpAddr::V4(v) => lemma_socket_v4(v, port, t),
        IpAddr::V6(v) => lemma_socket_v6(v, port, t),
    }
    reveal(address_text);
}

} // verus!
