//! Text as this library reads it: the characters of a string, Unicode
//! whitespace and trimming, splitting at a separator, ASCII digits and
//! case-insensitive comparison.

use vstd::prelude::*;

verus! {

/// Unicode `White_Space`, the set `char::is_whitespace` answers for.
pub open spec fn is_space(c: char) -> bool {
    let u = c as u32;
    ||| 0x09 <= u <= 0x0d
    ||| u == 0x20
    ||| u == 0x85
    ||| u == 0xa0
    ||| u == 0x1680
    ||| 0x2000 <= u <= 0x200a
    ||| u == 0x2028
    ||| u == 0x2029
    ||| u == 0x202f
    ||| u == 0x205f
    ||| u == 0x3000
}

/// `s` without its leading whitespace.
pub open spec fn trim_start(s: Seq<char>) -> Seq<char>
    decreases s.len(),
{
    if s.len() > 0 && is_space(s[0]) {
        trim_start(s.drop_first())
    } else {
        s
    }
}

/// `s` without its trailing whitespace.
pub open spec fn trim_end(s: Seq<char>) -> Seq<char>
    decreases s.len(),
{
    if s.len() > 0 && is_space(s.last()) {
        trim_end(s.drop_last())
    } else {
        s
    }
}

/// `s` without leading and trailing whitespace, as `str::trim` gives it.
pub open spec fn trim(s: Seq<char>) -> Seq<char> {
    trim_end(trim_start(s))
}

/// `s` without any leading or trailing `c`, as `str::trim_matches(c)` gives it.
pub open spec fn strip_all(s: Seq<char>, c: char) -> Seq<char>
    decreases s.len(),
{
    if s.len() > 0 && s[0] == c {
        strip_all(s.drop_first(), c)
    } else if s.len() > 0 && s.last() == c {
        strip_all(s.drop_last(), c)
    } else {
        s
    }
}

/// The pieces of `s` between the occurrences of `sep`, as `str::split(sep)`
/// gives them: one more piece than there are separators.
pub open spec fn split(s: Seq<char>, sep: char) -> Seq<Seq<char>>
    decreases s.len(),
{
    if s.len() == 0 {
        seq![Seq::<char>::empty()]
    } else {
        let pieces = split(s.drop_last(), sep);
        if s.last() == sep {
            pieces.push(Seq::<char>::empty())
        } else {
            pieces.update(pieces.len() - 1, pieces.last().push(s.last()))
        }
    }
}

/// The position of the first `c` in `s`.
pub open spec fn first_index(s: Seq<char>, c: char) -> Option<int>
    decreases s.len(),
{
    if s.len() == 0 {
        None
    } else {
        match first_index(s.drop_last(), c) {
            Some(i) => Some(i),
            None => if s.last() == c {
                Some(s.len() - 1)
            } else {
                None
            },
        }
    }
}

pub open spec fn is_dec_digit(c: char) -> bool {
    0x30 <= c as u32 <= 0x39
}

pub open spec fn dec_digit_value(c: char) -> nat {
    (c as u32 - 0x30) as nat
}

pub open spec fn is_hex_digit(c: char) -> bool {
    ||| is_dec_digit(c)
    ||| 0x61 <= c as u32 <= 0x66
    ||| 0x41 <= c as u32 <= 0x46
}

pub open spec fn hex_digit_value(c: char) -> nat {
    if is_dec_digit(c) {
        dec_digit_value(c)
    } else if 0x61 <= c as u32 <= 0x66 {
        (c as u32 - 0x61 + 10) as nat
    } else {
        (c as u32 - 0x41 + 10) as nat
    }
}

/// The number that the decimal digits `s` write.
pub open spec fn dec_value(s: Seq<char>) -> nat
    decreases s.len(),
{
    if s.len() == 0 {
        0
    } else {
        dec_value(s.drop_last()) * 10 + dec_digit_value(s.last())
    }
}

/// The number that the hexadecimal digits `s` write.
pub open spec fn hex_value(s: Seq<char>) -> nat
    decreases s.len(),
{
    if s.len() == 0 {
        0
    } else {
        hex_value(s.drop_last()) * 16 + hex_digit_value(s.last())
    }
}

/// Whether every character of `s` is a decimal digit.
pub open spec fn all_dec_digits(s: Seq<char>) -> bool {
    forall|i: int| 0 <= i < s.len() ==> is_dec_digit(#[trigger] s[i])
}

/// The character code with ASCII capitals folded to small letters.
pub open spec fn ascii_fold(c: char) -> u32 {
    if 0x41 <= c as u32 <= 0x5a {
        (c as u32 + 0x20) as u32
    } else {
        c as u32
    }
}

/// Whether `a` and `b` are the same text up to ASCII case, as
/// `str::eq_ignore_ascii_case` answers.
pub open spec fn eq_ignore_ascii_case(a: Seq<char>, b: Seq<char>) -> bool {
    &&& a.len() == b.len()
    &&& forall|i: int| 0 <= i < a.len() ==> ascii_fold(#[trigger] a[i]) == ascii_fold(b[i])
}

/// The text that `{:?}` writes for a string: the string quoted, with the
/// characters that need it escaped.
pub uninterp spec fn debug_quoted(s: Seq<char>) -> Seq<char>;

/// Whether `{:?}` writes every character of `s` as it is: printable ASCII
/// other than `"` and `\`.
pub open spec fn plain(s: Seq<char>) -> bool {
    forall|i: int|
        0 <= i < s.len() ==> 0x20 <= #[trigger] s[i] as u32 <= 0x7e && s[i] != '"' && s[i]
            != '\\'
}

/// The text `s` quoted as `{:?}` writes it: plain text between double quotes
/// as it is; any other as `debug_quoted` names it.
pub open spec fn quote(s: Seq<char>) -> Seq<char> {
    if plain(s) {
        seq!['"'] + s + seq!['"']
    } else {
        debug_quoted(s)
    }
}

/// Writes the text as `format!("{:?}", text)` does: `str`'s `Debug`, which
/// puts the text in double quotes and escapes the characters that need it,
/// leaving printable ASCII other than `"` and `\` as it is. Beyond that, the
/// escaping is named `debug_quoted` of the characters and not written out.
#[verifier::external_body]
pub(crate) fn quoted(text: &Vec<char>) -> (out: String)
    ensures
        out@ == debug_quoted(text@),
        plain(text@) ==> out@ == seq!['"'] + text@ + seq!['"'],
{
    let text: String = text.iter().collect();
    format!("{:?}", text)
}

/// A `String` holding exactly `chars` (`Iterator::collect` into a `String`).
#[verifier::external_body]
pub(crate) fn string_of(chars: &Vec<char>) -> (out: String)
    ensures
        out@ == chars@,
{
    chars.iter().collect()
}

/// The characters of `s`, in order.
pub(crate) fn chars_of(s: &str) -> (out: Vec<char>)
    ensures
        out@ == s@,
{
    let mut out: Vec<char> = Vec::new();
    for c in it: s.chars()
        invariant
            out@ == it.seq().take(it.index() as int),
    {
        out.push(c);
    }
    out
}

/// Whether two strings hold the same characters.
pub(crate) fn same_text(a: &str, b: &str) -> (same: bool)
    ensures
        same == (a@ == b@),
{
    let x = chars_of(a);
    let y = chars_of(b);
    if x.len() != y.len() {
        return false;
    }
    let mut i: usize = 0;
    while i < x.len()
        invariant
            x@ == a@,
            y@ == b@,
            x.len() == y.len(),
            i <= x.len(),
            forall|j: int| 0 <= j < i ==> x@[j] == y@[j],
        decreases x.len() - i,
    {
        if x[i] != y[i] {
            return false;
        }
        i = i + 1;
    }
    assert(x@ =~= y@);
    true
}

pub(crate) fn is_space_char(c: char) -> (r: bool)
    ensures
        r == is_space(c),
{
    let u = c as u32;
    (0x09 <= u && u <= 0x0d) || u == 0x20 || u == 0x85 || u == 0xa0 || u == 0x1680 || (0x2000
        <= u && u <= 0x200a) || u == 0x2028 || u == 0x2029 || u == 0x202f || u == 0x205f || u
        == 0x3000
}

pub(crate) fn is_dec_digit_char(c: char) -> (r: bool)
    ensures
        r == is_dec_digit(c),
{
    let u = c as u32;
    0x30 <= u && u <= 0x39
}

pub(crate) fn is_hex_digit_char(c: char) -> (r: bool)
    ensures
        r == is_hex_digit(c),
{
    let u = c as u32;
    (0x30 <= u && u <= 0x39) || (0x61 <= u && u <= 0x66) || (0x41 <= u && u <= 0x46)
}

pub(crate) fn hex_digit_of(c: char) -> (v: u32)
    requires
        is_hex_digit(c),
    ensures
        v == hex_digit_value(c),
        v < 16,
{
    let u = c as u32;
    if 0x30 <= u && u <= 0x39 {
        u - 0x30
    } else if 0x61 <= u && u <= 0x66 {
        u - 0x61 + 10
    } else {
        u - 0x41 + 10
    }
}

/// The characters `s[lo..hi]`.
pub(crate) fn slice(s: &Vec<char>, lo: usize, hi: usize) -> (out: Vec<char>)
    requires
        lo <= hi <= s.len(),
    ensures
        out@ == s@.subrange(lo as int, hi as int),
{
    let mut out: Vec<char> = Vec::new();
    let mut i = lo;
    while i < hi
        invariant
            lo <= i <= hi <= s.len(),
            out@ == s@.subrange(lo as int, i as int),
        decreases hi - i,
    {
        out.push(s[i]);
        i = i + 1;
        assert(out@ =~= s@.subrange(lo as int, i as int));
    }
    out
}

proof fn lemma_trim_start_skip(s: Seq<char>, i: int)
    requires
        0 <= i <= s.len(),
        forall|j: int| 0 <= j < i ==> is_space(#[trigger] s[j]),
    ensures
        trim_start(s) == trim_start(s.subrange(i, s.len() as int)),
    decreases i,
{
    if i > 0 {
        assert(s.drop_first().subrange(i - 1, s.drop_first().len() as int) =~= s.subrange(
            i,
            s.len() as int,
        ));
        lemma_trim_start_skip(s.drop_first(), i - 1);
    } else {
        assert(s.subrange(0, s.len() as int) =~= s);
    }
}

proof fn lemma_trim_end_take(s: Seq<char>, i: int)
    requires
        0 <= i <= s.len(),
        forall|j: int| i <= j < s.len() ==> is_space(#[trigger] s[j]),
    ensures
        trim_end(s) == trim_end(s.subrange(0, i)),
    decreases s.len() - i,
{
    if i < s.len() {
        assert(s.drop_last().subrange(0, i) =~= s.subrange(0, i));
        lemma_trim_end_take(s.drop_last(), i);
    } else {
        assert(s.subrange(0, i) =~= s);
    }
}

/// Whether every character of `s` is whitespace.
pub open spec fn all_space(s: Seq<char>) -> bool {
    forall|i: int| 0 <= i < s.len() ==> is_space(#[trigger] s[i])
}

/// Whitespace alone trims to nothing.
proof fn lemma_trim_start_all_space(s: Seq<char>)
    requires
        all_space(s),
    ensures
        trim_start(s) == Seq::<char>::empty(),
{
    lemma_trim_start_skip(s, s.len() as int);
    assert(s.subrange(s.len() as int, s.len() as int) =~= Seq::<char>::empty());
}

/// Trailing whitespace after `x` is still there once `x` is trimmed at the
/// front, unless nothing but whitespace is left.
proof fn lemma_trim_start_append(x: Seq<char>, b: Seq<char>)
    requires
        all_space(b),
    ensures
        trim_start(x + b) == if trim_start(x).len() > 0 {
            trim_start(x) + b
        } else {
            Seq::<char>::empty()
        },
    decreases x.len(),
{
    if x.len() == 0 {
        assert(x + b =~= b);
        lemma_trim_start_all_space(b);
    } else if is_space(x[0]) {
        assert((x + b).drop_first() =~= x.drop_first() + b);
        lemma_trim_start_append(x.drop_first(), b);
    }
}

/// Leading and trailing whitespace around `t` make no difference once the
/// text is trimmed.
pub proof fn lemma_trim_padding(a: Seq<char>, t: Seq<char>, b: Seq<char>)
    requires
        all_space(a),
        all_space(b),
    ensures
        trim(a + t + b) == trim(t),
{
    let s = a + t + b;
    lemma_trim_start_skip(s, a.len() as int);
    assert(s.subrange(a.len() as int, s.len() as int) =~= t + b);
    lemma_trim_start_append(t, b);
    if trim_start(t).len() > 0 {
        let u = trim_start(t);
        lemma_trim_end_take(u + b, u.len() as int);
        assert((u + b).subrange(0, u.len() as int) =~= u);
    }
}

/// Text with no whitespace in it trims to itself.
pub proof fn lemma_trim_no_space(t: Seq<char>)
    requires
        forall|i: int| 0 <= i < t.len() ==> !is_space(#[trigger] t[i]),
    ensures
        trim(t) == t,
{
}

/// `s` without leading and trailing whitespace.
pub(crate) fn trimmed(s: &Vec<char>) -> (out: Vec<char>)
    ensures
        out@ == trim(s@),
{
    let mut lo: usize = 0;
    while lo < s.len() && is_space_char(s[lo])
        invariant
            lo <= s.len(),
            forall|j: int| 0 <= j < lo ==> is_space(#[trigger] s@[j]),
        decreases s.len() - lo,
    {
        lo = lo + 1;
    }
    proof {
        lemma_trim_start_skip(s@, lo as int);
    }
    let ghost rest = s@.subrange(lo as int, s.len() as int);
    assert(trim_start(rest) == rest);
    let mut hi: usize = s.len();
    while hi > lo && is_space_char(s[hi - 1])
        invariant
            lo <= hi <= s.len(),
            rest == s@.subrange(lo as int, s.len() as int),
            forall|j: int| hi <= j < s.len() ==> is_space(#[trigger] s@[j]),
        decreases hi,
    {
        hi = hi - 1;
    }
    proof {
        assert forall|j: int| (hi - lo) <= j < rest.len() implies is_space(#[trigger] rest[j]) by {
            assert(rest[j] == s@[j + lo]);
        }
        lemma_trim_end_take(rest, hi - lo);
        assert(rest.subrange(0, hi - lo) =~= s@.subrange(lo as int, hi as int));
    }
    slice(s, lo, hi)
}

/// `s` without any leading or trailing `c`.
pub(crate) fn stripped(s: &Vec<char>, c: char) -> (out: Vec<char>)
    ensures
        out@ == strip_all(s@, c),
{
    let mut lo: usize = 0;
    let mut hi: usize = s.len();
    assert(s@.subrange(0, s.len() as int) =~= s@);
    while lo < hi && (s[lo] == c || s[hi - 1] == c)
        invariant
            lo <= hi <= s.len(),
            strip_all(s@, c) == strip_all(s@.subrange(lo as int, hi as int), c),
        decreases hi - lo,
    {
        let ghost cur = s@.subrange(lo as int, hi as int);
        if s[lo] == c {
            assert(cur.drop_first() =~= s@.subrange(lo + 1, hi as int));
            lo = lo + 1;
        } else {
            assert(cur.drop_last() =~= s@.subrange(lo as int, hi - 1));
            hi = hi - 1;
        }
    }
    slice(s, lo, hi)
}

/// The texts the vectors hold.
pub open spec fn views(v: Seq<Vec<char>>) -> Seq<Seq<char>> {
    v.map_values(|x: Vec<char>| x@)
}

/// The pieces of `s` between the occurrences of `sep`.
pub(crate) fn split_at_each(s: &Vec<char>, sep: char) -> (out: Vec<Vec<char>>)
    ensures
        views(out@) == split(s@, sep),
{
    let mut done: Vec<Vec<char>> = Vec::new();
    let mut cur: Vec<char> = Vec::new();
    let mut i: usize = 0;
    while i < s.len()
        invariant
            i <= s.len(),
            done@.len() + 1 == split(s@.take(i as int), sep).len(),
            forall|k: int|
                0 <= k < done@.len() ==> #[trigger] done@[k]@ == split(s@.take(i as int), sep)[k],
            cur@ == split(s@.take(i as int), sep).last(),
        decreases s.len() - i,
    {
        let ghost before = s@.take(i as int);
        assert(s@.take(i + 1).drop_last() =~= before);
        if s[i] == sep {
            done.push(cur);
            cur = Vec::new();
        } else {
            cur.push(s[i]);
        }
        i = i + 1;
    }
    assert(s@.take(s.len() as int) =~= s@);
    done.push(cur);
    assert(views(done@) =~= split(s@, sep));
    done
}

/// `split` always gives at least one piece.
pub(crate) proof fn lemma_split_len(s: Seq<char>, sep: char)
    ensures
        split(s, sep).len() >= 1,
    decreases s.len(),
{
    if s.len() > 0 {
        lemma_split_len(s.drop_last(), sep);
    }
}

/// Text without the separator, appended, lengthens the last piece.
pub(crate) proof fn lemma_split_append(x: Seq<char>, y: Seq<char>, sep: char)
    requires
        forall|i: int| 0 <= i < y.len() ==> #[trigger] y[i] != sep,
    ensures
        split(x + y, sep) == split(x, sep).update(
            split(x, sep).len() - 1,
            split(x, sep).last() + y,
        ),
    decreases y.len(),
{
    lemma_split_len(x, sep);
    if y.len() == 0 {
        assert(x + y =~= x);
        assert(split(x, sep).last() + y =~= split(x, sep).last());
        assert(split(x, sep).update(split(x, sep).len() - 1, split(x, sep).last()) =~= split(
            x,
            sep,
        ));
    } else {
        let s = x + y;
        assert(s.drop_last() =~= x + y.drop_last());
        assert(s.last() == y.last());
        lemma_split_append(x, y.drop_last(), sep);
        assert((split(x, sep).last() + y.drop_last()).push(y.last()) =~= split(x, sep).last() + y);
        assert(split(s, sep) =~= split(x, sep).update(
            split(x, sep).len() - 1,
            split(x, sep).last() + y,
        ));
    }
}

/// A separator between two texts splits them apart: the pieces of the one,
/// then those of the other.
pub(crate) proof fn lemma_split_concat(x: Seq<char>, y: Seq<char>, sep: char)
    ensures
        split(x.push(sep) + y, sep) == split(x, sep) + split(y, sep),
    decreases y.len(),
{
    let s = x.push(sep) + y;
    if y.len() == 0 {
        assert(s =~= x.push(sep));
        assert(s.drop_last() =~= x);
        assert(split(y, sep) == seq![Seq::<char>::empty()]);
        assert(split(x, sep).push(Seq::<char>::empty()) =~= split(x, sep) + split(y, sep));
    } else {
        assert(s.drop_last() =~= x.push(sep) + y.drop_last());
        assert(s.last() == y.last());
        lemma_split_concat(x, y.drop_last(), sep);
        lemma_split_len(y.drop_last(), sep);
        let a = split(x, sep);
        let b = split(y.drop_last(), sep);
        if y.last() == sep {
            assert((a + b).push(Seq::<char>::empty()) =~= a + b.push(Seq::<char>::empty()));
        } else {
            assert((a + b).update((a + b).len() - 1, (a + b).last().push(y.last())) =~= a
                + b.update(b.len() - 1, b.last().push(y.last())));
        }
    }
}

/// Text without the separator is one piece.
pub(crate) proof fn lemma_split_whole(x: Seq<char>, sep: char)
    requires
        forall|i: int| 0 <= i < x.len() ==> #[trigger] x[i] != sep,
    ensures
        split(x, sep) == seq![x],
{
    lemma_split_append(Seq::empty(), x, sep);
    assert(Seq::<char>::empty() + x =~= x);
    assert(split(Seq::<char>::empty(), sep) == seq![Seq::<char>::empty()]);
    assert(seq![Seq::<char>::empty()].update(0, Seq::<char>::empty() + x) =~= seq![x]);
}

/// A separator appended starts a new, empty piece.
pub(crate) proof fn lemma_split_separator(x: Seq<char>, sep: char)
    ensures
        split(x.push(sep), sep) == split(x, sep).push(Seq::<char>::empty()),
{
    assert(x.push(sep).drop_last() =~= x);
}

/// The position of the first `c` in `s`.
pub(crate) fn find_first(s: &Vec<char>, c: char) -> (out: Option<usize>)
    ensures
        match out {
            Some(i) => first_index(s@, c) == Some(i as int),
            None => first_index(s@, c) is None,
        },
{
    let mut i: usize = 0;
    while i < s.len()
        invariant
            i <= s.len(),
            first_index(s@.take(i as int), c) is None,
        decreases s.len() - i,
    {
        assert(s@.take(i + 1).drop_last() =~= s@.take(i as int));
        if s[i] == c {
            proof {
                lemma_first_index_prefix(s@, i as int + 1, c);
            }
            return Some(i);
        }
        i = i + 1;
    }
    assert(s@.take(s.len() as int) =~= s@);
    None
}

/// A first occurrence within a prefix is the first occurrence in the whole.
proof fn lemma_first_index_prefix(s: Seq<char>, n: int, c: char)
    requires
        0 <= n <= s.len(),
        first_index(s.take(n), c) is Some,
    ensures
        first_index(s, c) == first_index(s.take(n), c),
    decreases s.len() - n,
{
    if n < s.len() {
        assert(s.take(n + 1).drop_last() =~= s.take(n));
        lemma_first_index_prefix(s, n + 1, c);
    } else {
        assert(s.take(n) =~= s);
    }
}

/// What `first_index` means: the position holds `c` and no earlier one does.
pub(crate) proof fn lemma_first_index(s: Seq<char>, c: char)
    ensures
        match first_index(s, c) {
            Some(i) => 0 <= i < s.len() && s[i] == c && forall|j: int| 0 <= j < i ==> s[j] != c,
            None => forall|j: int| 0 <= j < s.len() ==> s[j] != c,
        },
    decreases s.len(),
{
    if s.len() > 0 {
        lemma_first_index(s.drop_last(), c);
        assert forall|j: int| 0 <= j < s.len() - 1 implies s[j] == s.drop_last()[j] by {}
    }
}

/// Whether `a` and `b` are the same text up to ASCII case.
pub(crate) fn same_ignoring_ascii_case(a: &Vec<char>, b: &Vec<char>) -> (same: bool)
    ensures
        same == eq_ignore_ascii_case(a@, b@),
{
    if a.len() != b.len() {
        return false;
    }
    let mut i: usize = 0;
    while i < a.len()
        invariant
            a.len() == b.len(),
            i <= a.len(),
            forall|j: int| 0 <= j < i ==> ascii_fold(#[trigger] a@[j]) == ascii_fold(b@[j]),
        decreases a.len() - i,
    {
        let x = a[i] as u32;
        let y = b[i] as u32;
        let fx = if 0x41 <= x && x <= 0x5a {
            x + 0x20
        } else {
            x
        };
        let fy = if 0x41 <= y && y <= 0x5a {
            y + 0x20
        } else {
            y
        };
        if fx != fy {
            return false;
        }
        i = i + 1;
    }
    true
}

} // verus!
