//! Small string utilities shared by the statistics engine and the snapshot
//! codec: decimal rendering of integers, character-wise string building, and
//! ordinal (code-point) string comparison.

use vstd::prelude::*;

verus! {

/// Relies on `String::push` of std: appends the given char to the end of the
/// string.
pub assume_specification[ String::push ](s: &mut String, ch: char)
    ensures
        final(s)@ == old(s)@.push(ch),
;

/// The decimal digit character for a value in 0..=9.
pub open spec fn spec_digit_char(d: int) -> char {
    if d == 0 {
        '0'
    } else if d == 1 {
        '1'
    } else if d == 2 {
        '2'
    } else if d == 3 {
        '3'
    } else if d == 4 {
        '4'
    } else if d == 5 {
        '5'
    } else if d == 6 {
        '6'
    } else if d == 7 {
        '7'
    } else if d == 8 {
        '8'
    } else {
        '9'
    }
}

/// Decimal digits of a non-negative integer, most significant first, with no
/// leading zeros (a single `'0'` for zero).
pub open spec fn spec_dec_nat(n: int) -> Seq<char>
    decreases n,
{
    if n < 10 {
        seq![spec_digit_char(n)]
    } else {
        spec_dec_nat(n / 10).push(spec_digit_char(n % 10))
    }
}

/// Decimal rendering of a signed integer: a leading `'-'` for negatives.
pub open spec fn spec_dec_int(n: int) -> Seq<char> {
    if n < 0 {
        seq!['-'] + spec_dec_nat(-n)
    } else {
        spec_dec_nat(n)
    }
}

fn digit_char(d: u128) -> (c: char)
    requires
        d < 10,
    ensures
        c == spec_digit_char(d as int),
{
    match d {
        0 => '0',
        1 => '1',
        2 => '2',
        3 => '3',
        4 => '4',
        5 => '5',
        6 => '6',
        7 => '7',
        8 => '8',
        _ => '9',
    }
}

/// Appends the decimal digits of `n` to `out`.
pub fn push_dec_u128(out: &mut Vec<char>, n: u128)
    ensures
        final(out)@ == old(out)@ + spec_dec_nat(n as int),
    decreases n,
{
    if n < 10 {
        let c = digit_char(n);
        out.push(c);
        assert(final(out)@ =~= old(out)@ + spec_dec_nat(n as int));
    } else {
        push_dec_u128(out, n / 10);
        let c = digit_char(n % 10);
        out.push(c);
        assert(final(out)@ =~= old(out)@ + spec_dec_nat(n as int));
    }
}

/// Appends the decimal rendering of a signed 64-bit value to `out`.
pub fn push_dec_i64(out: &mut Vec<char>, n: i64)
    ensures
        final(out)@ == old(out)@ + spec_dec_int(n as int),
{
    if n >= 0 {
        push_dec_u128(out, n as u128);
    } else {
        out.push('-');
        let wide: i128 = n as i128;
        let mag: u128 = (-wide) as u128;
        assert(mag as int == -(n as int));
        push_dec_u128(out, mag);
        assert(final(out)@ =~= old(out)@ + spec_dec_int(n as int));
    }
}

/// Appends every character of `s` to `out`.
pub fn push_str_chars(out: &mut Vec<char>, s: &str)
    ensures
        final(out)@ == old(out)@ + s@,
{
    let ghost orig: Seq<char> = out@;
    let n = s.unicode_len();
    let mut i: usize = 0;
    while i < n
        invariant
            n == s@.len(),
            i <= n,
            out@ == orig + s@.subrange(0, i as int),
        decreases n - i,
    {
        let c = s.get_char(i);
        out.push(c);
        assert(s@.subrange(0, i + 1 as int) =~= s@.subrange(0, i as int).push(s@[i as int]));
        i += 1;
    }
    assert(s@.subrange(0, n as int) =~= s@);
}

/// Builds a `String` holding exactly the characters of `v`.
pub fn chars_to_string(v: &Vec<char>) -> (s: String)
    ensures
        s@ == v@,
{
    let mut s = String::new();
    let mut i: usize = 0;
    while i < v.len()
        invariant
            i <= v.len(),
            s@ == v@.subrange(0, i as int),
        decreases v.len() - i,
    {
        s.push(v[i]);
        assert(v@.subrange(0, i + 1 as int) =~= v@.subrange(0, i as int).push(v@[i as int]));
        i += 1;
    }
    assert(v@.subrange(0, v@.len() as int) =~= v@);
    s
}

/// Ordinal comparison of the suffixes of `a` and `b` that start at `i`:
/// true when `a`'s suffix sorts at or before `b`'s by code point, the empty
/// suffix first.
pub open spec fn spec_str_le_from(a: Seq<char>, b: Seq<char>, i: int) -> bool
    decreases a.len() - i,
{
    if i >= a.len() {
        true
    } else if i >= b.len() {
        false
    } else if a[i] == b[i] {
        spec_str_le_from(a, b, i + 1)
    } else {
        (a[i] as u32) < (b[i] as u32)
    }
}

/// Ordinal (code-point lexicographic) order on strings.
pub open spec fn spec_str_le(a: Seq<char>, b: Seq<char>) -> bool {
    spec_str_le_from(a, b, 0)
}

/// Compares two strings in ordinal (code-point) order.
pub fn str_le(a: &str, b: &str) -> (r: bool)
    ensures
        r == spec_str_le(a@, b@),
{
    let an = a.unicode_len();
    let bn = b.unicode_len();
    let mut i: usize = 0;
    loop
        invariant
            an == a@.len(),
            bn == b@.len(),
            i <= an,
            i <= bn,
            spec_str_le(a@, b@) == spec_str_le_from(a@, b@, i as int),
        decreases an - i,
    {
        if i >= an {
            return true;
        }
        if i >= bn {
            return false;
        }
        let ca = a.get_char(i);
        let cb = b.get_char(i);
        if ca == cb {
            i += 1;
        } else {
            return (ca as u32) < (cb as u32);
        }
    }
}

/// The order is total: one of the two directions always holds.
pub proof fn lemma_str_le_total(a: Seq<char>, b: Seq<char>)
    ensures
        spec_str_le(a, b) || spec_str_le(b, a),
{
    lemma_str_le_from_total(a, b, 0);
}

proof fn lemma_str_le_from_total(a: Seq<char>, b: Seq<char>, i: int)
    ensures
        spec_str_le_from(a, b, i) || spec_str_le_from(b, a, i),
    decreases a.len() - i,
{
    if i >= a.len() || i >= b.len() {
    } else if a[i] == b[i] {
        lemma_str_le_from_total(a, b, i + 1);
    } else {
        vstd::utf8::char_u32_cast(a[i], a[i] as u32);
        vstd::utf8::char_u32_cast(b[i], b[i] as u32);
    }
}

/// Both directions together force equality.
pub proof fn lemma_str_le_antisym(a: Seq<char>, b: Seq<char>)
    requires
        spec_str_le(a, b),
        spec_str_le(b, a),
    ensures
        a == b,
{
    lemma_str_le_from_antisym(a, b, 0);
    assert(a =~= b);
}

proof fn lemma_str_le_from_antisym(a: Seq<char>, b: Seq<char>, i: int)
    requires
        0 <= i <= a.len(),
        i <= b.len(),
        spec_str_le_from(a, b, i),
        spec_str_le_from(b, a, i),
    ensures
        a.len() == b.len(),
        forall|j: int| i <= j < a.len() ==> a[j] == b[j],
    decreases a.len() - i,
{
    if i >= a.len() || i >= b.len() {
    } else if a[i] == b[i] {
        lemma_str_le_from_antisym(a, b, i + 1);
    }
}

/// The order is transitive.
pub proof fn lemma_str_le_trans(a: Seq<char>, b: Seq<char>, c: Seq<char>)
    requires
        spec_str_le(a, b),
        spec_str_le(b, c),
    ensures
        spec_str_le(a, c),
{
    lemma_str_le_from_trans(a, b, c, 0);
}

proof fn lemma_str_le_from_trans(a: Seq<char>, b: Seq<char>, c: Seq<char>, i: int)
    requires
        spec_str_le_from(a, b, i),
        spec_str_le_from(b, c, i),
    ensures
        spec_str_le_from(a, c, i),
    decreases a.len() - i,
{
    if i >= a.len() {
    } else if i >= b.len() {
    } else if i >= c.len() {
    } else if a[i] == b[i] && b[i] == c[i] {
        lemma_str_le_from_trans(a, b, c, i + 1);
    }
}

} // verus!
