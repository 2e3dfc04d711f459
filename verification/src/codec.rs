//! The snapshot codec: renders a snapshot to its canonical JSON text and
//! parses such text back. The grammar is the persisted structure — routes
//! keyed by identifier with tick arrays, plus the three taxonomy catalogs.
//! The parser accepts exactly the canonical rendering; importing anything a
//! rendering produced reconstructs the snapshot exactly, and malformed text
//! is rejected so a caller can leave its state untouched.

use vstd::prelude::*;
use crate::ledger::{Snapshot, SnapshotView};
use crate::order::EntryView;
use crate::route::{Route, RouteView, Tick, TickKind};
use crate::strutil::{push_dec_i64, push_dec_u128, push_str_chars, spec_dec_int, spec_dec_nat};
use crate::taxonomy::{CatView, SettingsView, TaxView};

verus! {

// ---------------------------------------------------------------------------
// characters: decimal digits, hex digits, escapes
// ---------------------------------------------------------------------------

/// `c` is a decimal digit.
pub open spec fn spec_is_digit(c: char) -> bool {
    c == '0' || c == '1' || c == '2' || c == '3' || c == '4' || c == '5' || c == '6' || c == '7'
        || c == '8' || c == '9'
}

/// The value of a decimal digit character.
pub open spec fn spec_digit_val(c: char) -> int {
    if c == '0' {
        0
    } else if c == '1' {
        1
    } else if c == '2' {
        2
    } else if c == '3' {
        3
    } else if c == '4' {
        4
    } else if c == '5' {
        5
    } else if c == '6' {
        6
    } else if c == '7' {
        7
    } else if c == '8' {
        8
    } else {
        9
    }
}

/// The lowercase hex digit character for a value in 0..=15.
pub open spec fn spec_hex_char(d: int) -> char {
    if d < 10 {
        crate::strutil::spec_digit_char(d)
    } else if d == 10 {
        'a'
    } else if d == 11 {
        'b'
    } else if d == 12 {
        'c'
    } else if d == 13 {
        'd'
    } else if d == 14 {
        'e'
    } else {
        'f'
    }
}

/// How one character is written inside a JSON string: quotes and backslashes
/// get a backslash escape, control characters a `\u00xx` escape, everything
/// else stands as itself.
pub open spec fn spec_esc_char(c: char) -> Seq<char> {
    if c == '"' {
        seq!['\\', '"']
    } else if c == '\\' {
        seq!['\\', '\\']
    } else if (c as u32) < 0x20 {
        seq![
            '\\',
            'u',
            '0',
            '0',
            spec_hex_char((c as u32) as int / 16),
            spec_hex_char((c as u32) as int % 16),
        ]
    } else {
        seq![c]
    }
}

/// The escaped body of a JSON string.
pub open spec fn spec_esc(s: Seq<char>) -> Seq<char>
    decreases s.len(),
{
    if s.len() == 0 {
        Seq::empty()
    } else {
        spec_esc_char(s[0]) + spec_esc(s.drop_first())
    }
}

/// A complete JSON string token.
pub open spec fn spec_json_string(s: Seq<char>) -> Seq<char> {
    seq!['"'] + spec_esc(s) + seq!['"']
}

/// Every character of a decimal rendering is a digit.
proof fn lemma_dec_nat_digits(n: int)
    requires
        n >= 0,
    ensures
        spec_dec_nat(n).len() >= 1,
        forall|k: int| 0 <= k < spec_dec_nat(n).len() ==> spec_is_digit(#[trigger] spec_dec_nat(n)[k]),
    decreases n,
{
    if n < 10 {
        lemma_digit_char_val(n);
    } else {
        lemma_dec_nat_digits(n / 10);
        lemma_digit_char_val(n % 10);
        assert(spec_dec_nat(n) == spec_dec_nat(n / 10).push(
            crate::strutil::spec_digit_char(n % 10),
        ));
    }
}

/// The value a digit string folds back to.
pub open spec fn spec_digits_val(d: Seq<char>) -> int
    decreases d.len(),
{
    if d.len() == 0 {
        0
    } else {
        spec_digits_val(d.drop_last()) * 10 + spec_digit_val(d.last())
    }
}

proof fn lemma_digits_val_nonneg(d: Seq<char>)
    requires
        forall|k: int| 0 <= k < d.len() ==> spec_is_digit(#[trigger] d[k]),
    ensures
        spec_digits_val(d) >= 0,
    decreases d.len(),
{
    if d.len() > 0 {
        lemma_digits_val_nonneg(d.drop_last());
    }
}

proof fn lemma_digit_char_val(d: int)
    requires
        0 <= d < 10,
    ensures
        spec_digit_val(crate::strutil::spec_digit_char(d)) == d,
        spec_is_digit(crate::strutil::spec_digit_char(d)),
{
    if d == 0 {
    } else if d == 1 {
    } else if d == 2 {
    } else if d == 3 {
    } else if d == 4 {
    } else if d == 5 {
    } else if d == 6 {
    } else if d == 7 {
    } else if d == 8 {
    } else {
    }
}

/// Folding the decimal rendering of `n` gives `n` back.
proof fn lemma_digits_val_of_dec(n: int)
    requires
        n >= 0,
    ensures
        spec_digits_val(spec_dec_nat(n)) == n,
    decreases n,
{
    if n < 10 {
        lemma_digit_char_val(n);
        assert(spec_digits_val(Seq::<char>::empty()) == 0);
        assert(spec_dec_nat(n) == seq![crate::strutil::spec_digit_char(n)]);
        assert(spec_dec_nat(n).drop_last() =~= Seq::<char>::empty());
        assert(spec_dec_nat(n).last() == crate::strutil::spec_digit_char(n));
    } else {
        lemma_digits_val_of_dec(n / 10);
        lemma_digit_char_val(n % 10);
        assert(spec_dec_nat(n).drop_last() =~= spec_dec_nat(n / 10));
        assert(spec_dec_nat(n).last() == crate::strutil::spec_digit_char(n % 10));
        assert(spec_digits_val(spec_dec_nat(n)) == (n / 10) * 10 + n % 10);
    }
}

fn hex_char(d: u32) -> (c: char)
    requires
        d < 16,
    ensures
        c == spec_hex_char(d as int),
{
    match d {
        0 => '0',
        1 => '1',
        2 => '2',
        3 => '3',
        4 => '4',
        5 => '5',
        6 => '6',
        7 => '7',
        8 => '8',
        9 => '9',
        10 => 'a',
        11 => 'b',
        12 => 'c',
        13 => 'd',
        14 => 'e',
        _ => 'f',
    }
}

fn digit_val(c: char) -> (r: Option<u8>)
    ensures
        match r {
            Some(d) => spec_is_digit(c) && d < 10 && d as int == spec_digit_val(c),
            None => !spec_is_digit(c),
        },
{
    match c {
        '0' => Some(0),
        '1' => Some(1),
        '2' => Some(2),
        '3' => Some(3),
        '4' => Some(4),
        '5' => Some(5),
        '6' => Some(6),
        '7' => Some(7),
        '8' => Some(8),
        '9' => Some(9),
        _ => None,
    }
}

fn hex_val(c: char) -> (r: Option<u8>)
    ensures
        match r {
            Some(d) => d < 16 && c == spec_hex_char(d as int),
            None => forall|d: int| 0 <= d < 16 ==> c != spec_hex_char(d),
        },
{
    match c {
        '0' => Some(0),
        '1' => Some(1),
        '2' => Some(2),
        '3' => Some(3),
        '4' => Some(4),
        '5' => Some(5),
        '6' => Some(6),
        '7' => Some(7),
        '8' => Some(8),
        '9' => Some(9),
        'a' => Some(10),
        'b' => Some(11),
        'c' => Some(12),
        'd' => Some(13),
        'e' => Some(14),
        'f' => Some(15),
        _ => None,
    }
}

// ---------------------------------------------------------------------------
// emitting
// ---------------------------------------------------------------------------

/// Appends the escaped body and quotes of `s` as a JSON string token.
pub fn emit_json_string(out: &mut Vec<char>, s: &String)
    ensures
        final(out)@ == old(out)@ + spec_json_string(s@),
{
    let ghost target = old(out)@ + seq!['"'] + spec_esc(s@);
    out.push('"');
    let n = s.as_str().unicode_len();
    proof {
        assert(s@.subrange(0, n as int) =~= s@);
        assert(out@ + spec_esc(s@.subrange(0, n as int)) =~= target);
    }
    let mut i: usize = 0;
    while i < n
        invariant
            n == s@.len(),
            i <= n,
            out@ + spec_esc(s@.subrange(i as int, n as int)) == target,
        decreases n - i,
    {
        proof {
            assert(s@.subrange(i as int, n as int).drop_first() =~= s@.subrange(i + 1, n as int));
            assert(s@.subrange(i as int, n as int)[0] == s@[i as int]);
        }
        let c = s.as_str().get_char(i);
        let ghost before = out@;
        if c == '"' {
            out.push('\\');
            out.push('"');
            assert(out@ =~= before + spec_esc_char(s@[i as int]));
        } else if c == '\\' {
            out.push('\\');
            out.push('\\');
            assert(out@ =~= before + spec_esc_char(s@[i as int]));
        } else {
            let u = c as u32;
            if u < 0x20 {
                out.push('\\');
                out.push('u');
                out.push('0');
                out.push('0');
                let h = hex_char(u / 16);
                out.push(h);
                let l = hex_char(u % 16);
                out.push(l);
                assert(out@ =~= before + spec_esc_char(s@[i as int]));
            } else {
                out.push(c);
                assert(out@ =~= before + spec_esc_char(s@[i as int]));
            }
        }
        proof {
            assert(out@ + spec_esc(s@.subrange(i + 1, n as int)) =~= target);
        }
        i += 1;
    }
    proof {
        assert(s@.subrange(n as int, n as int) =~= Seq::<char>::empty());
        assert(out@ =~= target);
    }
    out.push('"');
    proof {
        assert(out@ =~= old(out)@ + spec_json_string(s@));
    }
}

// ---------------------------------------------------------------------------
// parsing primitives
// ---------------------------------------------------------------------------

/// The suffix of `s` that starts at `i`.
pub open spec fn suffix(s: Seq<char>, i: int) -> Seq<char> {
    s.subrange(i, s.len() as int)
}

/// At position `i`, the input continues with the digits of `n` and then
/// `rest`.
pub open spec fn num_at(s: Seq<char>, i: int, n: int, rest: Seq<char>) -> bool {
    suffix(s, i) == spec_dec_nat(n) + rest
}

/// At position `i`, the input continues with the signed decimal rendering
/// of `n` and then `rest`.
pub open spec fn int_at(s: Seq<char>, i: int, n: int, rest: Seq<char>) -> bool {
    suffix(s, i) == spec_dec_int(n) + rest
}

/// At position `i`, the input continues with the escaped body of `t`, a
/// closing quote, and then `rest`.
pub open spec fn str_body_at(s: Seq<char>, i: int, t: Seq<char>, rest: Seq<char>) -> bool {
    suffix(s, i) == spec_esc(t) + seq!['"'] + rest
}

/// At position `i`, the input continues with the JSON string token of `t`
/// and then `rest`.
pub open spec fn jstr_at(s: Seq<char>, i: int, t: Seq<char>, rest: Seq<char>) -> bool {
    suffix(s, i) == spec_json_string(t) + rest
}

/// Consumes the exact characters of `lit` at `i`. Succeeds if and only if
/// they are all there.
fn parse_lit(s: &Vec<char>, i: usize, lit: &str) -> (r: Option<usize>)
    requires
        i <= s.len(),
    ensures
        match r {
            Some(j) => i + lit@.len() == j && j <= s.len() && s@.subrange(i as int, j as int)
                == lit@,
            None => forall|rest: Seq<char>| suffix(s@, i as int) != lit@ + rest,
        },
{
    let n = lit.unicode_len();
    if n > s.len() - i {
        proof {
            assert forall|rest: Seq<char>| suffix(s@, i as int) != lit@ + rest by {
                assert(suffix(s@, i as int).len() == s@.len() - i);
            }
        }
        return None;
    }
    let mut k: usize = 0;
    while k < n
        invariant
            n == lit@.len(),
            i + n <= s.len(),
            k <= n,
            s@.subrange(i as int, i + k) == lit@.subrange(0, k as int),
        decreases n - k,
    {
        let c = s[i + k];
        let l = lit.get_char(k);
        if c != l {
            proof {
                assert forall|rest: Seq<char>| suffix(s@, i as int) != lit@ + rest by {
                    if suffix(s@, i as int) == lit@ + rest {
                        assert((lit@ + rest)[k as int] == lit@[k as int]);
                        assert(suffix(s@, i as int)[k as int] == s@[i + k]);
                    }
                }
            }
            return None;
        }
        proof {
            assert(s@.subrange(i as int, i + k + 1) =~= s@.subrange(i as int, i + k).push(
                s@[i + k],
            ));
            assert(lit@.subrange(0, k + 1) =~= lit@.subrange(0, k as int).push(lit@[k as int]));
        }
        k += 1;
    }
    proof {
        assert(lit@.subrange(0, n as int) =~= lit@);
    }
    Some(i + n)
}

/// Reads a run of decimal digits at `i` and folds it as a `u128`. On the
/// rendering of any `n` followed by a non-digit, this returns exactly `n`.
fn parse_u128(s: &Vec<char>, i: usize) -> (r: Option<(u128, usize)>)
    requires
        i <= s.len(),
    ensures
        match r {
            Some(p) => i < p.1 <= s.len(),
            None => true,
        },
        forall|n: u128, rest: Seq<char>|
            (#[trigger] num_at(s@, i as int, n as int, rest) && (rest.len() == 0 || !spec_is_digit(
                rest[0],
            ))) ==> (r matches Some(p) && p.0 == n && p.1 as int == i + spec_dec_nat(
                n as int,
            ).len()),
{
    let mut j: usize = i;
    let mut acc: u128 = 0;
    let mut over: bool = false;
    loop
        invariant
            i <= j <= s.len(),
            forall|k: int| i <= k < j ==> spec_is_digit(#[trigger] s@[k]),
            !over ==> acc as int == spec_digits_val(s@.subrange(i as int, j as int)),
            over ==> spec_digits_val(s@.subrange(i as int, j as int)) > u128::MAX,
            over ==> i < j,
        ensures
            i <= j <= s.len(),
            forall|k: int| i <= k < j ==> spec_is_digit(#[trigger] s@[k]),
            !over ==> acc as int == spec_digits_val(s@.subrange(i as int, j as int)),
            over ==> spec_digits_val(s@.subrange(i as int, j as int)) > u128::MAX,
            over ==> i < j,
            j == s.len() || !spec_is_digit(s@[j as int]),
        decreases s.len() - j,
    {
        if j == s.len() {
            break;
        }
        let c = s[j];
        match digit_val(c) {
            None => {
                break;
            },
            Some(d) => {
                proof {
                    assert(s@.subrange(i as int, j + 1).drop_last() =~= s@.subrange(
                        i as int,
                        j as int,
                    ));
                    assert(s@.subrange(i as int, j + 1).last() == s@[j as int]);
                    assert forall|k: int| i <= k < j + 1 implies spec_is_digit(
                        #[trigger] s@[k],
                    ) by {}
                }
                if !over {
                    if acc <= (u128::MAX - d as u128) / 10 {
                        proof {
                            assert(acc * 10 <= ((u128::MAX - d as u128) / 10) * 10 <= u128::MAX
                                - d) by (nonlinear_arith)
                                requires
                                    acc <= (u128::MAX - d as u128) / 10,
                                    d < 10,
                            ;
                        }
                        acc = acc * 10 + d as u128;
                    } else {
                        proof {
                            let v = spec_digits_val(s@.subrange(i as int, j as int));
                            assert(v * 10 + d > u128::MAX) by (nonlinear_arith)
                                requires
                                    v == acc as int,
                                    acc > (u128::MAX - d as u128) / 10,
                                    d < 10,
                            ;
                        }
                        over = true;
                    }
                } else {
                    proof {
                        let v = spec_digits_val(s@.subrange(i as int, j as int));
                        lemma_digits_val_nonneg(s@.subrange(i as int, j as int));
                        assert(v * 10 + spec_digit_val(s@[j as int]) >= v) by (nonlinear_arith)
                            requires
                                v >= 0,
                                spec_digit_val(s@[j as int]) >= 0,
                        ;
                    }
                }
                j += 1;
            },
        }
    }
    // after the scan: [i, j) are digits, and j is at the end or a non-digit
    assert(j == s.len() || !spec_is_digit(s@[j as int]));
    let ghost munched = s@.subrange(i as int, j as int);
    proof {
        assert forall|n: u128, rest: Seq<char>|
            (#[trigger] num_at(s@, i as int, n as int, rest) && (rest.len() == 0 || !spec_is_digit(
                rest[0],
            ))) implies (!over && j != i && acc == n && j == i + spec_dec_nat(
            n as int,
        ).len()) by {
            let d = spec_dec_nat(n as int);
            lemma_dec_nat_digits(n as int);
            assert(suffix(s@, i as int).len() == s@.len() - i);
            assert(suffix(s@, i as int).len() == d.len() + rest.len());
            assert(i + d.len() <= s@.len());
            // the scan stops exactly at the end of the rendered digits
            assert forall|k: int| i <= k < i + d.len() implies spec_is_digit(
                #[trigger] s@[k],
            ) by {
                assert((d + rest)[k - i] == d[k - i]);
                assert(s@[k] == suffix(s@, i as int)[k - i]);
                assert(spec_is_digit(d[k - i]));
            }
            if j < i + d.len() {
                assert(spec_is_digit(s@[j as int]));
                assert(false);
            }
            if j > i + d.len() {
                let b = i + d.len();
                if b < s.len() {
                    assert(s@[b] == (d + rest)[d.len() as int]);
                    assert(s@[b] == rest[0]);
                    assert(spec_is_digit(s@[b]));
                    assert(false);
                } else {
                    assert(false);
                }
            }
            assert(j == i + d.len());
            assert(munched =~= d) by {
                assert forall|k: int| 0 <= k < d.len() implies munched[k] == d[k] by {
                    assert(suffix(s@, i as int)[k] == d[k]);
                }
            }
            lemma_digits_val_of_dec(n as int);
            if over {
                assert(spec_digits_val(munched) > u128::MAX);
                assert(false);
            }
            assert(acc == n);
        }
    }
    if over || j == i {
        return None;
    }
    Some((acc, j))
}

proof fn lemma_hex_char_inj(d1: int, d2: int)
    requires
        0 <= d1 < 16,
        0 <= d2 < 16,
        spec_hex_char(d1) == spec_hex_char(d2),
    ensures
        d1 == d2,
{
}

/// Consuming a known prefix: when the suffix at `i` splits as `pre + tail`,
/// the suffix just past the prefix is exactly `tail`.
proof fn lemma_peel(s: Seq<char>, i: int, pre: Seq<char>, tail: Seq<char>)
    requires
        0 <= i <= s.len(),
        suffix(s, i) == pre + tail,
    ensures
        i + pre.len() <= s.len(),
        suffix(s, i + pre.len()) == tail,
{
    assert(suffix(s, i).len() == s.len() - i);
    assert forall|m: int| 0 <= m < tail.len() implies suffix(s, i + pre.len())[m] == tail[m] by {
        assert(suffix(s, i)[pre.len() + m] == (pre + tail)[pre.len() + m]);
        assert(suffix(s, i)[pre.len() + m] == s[i + pre.len() + m]);
        assert(suffix(s, i + pre.len())[m] == s[i + pre.len() + m]);
    }
    assert(suffix(s, i + pre.len()) =~= tail);
}

/// Decodes the escaped body of a JSON string up to its closing quote,
/// appending the decoded characters to `out`; returns the position after
/// the quote. On the escaped rendering of any `t`, this decodes exactly `t`.
fn parse_str_body(s: &Vec<char>, i: usize, out: &mut Vec<char>) -> (r: Option<usize>)
    requires
        i <= s.len(),
    ensures
        match r {
            Some(j) => i < j <= s.len(),
            None => true,
        },
        forall|t: Seq<char>, rest: Seq<char>|
            #[trigger] str_body_at(s@, i as int, t, rest) ==> (r matches Some(j) && j as int == i
                + spec_esc(t).len() + 1 && final(out)@ == old(out)@ + t),
    decreases s.len() - i,
{
    if i == s.len() {
        proof {
            assert forall|t: Seq<char>, rest: Seq<char>|
                #[trigger] str_body_at(s@, i as int, t, rest) implies false by {
                assert(suffix(s@, i as int).len() == 0);
            }
        }
        return None;
    }
    let c = s[i];
    proof {
        assert(suffix(s@, i as int)[0] == s@[i as int]);
    }
    if c == '"' {
        proof {
            assert forall|t: Seq<char>, rest: Seq<char>|
                #[trigger] str_body_at(s@, i as int, t, rest) implies t.len() == 0 by {
                if t.len() > 0 {
                    assert(spec_esc(t) == spec_esc_char(t[0]) + spec_esc(t.drop_first()));
                    assert((spec_esc(t) + seq!['"'] + rest)[0] == spec_esc_char(t[0])[0]);
                    assert(spec_esc_char(t[0])[0] != '"');
                }
            }
            assert forall|t: Seq<char>, rest: Seq<char>|
                #[trigger] str_body_at(s@, i as int, t, rest) implies out@ == old(out)@ + t by {
                assert(t.len() == 0);
                assert(out@ + t =~= out@);
            }
        }
        return Some(i + 1);
    }
    if c == '\\' {
        if i + 1 == s.len() {
            proof {
                assert forall|t: Seq<char>, rest: Seq<char>|
                    #[trigger] str_body_at(s@, i as int, t, rest) implies false by {
                    assert(suffix(s@, i as int).len() == 1);
                    if t.len() == 0 {
                        assert((spec_esc(t) + seq!['"'] + rest)[0] == '"');
                    } else {
                        assert(spec_esc(t) == spec_esc_char(t[0]) + spec_esc(t.drop_first()));
                        assert(spec_esc_char(t[0])[0] == s@[i as int]);
                        assert(spec_esc_char(t[0]).len() >= 2);
                        assert(suffix(s@, i as int).len() >= spec_esc_char(t[0]).len() + 1);
                    }
                }
            }
            return None;
        }
        let e = s[i + 1];
        proof {
            assert(suffix(s@, i as int)[1] == s@[i + 1]);
        }
        if e == '"' || e == '\\' {
            let decoded = if e == '"' {
                '"'
            } else {
                '\\'
            };
            out.push(decoded);
            let r2 = parse_str_body(s, i + 2, out);
            proof {
                assert forall|t: Seq<char>, rest: Seq<char>|
                    #[trigger] str_body_at(s@, i as int, t, rest) implies r2 matches Some(j)
                    && j as int == i + spec_esc(t).len() + 1 && final(out)@ == old(out)@ + t by {
                    if t.len() == 0 {
                        assert((spec_esc(t) + seq!['"'] + rest)[0] == '"');
                        assert(false);
                    }
                    assert(spec_esc(t) == spec_esc_char(t[0]) + spec_esc(t.drop_first()));
                    assert(spec_esc_char(t[0])[0] == s@[i as int]);
                    // the escape's second character identifies the class
                    assert(spec_esc_char(t[0]).len() >= 2 ==> (spec_esc(t) + seq!['"'] + rest)[1]
                        == spec_esc_char(t[0])[1]);
                    assert(t[0] == decoded);
                    assert(spec_esc_char(t[0]) =~= seq!['\\', decoded]);
                    assert(suffix(s@, i as int) =~= spec_esc_char(t[0]) + (spec_esc(t.drop_first())
                        + seq!['"'] + rest));
                    lemma_peel(
                        s@,
                        i as int,
                        spec_esc_char(t[0]),
                        spec_esc(t.drop_first()) + seq!['"'] + rest,
                    );
                    assert(str_body_at(s@, i + 2, t.drop_first(), rest));
                    assert(old(out)@ + t =~= old(out)@.push(decoded) + t.drop_first());
                    assert(spec_esc(t).len() == 2 + spec_esc(t.drop_first()).len());
                }
            }
            return r2;
        }
        if e == 'u' {
            if s.len() - i < 6 {
                proof {
                    assert forall|t: Seq<char>, rest: Seq<char>|
                        #[trigger] str_body_at(s@, i as int, t, rest) implies false by {
                        if t.len() == 0 {
                            assert((spec_esc(t) + seq!['"'] + rest)[0] == '"');
                        } else {
                            assert(spec_esc(t) == spec_esc_char(t[0]) + spec_esc(t.drop_first()));
                            assert(spec_esc_char(t[0])[0] == s@[i as int]);
                            assert(spec_esc_char(t[0]).len() >= 2 ==> (spec_esc(t) + seq!['"']
                                + rest)[1] == spec_esc_char(t[0])[1]);
                            assert(spec_esc_char(t[0]) == seq![
                                '\\',
                                'u',
                                '0',
                                '0',
                                spec_hex_char((t[0] as u32) as int / 16),
                                spec_hex_char((t[0] as u32) as int % 16),
                            ]);
                            assert(suffix(s@, i as int).len() >= 7);
                        }
                    }
                }
                return None;
            }
            let c2 = s[i + 2];
            let c3 = s[i + 3];
            let c4 = s[i + 4];
            let c5 = s[i + 5];
            proof {
                assert(suffix(s@, i as int)[2] == s@[i + 2]);
                assert(suffix(s@, i as int)[3] == s@[i + 3]);
                assert(suffix(s@, i as int)[4] == s@[i + 4]);
                assert(suffix(s@, i as int)[5] == s@[i + 5]);
            }
            let hi: u8 = if c4 == '0' {
                0
            } else if c4 == '1' {
                1
            } else {
                2
            };
            let lo = hex_val(c5);
            if c2 == '0' && c3 == '0' && hi < 2 && lo.is_some() {
                let lov = match lo {
                    Some(v) => v,
                    None => 0,
                };
                let v: u8 = hi * 16 + lov;
                if v < 0x20 {
                    let decoded = v as char;
                    out.push(decoded);
                    let r2 = parse_str_body(s, i + 6, out);
                    proof {
                        assert forall|t: Seq<char>, rest: Seq<char>|
                            #[trigger] str_body_at(s@, i as int, t, rest) implies r2 matches Some(
                            j,
                        ) && j as int == i + spec_esc(t).len() + 1 && final(out)@ == old(out)@
                            + t by {
                            if t.len() == 0 {
                                assert((spec_esc(t) + seq!['"'] + rest)[0] == '"');
                                assert(false);
                            }
                            assert(spec_esc(t) == spec_esc_char(t[0]) + spec_esc(t.drop_first()));
                            assert(spec_esc_char(t[0])[0] == s@[i as int]);
                            assert(spec_esc_char(t[0]).len() >= 2 ==> (spec_esc(t) + seq!['"']
                                + rest)[1] == spec_esc_char(t[0])[1]);
                            // only the control-character escape writes a 'u'
                            assert((t[0] as u32) < 0x20);
                            let tu = (t[0] as u32) as int;
                            assert(spec_esc_char(t[0]) == seq![
                                '\\',
                                'u',
                                '0',
                                '0',
                                spec_hex_char(tu / 16),
                                spec_hex_char(tu % 16),
                            ]);
                            assert((spec_esc(t) + seq!['"'] + rest)[4] == spec_hex_char(tu / 16));
                            assert((spec_esc(t) + seq!['"'] + rest)[5] == spec_hex_char(tu % 16));
                            assert(c4 == spec_hex_char(tu / 16));
                            assert(c5 == spec_hex_char(tu % 16));
                            assert(hi as int == tu / 16) by {
                                if tu / 16 == 0 {
                                } else {
                                    assert(tu / 16 == 1);
                                }
                            }
                            lemma_hex_char_inj(lov as int, tu % 16);
                            assert(v as int == tu);
                            assert(decoded == t[0]) by {
                                vstd::utf8::char_u32_cast(t[0], t[0] as u32);
                            }
                            assert(suffix(s@, i as int) =~= spec_esc_char(t[0]) + (spec_esc(
                                t.drop_first(),
                            ) + seq!['"'] + rest));
                            lemma_peel(
                                s@,
                                i as int,
                                spec_esc_char(t[0]),
                                spec_esc(t.drop_first()) + seq!['"'] + rest,
                            );
                            assert(str_body_at(s@, i + 6, t.drop_first(), rest));
                            assert(old(out)@ + t =~= old(out)@.push(decoded) + t.drop_first());
                            assert(spec_esc(t).len() == 6 + spec_esc(t.drop_first()).len());
                        }
                    }
                    return r2;
                }
            }
            proof {
                assert forall|t: Seq<char>, rest: Seq<char>|
                    #[trigger] str_body_at(s@, i as int, t, rest) implies false by {
                    if t.len() == 0 {
                        assert((spec_esc(t) + seq!['"'] + rest)[0] == '"');
                    } else {
                        assert(spec_esc(t) == spec_esc_char(t[0]) + spec_esc(t.drop_first()));
                        assert(spec_esc_char(t[0])[0] == s@[i as int]);
                        assert(spec_esc_char(t[0]).len() >= 2 ==> (spec_esc(t) + seq!['"'] + rest)[1]
                            == spec_esc_char(t[0])[1]);
                        assert((t[0] as u32) < 0x20);
                        let tu = (t[0] as u32) as int;
                        assert(spec_esc_char(t[0]) == seq![
                            '\\',
                            'u',
                            '0',
                            '0',
                            spec_hex_char(tu / 16),
                            spec_hex_char(tu % 16),
                        ]);
                        assert((spec_esc(t) + seq!['"'] + rest)[2] == '0');
                        assert((spec_esc(t) + seq!['"'] + rest)[3] == '0');
                        assert(c4 == spec_hex_char(tu / 16));
                        assert(c5 == spec_hex_char(tu % 16));
                        assert(tu / 16 == 0 || tu / 16 == 1);
                        assert(hi as int == tu / 16) by {
                            if tu / 16 == 0 {
                            } else {
                                assert(tu / 16 == 1);
                            }
                        }
                        assert(0 <= tu % 16 < 16);
                        if lo is Some {
                            let lov = lo->0;
                            lemma_hex_char_inj(lov as int, tu % 16);
                            assert(hi * 16 + lov < 0x20);
                            assert(false);
                        } else {
                            assert(c5 != spec_hex_char(tu % 16));
                            assert(false);
                        }
                    }
                }
            }
            return None;
        }
        proof {
            assert forall|t: Seq<char>, rest: Seq<char>|
                #[trigger] str_body_at(s@, i as int, t, rest) implies false by {
                if t.len() == 0 {
                    assert((spec_esc(t) + seq!['"'] + rest)[0] == '"');
                } else {
                    assert(spec_esc(t) == spec_esc_char(t[0]) + spec_esc(t.drop_first()));
                    assert(spec_esc_char(t[0])[0] == s@[i as int]);
                    assert(spec_esc_char(t[0]).len() >= 2 ==> (spec_esc(t) + seq!['"'] + rest)[1]
                        == spec_esc_char(t[0])[1]);
                }
            }
        }
        return None;
    }
    // a raw character: control characters must be escaped, so reject them
    let u = c as u32;
    if u < 0x20 {
        proof {
            assert forall|t: Seq<char>, rest: Seq<char>|
                #[trigger] str_body_at(s@, i as int, t, rest) implies false by {
                if t.len() == 0 {
                    assert((spec_esc(t) + seq!['"'] + rest)[0] == '"');
                } else {
                    assert(spec_esc(t) == spec_esc_char(t[0]) + spec_esc(t.drop_first()));
                    assert(spec_esc_char(t[0])[0] == s@[i as int]);
                }
            }
        }
        return None;
    }
    out.push(c);
    let r2 = parse_str_body(s, i + 1, out);
    proof {
        assert forall|t: Seq<char>, rest: Seq<char>|
            #[trigger] str_body_at(s@, i as int, t, rest) implies r2 matches Some(j) && j as int
            == i + spec_esc(t).len() + 1 && final(out)@ == old(out)@ + t by {
            if t.len() == 0 {
                assert((spec_esc(t) + seq!['"'] + rest)[0] == '"');
                assert(false);
            }
            assert(spec_esc(t) == spec_esc_char(t[0]) + spec_esc(t.drop_first()));
            assert(spec_esc_char(t[0])[0] == s@[i as int]);
            assert(t[0] == c);
            assert(spec_esc_char(t[0]) =~= seq![c]);
            assert(suffix(s@, i as int) =~= spec_esc_char(t[0]) + (spec_esc(t.drop_first())
                + seq!['"'] + rest));
            lemma_peel(
                s@,
                i as int,
                spec_esc_char(t[0]),
                spec_esc(t.drop_first()) + seq!['"'] + rest,
            );
            assert(str_body_at(s@, i + 1, t.drop_first(), rest));
            assert(old(out)@ + t =~= old(out)@.push(c) + t.drop_first());
            assert(spec_esc(t).len() == 1 + spec_esc(t.drop_first()).len());
        }
    }
    r2
}

/// Parses a complete JSON string token at `i`, returning its decoded
/// content. On the token of any `t` this returns exactly `t`.
fn parse_json_string(s: &Vec<char>, i: usize) -> (r: Option<(String, usize)>)
    requires
        i <= s.len(),
    ensures
        match r {
            Some(p) => i < p.1 <= s.len(),
            None => true,
        },
        forall|t: Seq<char>, rest: Seq<char>|
            #[trigger] jstr_at(s@, i as int, t, rest) ==> (r matches Some(p) && p.0@ == t
                && p.1 as int == i + spec_json_string(t).len()),
{
    if i == s.len() {
        proof {
            assert forall|t: Seq<char>, rest: Seq<char>|
                #[trigger] jstr_at(s@, i as int, t, rest) implies false by {
                assert(suffix(s@, i as int).len() == 0);
            }
        }
        return None;
    }
    let c = s[i];
    proof {
        assert(suffix(s@, i as int)[0] == s@[i as int]);
    }
    if c != '"' {
        proof {
            assert forall|t: Seq<char>, rest: Seq<char>|
                #[trigger] jstr_at(s@, i as int, t, rest) implies false by {
                assert((spec_json_string(t) + rest)[0] == '"');
            }
        }
        return None;
    }
    let mut buf: Vec<char> = Vec::new();
    let r2 = parse_str_body(s, i + 1, &mut buf);
    match r2 {
        Some(j) => {
            let text = crate::strutil::chars_to_string(&buf);
            proof {
                assert forall|t: Seq<char>, rest: Seq<char>|
                    #[trigger] jstr_at(s@, i as int, t, rest) implies text@ == t && j as int == i
                    + spec_json_string(t).len() by {
                    assert(suffix(s@, i as int) =~= seq!['"'] + (spec_esc(t) + seq!['"']
                        + rest));
                    lemma_peel(s@, i as int, seq!['"'], spec_esc(t) + seq!['"'] + rest);
                    assert(str_body_at(s@, i + 1, t, rest));
                    assert(buf@ == Seq::<char>::empty() + t);
                    assert(Seq::<char>::empty() + t =~= t);
                }
            }
            Some((text, j))
        },
        None => {
            proof {
                assert forall|t: Seq<char>, rest: Seq<char>|
                    #[trigger] jstr_at(s@, i as int, t, rest) implies false by {
                    assert(suffix(s@, i as int) =~= seq!['"'] + (spec_esc(t) + seq!['"']
                        + rest));
                    lemma_peel(s@, i as int, seq!['"'], spec_esc(t) + seq!['"'] + rest);
                    assert(str_body_at(s@, i + 1, t, rest));
                }
            }
            None
        },
    }
}

/// Parses a signed 64-bit decimal at `i`. On the rendering of any `n`
/// followed by a non-digit, this returns exactly `n`.
fn parse_i64(s: &Vec<char>, i: usize) -> (r: Option<(i64, usize)>)
    requires
        i <= s.len(),
    ensures
        match r {
            Some(p) => i < p.1 <= s.len(),
            None => true,
        },
        forall|n: i64, rest: Seq<char>|
            (#[trigger] int_at(s@, i as int, n as int, rest) && (rest.len() == 0 || !spec_is_digit(
                rest[0],
            ))) ==> (r matches Some(p) && p.0 == n && p.1 as int == i + spec_dec_int(
                n as int,
            ).len()),
{
    if i < s.len() && s[i] == '-' {
        proof {
            assert(suffix(s@, i as int)[0] == s@[i as int]);
        }
        let r2 = parse_u128(s, i + 1);
        match r2 {
            Some((m, j)) if m <= 0x8000_0000_0000_0000u128 => {
                let wide: i128 = -(m as i128);
                let v: i64 = wide as i64;
                proof {
                    assert forall|n: i64, rest: Seq<char>|
                        (#[trigger] int_at(s@, i as int, n as int, rest) && (rest.len() == 0
                            || !spec_is_digit(rest[0]))) implies v == n && j as int == i
                        + spec_dec_int(n as int).len() by {
                        lemma_dec_nat_digits(if n >= 0 {
                            n as int
                        } else {
                            -(n as int)
                        });
                        if n >= 0 {
                            assert((spec_dec_int(n as int) + rest)[0] == spec_dec_nat(n as int)[0]);
                            assert(spec_is_digit(spec_dec_nat(n as int)[0]));
                            assert(false);
                        }
                        assert(suffix(s@, i as int) =~= seq!['-'] + (spec_dec_nat(-(n as int))
                            + rest));
                        lemma_peel(s@, i as int, seq!['-'], spec_dec_nat(-(n as int)) + rest);
                        assert(num_at(s@, i + 1, -(n as int), rest));
                        assert(m as int == -(n as int));
                    }
                }
                Some((v, j))
            },
            _ => {
                proof {
                    assert forall|n: i64, rest: Seq<char>|
                        (#[trigger] int_at(s@, i as int, n as int, rest) && (rest.len() == 0
                            || !spec_is_digit(rest[0]))) implies false by {
                        lemma_dec_nat_digits(if n >= 0 {
                            n as int
                        } else {
                            -(n as int)
                        });
                        if n >= 0 {
                            assert((spec_dec_int(n as int) + rest)[0] == spec_dec_nat(n as int)[0]);
                            assert(spec_is_digit(spec_dec_nat(n as int)[0]));
                            assert(false);
                        }
                        assert(suffix(s@, i as int) =~= seq!['-'] + (spec_dec_nat(-(n as int))
                            + rest));
                        lemma_peel(s@, i as int, seq!['-'], spec_dec_nat(-(n as int)) + rest);
                        assert(num_at(s@, i + 1, -(n as int), rest));
                    }
                }
                None
            },
        }
    } else {
        let r2 = parse_u128(s, i);
        match r2 {
            Some((m, j)) if m <= 0x7fff_ffff_ffff_ffffu128 => {
                let v: i64 = m as i64;
                proof {
                    assert forall|n: i64, rest: Seq<char>|
                        (#[trigger] int_at(s@, i as int, n as int, rest) && (rest.len() == 0
                            || !spec_is_digit(rest[0]))) implies v == n && j as int == i
                        + spec_dec_int(n as int).len() by {
                        if n < 0 {
                            lemma_dec_nat_digits(-(n as int));
                            assert(spec_dec_int(n as int).len() >= 1);
                            assert(suffix(s@, i as int).len() == s@.len() - i);
                            assert(i < s@.len());
                            assert((spec_dec_int(n as int) + rest)[0] == '-');
                            assert(suffix(s@, i as int)[0] == s@[i as int]);
                            assert(false);
                        }
                        assert(num_at(s@, i as int, n as int, rest));
                        assert(m as int == n as int);
                    }
                }
                Some((v, j))
            },
            _ => {
                proof {
                    assert forall|n: i64, rest: Seq<char>|
                        (#[trigger] int_at(s@, i as int, n as int, rest) && (rest.len() == 0
                            || !spec_is_digit(rest[0]))) implies false by {
                        if n < 0 {
                            lemma_dec_nat_digits(-(n as int));
                            assert(spec_dec_int(n as int).len() >= 1);
                            assert(suffix(s@, i as int).len() == s@.len() - i);
                            assert(i < s@.len());
                            assert((spec_dec_int(n as int) + rest)[0] == '-');
                            assert(suffix(s@, i as int)[0] == s@[i as int]);
                            assert(false);
                        }
                        assert(num_at(s@, i as int, n as int, rest));
                    }
                }
                None
            },
        }
    }
}

/// Parses a signed 32-bit decimal at `i`, rejecting out-of-range values.
fn parse_i32(s: &Vec<char>, i: usize) -> (r: Option<(i32, usize)>)
    requires
        i <= s.len(),
    ensures
        match r {
            Some(p) => i < p.1 <= s.len(),
            None => true,
        },
        forall|n: i32, rest: Seq<char>|
            (#[trigger] int_at(s@, i as int, n as int, rest) && (rest.len() == 0 || !spec_is_digit(
                rest[0],
            ))) ==> (r matches Some(p) && p.0 == n && p.1 as int == i + spec_dec_int(
                n as int,
            ).len()),
{
    match parse_i64(s, i) {
        Some((v, j)) => {
            if v >= -0x8000_0000i64 && v <= 0x7fff_ffffi64 {
                proof {
                    assert forall|n: i32, rest: Seq<char>|
                        (#[trigger] int_at(s@, i as int, n as int, rest) && (rest.len() == 0
                            || !spec_is_digit(rest[0]))) implies (v as i32) == n && j as int == i
                        + spec_dec_int(n as int).len() by {
                        assert(int_at(s@, i as int, (n as i64) as int, rest));
                    }
                }
                Some((v as i32, j))
            } else {
                proof {
                    assert forall|n: i32, rest: Seq<char>|
                        (#[trigger] int_at(s@, i as int, n as int, rest) && (rest.len() == 0
                            || !spec_is_digit(rest[0]))) implies false by {
                        assert(int_at(s@, i as int, (n as i64) as int, rest));
                    }
                }
                None
            }
        },
        None => {
            proof {
                assert forall|n: i32, rest: Seq<char>|
                    (#[trigger] int_at(s@, i as int, n as int, rest) && (rest.len() == 0
                        || !spec_is_digit(rest[0]))) implies false by {
                    assert(int_at(s@, i as int, (n as i64) as int, rest));
                }
            }
            None
        },
    }
}

// ---------------------------------------------------------------------------
// the snapshot grammar
// ---------------------------------------------------------------------------

/// One tick as JSON: the kind encoded numerically (0 for an ascent, 1 for
/// an attempt) and the 64-bit timestamp.
pub open spec fn spec_json_tick(t: Tick) -> Seq<char> {
    "{\"kind\":"@ + (if t.kind == TickKind::Ascent {
        seq!['0']
    } else {
        seq!['1']
    }) + ",\"timestamp\":"@ + spec_dec_int(t.timestamp as int) + seq!['}']
}

/// The tail of a tick array: a comma before each further element.
pub open spec fn spec_json_ticks_rest(ts: Seq<Tick>) -> Seq<char>
    decreases ts.len(),
{
    if ts.len() == 0 {
        Seq::empty()
    } else {
        seq![','] + spec_json_tick(ts[0]) + spec_json_ticks_rest(ts.drop_first())
    }
}

/// The contents of a tick array, in append order.
pub open spec fn spec_json_ticks(ts: Seq<Tick>) -> Seq<char> {
    if ts.len() == 0 {
        Seq::empty()
    } else {
        spec_json_tick(ts[0]) + spec_json_ticks_rest(ts.drop_first())
    }
}

/// A JSON boolean.
pub open spec fn spec_json_bool(b: bool) -> Seq<char> {
    if b {
        "true"@
    } else {
        "false"@
    }
}

/// One route as JSON.
pub open spec fn spec_json_route(r: RouteView) -> Seq<char> {
    "{\"title\":"@ + spec_json_string(r.title) + ",\"color\":"@ + spec_json_string(r.color)
        + ",\"section\":"@ + spec_json_string(r.section) + ",\"grade\":"@ + spec_json_string(
        r.grade,
    ) + ",\"ticks\":["@ + spec_json_ticks(r.ticks) + seq![']'] + ",\"retired\":"@ + spec_json_bool(
        r.retired,
    ) + seq!['}']
}

/// One keyed route entry: the identifier as a quoted decimal string.
pub open spec fn spec_json_route_entry(e: EntryView) -> Seq<char> {
    seq!['"'] + spec_dec_nat(e.0 as int) + seq!['"', ':'] + spec_json_route(e.1)
}

/// The tail of the routes object.
pub open spec fn spec_json_routes_rest(rs: Seq<EntryView>) -> Seq<char>
    decreases rs.len(),
{
    if rs.len() == 0 {
        Seq::empty()
    } else {
        seq![','] + spec_json_route_entry(rs[0]) + spec_json_routes_rest(rs.drop_first())
    }
}

/// The contents of the routes object, in ledger order.
pub open spec fn spec_json_routes(rs: Seq<EntryView>) -> Seq<char> {
    if rs.len() == 0 {
        Seq::empty()
    } else {
        spec_json_route_entry(rs[0]) + spec_json_routes_rest(rs.drop_first())
    }
}

/// One taxonomy entry as JSON.
pub open spec fn spec_json_tax(e: TaxView) -> Seq<char> {
    "{\"group\":"@ + spec_json_string(e.group) + ",\"label\":"@ + spec_json_string(e.label)
        + ",\"sort\":"@ + spec_dec_int(e.sort as int) + seq!['}']
}

/// One keyed taxonomy entry.
pub open spec fn spec_json_tax_entry(p: (Seq<char>, TaxView)) -> Seq<char> {
    spec_json_string(p.0) + seq![':'] + spec_json_tax(p.1)
}

/// The tail of a taxonomy catalog object.
pub open spec fn spec_json_taxes_rest(c: CatView) -> Seq<char>
    decreases c.len(),
{
    if c.len() == 0 {
        Seq::empty()
    } else {
        seq![','] + spec_json_tax_entry(c[0]) + spec_json_taxes_rest(c.drop_first())
    }
}

/// The contents of a taxonomy catalog object, in catalog order.
pub open spec fn spec_json_taxes(c: CatView) -> Seq<char> {
    if c.len() == 0 {
        Seq::empty()
    } else {
        spec_json_tax_entry(c[0]) + spec_json_taxes_rest(c.drop_first())
    }
}

/// The settings as JSON: the three catalogs in a fixed order.
pub open spec fn spec_json_settings(sv: SettingsView) -> Seq<char> {
    "{\"colors\":{"@ + spec_json_taxes(sv.colors) + seq!['}'] + ",\"sections\":{"@
        + spec_json_taxes(sv.sections) + seq!['}'] + ",\"grades\":{"@ + spec_json_taxes(sv.grades)
        + seq!['}'] + seq!['}']
}

/// The canonical JSON text of a whole snapshot.
pub open spec fn spec_export(v: SnapshotView) -> Seq<char> {
    "{\"routes\":{"@ + spec_json_routes(v.routes) + seq!['}'] + ",\"settings\":"@
        + spec_json_settings(v.settings) + seq!['}']
}

// ---------------------------------------------------------------------------
// grammar positions, for the parser's completeness arguments
// ---------------------------------------------------------------------------

/// At position `i`, the input continues with one tick and then `rest`.
pub open spec fn tick_at(s: Seq<char>, i: int, t: Tick, rest: Seq<char>) -> bool {
    suffix(s, i) == spec_json_tick(t) + rest
}

/// At position `i`, the input continues with a tick array's contents, the
/// closing bracket, and then `rest`.
pub open spec fn ticks_at(s: Seq<char>, i: int, ts: Seq<Tick>, rest: Seq<char>) -> bool {
    suffix(s, i) == spec_json_ticks(ts) + seq![']'] + rest
}

/// As `ticks_at`, for the comma-led tail of the array.
pub open spec fn ticks_rest_at(s: Seq<char>, i: int, ts: Seq<Tick>, rest: Seq<char>) -> bool {
    suffix(s, i) == spec_json_ticks_rest(ts) + seq![']'] + rest
}

/// At position `i`, the input continues with a boolean and then `rest`.
pub open spec fn bool_at(s: Seq<char>, i: int, b: bool, rest: Seq<char>) -> bool {
    suffix(s, i) == spec_json_bool(b) + rest
}

/// At position `i`, the input continues with one route and then `rest`.
pub open spec fn route_at(s: Seq<char>, i: int, r: RouteView, rest: Seq<char>) -> bool {
    suffix(s, i) == spec_json_route(r) + rest
}

/// At position `i`, the input continues with one keyed route entry.
pub open spec fn rentry_at(s: Seq<char>, i: int, e: EntryView, rest: Seq<char>) -> bool {
    suffix(s, i) == spec_json_route_entry(e) + rest
}

/// At position `i`, the input continues with the routes object's contents,
/// its closing brace, and then `rest`.
pub open spec fn routes_at(s: Seq<char>, i: int, rs: Seq<EntryView>, rest: Seq<char>) -> bool {
    suffix(s, i) == spec_json_routes(rs) + seq!['}'] + rest
}

/// As `routes_at`, for the comma-led tail of the object.
pub open spec fn routes_rest_at(s: Seq<char>, i: int, rs: Seq<EntryView>, rest: Seq<char>) -> bool {
    suffix(s, i) == spec_json_routes_rest(rs) + seq!['}'] + rest
}

/// At position `i`, the input continues with one keyed taxonomy entry.
pub open spec fn tentry_at(s: Seq<char>, i: int, p: (Seq<char>, TaxView), rest: Seq<char>) -> bool {
    suffix(s, i) == spec_json_tax_entry(p) + rest
}

/// At position `i`, the input continues with a catalog object's contents,
/// its closing brace, and then `rest`.
pub open spec fn taxes_at(s: Seq<char>, i: int, c: CatView, rest: Seq<char>) -> bool {
    suffix(s, i) == spec_json_taxes(c) + seq!['}'] + rest
}

/// As `taxes_at`, for the comma-led tail of the object.
pub open spec fn taxes_rest_at(s: Seq<char>, i: int, c: CatView, rest: Seq<char>) -> bool {
    suffix(s, i) == spec_json_taxes_rest(c) + seq!['}'] + rest
}

/// At position `i`, the input continues with the settings object.
pub open spec fn settings_at(s: Seq<char>, i: int, sv: SettingsView, rest: Seq<char>) -> bool {
    suffix(s, i) == spec_json_settings(sv) + rest
}

/// At position `i`, the input continues with a whole snapshot.
pub open spec fn export_at(s: Seq<char>, i: int, v: SnapshotView, rest: Seq<char>) -> bool {
    suffix(s, i) == spec_export(v) + rest
}

proof fn lemma_lit_chars()
    ensures
        "{\"kind\":"@ == seq!['{', '"', 'k', 'i', 'n', 'd', '"', ':'],
        "true"@ == seq!['t', 'r', 'u', 'e'],
        "false"@ == seq!['f', 'a', 'l', 's', 'e'],
{
    reveal_strlit("{\"kind\":");
    reveal_strlit("true");
    reveal_strlit("false");
    assert("{\"kind\":"@ =~= seq!['{', '"', 'k', 'i', 'n', 'd', '"', ':']);
    assert("true"@ =~= seq!['t', 'r', 'u', 'e']);
    assert("false"@ =~= seq!['f', 'a', 'l', 's', 'e']);
}

// ---------------------------------------------------------------------------
// rendering
// ---------------------------------------------------------------------------

fn emit_tick(out: &mut Vec<char>, t: &Tick)
    ensures
        final(out)@ == old(out)@ + spec_json_tick(*t),
{
    push_str_chars(out, "{\"kind\":");
    match t.kind {
        TickKind::Ascent => {
            out.push('0');
        },
        TickKind::Attempt => {
            out.push('1');
        },
    }
    push_str_chars(out, ",\"timestamp\":");
    push_dec_i64(out, t.timestamp);
    out.push('}');
    proof {
        assert(out@ =~= old(out)@ + spec_json_tick(*t));
    }
}

fn emit_ticks(out: &mut Vec<char>, ts: &Vec<Tick>)
    ensures
        final(out)@ == old(out)@ + spec_json_ticks(ts@),
{
    let ghost target = old(out)@ + spec_json_ticks(ts@);
    if ts.len() == 0 {
        proof {
            assert(out@ =~= target);
        }
        return;
    }
    emit_tick(out, &ts[0]);
    proof {
        assert(out@ + spec_json_ticks_rest(ts@.drop_first()) =~= target);
        assert(ts@.subrange(1, ts@.len() as int) =~= ts@.drop_first());
    }
    let mut i: usize = 1;
    while i < ts.len()
        invariant
            1 <= i <= ts.len(),
            out@ + spec_json_ticks_rest(ts@.subrange(i as int, ts@.len() as int)) == target,
        decreases ts.len() - i,
    {
        let ghost tail = ts@.subrange(i as int, ts@.len() as int);
        proof {
            assert(tail[0] == ts@[i as int]);
            assert(tail.drop_first() =~= ts@.subrange(i + 1, ts@.len() as int));
        }
        out.push(',');
        emit_tick(out, &ts[i]);
        proof {
            assert(out@ + spec_json_ticks_rest(ts@.subrange(i + 1, ts@.len() as int)) =~= target);
        }
        i += 1;
    }
    proof {
        assert(ts@.subrange(ts@.len() as int, ts@.len() as int) =~= Seq::<Tick>::empty());
        assert(out@ =~= target);
    }
}

fn emit_route(out: &mut Vec<char>, r: &Route)
    ensures
        final(out)@ == old(out)@ + spec_json_route(r@),
{
    push_str_chars(out, "{\"title\":");
    emit_json_string(out, &r.title);
    push_str_chars(out, ",\"color\":");
    emit_json_string(out, &r.color);
    push_str_chars(out, ",\"section\":");
    emit_json_string(out, &r.section);
    push_str_chars(out, ",\"grade\":");
    emit_json_string(out, &r.grade);
    push_str_chars(out, ",\"ticks\":[");
    emit_ticks(out, &r.ticks);
    out.push(']');
    push_str_chars(out, ",\"retired\":");
    if r.retired {
        push_str_chars(out, "true");
    } else {
        push_str_chars(out, "false");
    }
    out.push('}');
    proof {
        assert(out@ =~= old(out)@ + spec_json_route(r@));
    }
}

fn emit_route_entry(out: &mut Vec<char>, id: u128, r: &Route)
    ensures
        final(out)@ == old(out)@ + spec_json_route_entry((id, r@)),
{
    out.push('"');
    push_dec_u128(out, id);
    out.push('"');
    out.push(':');
    emit_route(out, r);
    proof {
        assert(out@ =~= old(out)@ + spec_json_route_entry((id, r@)));
    }
}

fn emit_routes(out: &mut Vec<char>, rs: &Vec<(u128, Route)>)
    ensures
        final(out)@ == old(out)@ + spec_json_routes(crate::order::entries_view(rs@)),
{
    let ghost ev = crate::order::entries_view(rs@);
    let ghost target = old(out)@ + spec_json_routes(ev);
    if rs.len() == 0 {
        proof {
            assert(out@ =~= target);
        }
        return;
    }
    proof {
        assert(ev[0] == (rs@[0].0, rs@[0].1@));
    }
    emit_route_entry(out, rs[0].0, &rs[0].1);
    proof {
        assert(out@ + spec_json_routes_rest(ev.drop_first()) =~= target);
        assert(ev.subrange(1, ev.len() as int) =~= ev.drop_first());
    }
    let mut i: usize = 1;
    while i < rs.len()
        invariant
            1 <= i <= rs.len(),
            ev == crate::order::entries_view(rs@),
            ev.len() == rs@.len(),
            out@ + spec_json_routes_rest(ev.subrange(i as int, ev.len() as int)) == target,
        decreases rs.len() - i,
    {
        let ghost tail = ev.subrange(i as int, ev.len() as int);
        proof {
            assert(tail[0] == ev[i as int]);
            assert(ev[i as int] == (rs@[i as int].0, rs@[i as int].1@));
            assert(tail.drop_first() =~= ev.subrange(i + 1, ev.len() as int));
        }
        out.push(',');
        emit_route_entry(out, rs[i].0, &rs[i].1);
        proof {
            assert(out@ + spec_json_routes_rest(ev.subrange(i + 1, ev.len() as int)) =~= target);
        }
        i += 1;
    }
    proof {
        assert(ev.subrange(ev.len() as int, ev.len() as int) =~= Seq::<EntryView>::empty());
        assert(out@ =~= target);
    }
}

fn emit_tax_entry(out: &mut Vec<char>, key: &String, group: &String, label: &String, sort: i32)
    ensures
        final(out)@ == old(out)@ + spec_json_tax_entry(
            (key@, TaxView { group: group@, label: label@, sort }),
        ),
{
    emit_json_string(out, key);
    out.push(':');
    push_str_chars(out, "{\"group\":");
    emit_json_string(out, group);
    push_str_chars(out, ",\"label\":");
    emit_json_string(out, label);
    push_str_chars(out, ",\"sort\":");
    push_dec_i64(out, sort as i64);
    out.push('}');
    proof {
        assert(out@ =~= old(out)@ + spec_json_tax_entry(
            (key@, TaxView { group: group@, label: label@, sort }),
        ));
    }
}

fn emit_colors(out: &mut Vec<char>, c: &Vec<(String, crate::taxonomy::Color)>)
    ensures
        final(out)@ == old(out)@ + spec_json_taxes(crate::taxonomy::cat_view(c@)),
{
    let ghost cv = crate::taxonomy::cat_view(c@);
    let ghost target = old(out)@ + spec_json_taxes(cv);
    if c.len() == 0 {
        proof {
            assert(out@ =~= target);
        }
        return;
    }
    proof {
        assert(cv[0] == (c@[0].0@, c@[0].1@));
    }
    emit_tax_entry(out, &c[0].0, &c[0].1.group, &c[0].1.label, c[0].1.sort);
    proof {
        assert(out@ + spec_json_taxes_rest(cv.drop_first()) =~= target);
        assert(cv.subrange(1, cv.len() as int) =~= cv.drop_first());
    }
    let mut i: usize = 1;
    while i < c.len()
        invariant
            1 <= i <= c.len(),
            cv == crate::taxonomy::cat_view(c@),
            cv.len() == c@.len(),
            out@ + spec_json_taxes_rest(cv.subrange(i as int, cv.len() as int)) == target,
        decreases c.len() - i,
    {
        let ghost tail = cv.subrange(i as int, cv.len() as int);
        proof {
            assert(tail[0] == cv[i as int]);
            assert(cv[i as int] == (c@[i as int].0@, c@[i as int].1@));
            assert(tail.drop_first() =~= cv.subrange(i + 1, cv.len() as int));
        }
        out.push(',');
        emit_tax_entry(out, &c[i].0, &c[i].1.group, &c[i].1.label, c[i].1.sort);
        proof {
            assert(out@ + spec_json_taxes_rest(cv.subrange(i + 1, cv.len() as int)) =~= target);
        }
        i += 1;
    }
    proof {
        assert(cv.subrange(cv.len() as int, cv.len() as int) =~= Seq::<(Seq<char>, TaxView)>::empty());
        assert(out@ =~= target);
    }
}

fn emit_sections(out: &mut Vec<char>, c: &Vec<(String, crate::taxonomy::Section)>)
    ensures
        final(out)@ == old(out)@ + spec_json_taxes(crate::taxonomy::cat_view(c@)),
{
    let ghost cv = crate::taxonomy::cat_view(c@);
    let ghost target = old(out)@ + spec_json_taxes(cv);
    if c.len() == 0 {
        proof {
            assert(out@ =~= target);
        }
        return;
    }
    proof {
        assert(cv[0] == (c@[0].0@, c@[0].1@));
    }
    emit_tax_entry(out, &c[0].0, &c[0].1.group, &c[0].1.label, c[0].1.sort);
    proof {
        assert(out@ + spec_json_taxes_rest(cv.drop_first()) =~= target);
        assert(cv.subrange(1, cv.len() as int) =~= cv.drop_first());
    }
    let mut i: usize = 1;
    while i < c.len()
        invariant
            1 <= i <= c.len(),
            cv == crate::taxonomy::cat_view(c@),
            cv.len() == c@.len(),
            out@ + spec_json_taxes_rest(cv.subrange(i as int, cv.len() as int)) == target,
        decreases c.len() - i,
    {
        let ghost tail = cv.subrange(i as int, cv.len() as int);
        proof {
            assert(tail[0] == cv[i as int]);
            assert(cv[i as int] == (c@[i as int].0@, c@[i as int].1@));
            assert(tail.drop_first() =~= cv.subrange(i + 1, cv.len() as int));
        }
        out.push(',');
        emit_tax_entry(out, &c[i].0, &c[i].1.group, &c[i].1.label, c[i].1.sort);
        proof {
            assert(out@ + spec_json_taxes_rest(cv.subrange(i + 1, cv.len() as int)) =~= target);
        }
        i += 1;
    }
    proof {
        assert(cv.subrange(cv.len() as int, cv.len() as int) =~= Seq::<(Seq<char>, TaxView)>::empty());
        assert(out@ =~= target);
    }
}

fn emit_grades(out: &mut Vec<char>, c: &Vec<(String, crate::taxonomy::Grade)>)
    ensures
        final(out)@ == old(out)@ + spec_json_taxes(crate::taxonomy::cat_view(c@)),
{
    let ghost cv = crate::taxonomy::cat_view(c@);
    let ghost target = old(out)@ + spec_json_taxes(cv);
    if c.len() == 0 {
        proof {
            assert(out@ =~= target);
        }
        return;
    }
    proof {
        assert(cv[0] == (c@[0].0@, c@[0].1@));
    }
    emit_tax_entry(out, &c[0].0, &c[0].1.group, &c[0].1.label, c[0].1.sort);
    proof {
        assert(out@ + spec_json_taxes_rest(cv.drop_first()) =~= target);
        assert(cv.subrange(1, cv.len() as int) =~= cv.drop_first());
    }
    let mut i: usize = 1;
    while i < c.len()
        invariant
            1 <= i <= c.len(),
            cv == crate::taxonomy::cat_view(c@),
            cv.len() == c@.len(),
            out@ + spec_json_taxes_rest(cv.subrange(i as int, cv.len() as int)) == target,
        decreases c.len() - i,
    {
        let ghost tail = cv.subrange(i as int, cv.len() as int);
        proof {
            assert(tail[0] == cv[i as int]);
            assert(cv[i as int] == (c@[i as int].0@, c@[i as int].1@));
            assert(tail.drop_first() =~= cv.subrange(i + 1, cv.len() as int));
        }
        out.push(',');
        emit_tax_entry(out, &c[i].0, &c[i].1.group, &c[i].1.label, c[i].1.sort);
        proof {
            assert(out@ + spec_json_taxes_rest(cv.subrange(i + 1, cv.len() as int)) =~= target);
        }
        i += 1;
    }
    proof {
        assert(cv.subrange(cv.len() as int, cv.len() as int) =~= Seq::<(Seq<char>, TaxView)>::empty());
        assert(out@ =~= target);
    }
}

#[verifier::rlimit(100)]
fn emit_settings(out: &mut Vec<char>, s: &crate::taxonomy::Settings)
    ensures
        final(out)@ == old(out)@ + spec_json_settings(s@),
{
    let ghost base = old(out)@;
    push_str_chars(out, "{\"colors\":{");
    emit_colors(out, &s.colors);
    proof {
        assert(out@ =~= base + ("{\"colors\":{"@ + spec_json_taxes(s@.colors)));
    }
    out.push('}');
    proof {
        assert(out@ =~= base + ("{\"colors\":{"@ + spec_json_taxes(s@.colors) + seq!['}']));
    }
    push_str_chars(out, ",\"sections\":{");
    emit_sections(out, &s.sections);
    proof {
        assert(out@ =~= base + ("{\"colors\":{"@ + spec_json_taxes(s@.colors) + seq!['}']
            + ",\"sections\":{"@ + spec_json_taxes(s@.sections)));
    }
    out.push('}');
    proof {
        assert(out@ =~= base + ("{\"colors\":{"@ + spec_json_taxes(s@.colors) + seq!['}']
            + ",\"sections\":{"@ + spec_json_taxes(s@.sections) + seq!['}']));
    }
    push_str_chars(out, ",\"grades\":{");
    emit_grades(out, &s.grades);
    proof {
        assert(out@ =~= base + ("{\"colors\":{"@ + spec_json_taxes(s@.colors) + seq!['}']
            + ",\"sections\":{"@ + spec_json_taxes(s@.sections) + seq!['}'] + ",\"grades\":{"@
            + spec_json_taxes(s@.grades)));
    }
    out.push('}');
    proof {
        assert(out@ =~= base + ("{\"colors\":{"@ + spec_json_taxes(s@.colors) + seq!['}']
            + ",\"sections\":{"@ + spec_json_taxes(s@.sections) + seq!['}'] + ",\"grades\":{"@
            + spec_json_taxes(s@.grades) + seq!['}']));
    }
    out.push('}');
    proof {
        assert(out@ =~= base + spec_json_settings(s@));
    }
}

/// Serializes the whole snapshot to its canonical JSON text.
pub fn export_json(s: &Snapshot) -> (r: String)
    ensures
        r@ == spec_export(s@),
{
    let mut out: Vec<char> = Vec::new();
    push_str_chars(&mut out, "{\"routes\":{");
    emit_routes(&mut out, &s.routes);
    out.push('}');
    push_str_chars(&mut out, ",\"settings\":");
    emit_settings(&mut out, &s.settings);
    out.push('}');
    proof {
        assert(out@ =~= spec_export(s@));
    }
    crate::strutil::chars_to_string(&out)
}

// ---------------------------------------------------------------------------
// parsing the grammar
// ---------------------------------------------------------------------------

proof fn lemma_tick_parts(s: Seq<char>, i: int, t: Tick, rest: Seq<char>)
    requires
        0 <= i <= s.len(),
        tick_at(s, i, t, rest),
    ensures
        ({
            let l1 = "{\"kind\":"@;
            let kc = if t.kind == TickKind::Ascent {
                '0'
            } else {
                '1'
            };
            let l2 = ",\"timestamp\":"@;
            let dn = spec_dec_int(t.timestamp as int);
            &&& suffix(s, i) == l1 + (seq![kc] + l2 + dn + seq!['}'] + rest)
            &&& suffix(s, i + l1.len()) == seq![kc] + (l2 + dn + seq!['}'] + rest)
            &&& suffix(s, i + l1.len() + 1) == l2 + (dn + seq!['}'] + rest)
            &&& int_at(s, i + l1.len() + 1 + l2.len(), t.timestamp as int, seq!['}'] + rest)
            &&& suffix(s, i + l1.len() + 1 + l2.len() + dn.len()) == seq!['}'] + rest
            &&& spec_json_tick(t).len() == l1.len() + 1 + l2.len() + dn.len() + 1
            &&& i + spec_json_tick(t).len() <= s.len()
        }),
{
    let l1 = "{\"kind\":"@;
    let kc = if t.kind == TickKind::Ascent {
        '0'
    } else {
        '1'
    };
    let l2 = ",\"timestamp\":"@;
    let dn = spec_dec_int(t.timestamp as int);
    assert(suffix(s, i) =~= l1 + (seq![kc] + l2 + dn + seq!['}'] + rest));
    lemma_peel(s, i, l1, seq![kc] + l2 + dn + seq!['}'] + rest);
    assert(suffix(s, i + l1.len()) =~= seq![kc] + (l2 + dn + seq!['}'] + rest));
    lemma_peel(s, i + l1.len(), seq![kc], l2 + dn + seq!['}'] + rest);
    assert(suffix(s, i + l1.len() + 1) =~= l2 + (dn + seq!['}'] + rest));
    lemma_peel(s, i + l1.len() + 1, l2, dn + seq!['}'] + rest);
    assert(suffix(s, i + l1.len() + 1 + l2.len()) =~= dn + (seq!['}'] + rest));
    lemma_peel(s, i + l1.len() + 1 + l2.len(), dn, seq!['}'] + rest);
}

/// Parses `true` or `false`. On the rendering of any boolean this returns
/// exactly that boolean.
fn parse_bool(s: &Vec<char>, i: usize) -> (r: Option<(bool, usize)>)
    requires
        i <= s.len(),
    ensures
        match r {
            Some(p) => i < p.1 <= s.len(),
            None => true,
        },
        forall|b: bool, rest: Seq<char>|
            #[trigger] bool_at(s@, i as int, b, rest) ==> (r matches Some(p) && p.0 == b
                && p.1 as int == i + spec_json_bool(b).len()),
{
    match parse_lit(s, i, "true") {
        Some(j) => {
            proof {
                lemma_lit_chars();
                assert forall|b: bool, rest: Seq<char>|
                    #[trigger] bool_at(s@, i as int, b, rest) implies b == true && j as int == i
                    + spec_json_bool(b).len() by {
                    if !b {
                        assert(suffix(s@, i as int)[0] == ("false"@ + rest)[0]);
                        assert(s@.subrange(i as int, j as int)[0] == suffix(s@, i as int)[0]);
                        assert("true"@[0] == 't' && "false"@[0] == 'f');
                        assert(false);
                    }
                }
            }
            Some((true, j))
        },
        None => {
            match parse_lit(s, i, "false") {
                Some(j) => {
                    proof {
                        lemma_lit_chars();
                        assert forall|b: bool, rest: Seq<char>|
                            #[trigger] bool_at(s@, i as int, b, rest) implies b == false
                            && j as int == i + spec_json_bool(b).len() by {
                            if b {
                                assert(suffix(s@, i as int) == "true"@ + rest);
                                assert(suffix(s@, i as int)[0] == ("true"@ + rest)[0]);
                                assert(s@.subrange(i as int, j as int)[0] == suffix(
                                    s@,
                                    i as int,
                                )[0]);
                                assert(false);
                            }
                        }
                    }
                    Some((false, j))
                },
                None => {
                    proof {
                        assert forall|b: bool, rest: Seq<char>|
                            #[trigger] bool_at(s@, i as int, b, rest) implies false by {
                            if b {
                                assert(suffix(s@, i as int) == "true"@ + rest);
                            } else {
                                assert(suffix(s@, i as int) == "false"@ + rest);
                            }
                        }
                    }
                    None
                },
            }
        },
    }
}

/// Parses one tick object. On the rendering of any tick this returns
/// exactly that tick.
fn parse_tick(s: &Vec<char>, i: usize) -> (r: Option<(Tick, usize)>)
    requires
        i <= s.len(),
    ensures
        match r {
            Some(p) => i < p.1 <= s.len(),
            None => true,
        },
        forall|t: Tick, rest: Seq<char>|
            #[trigger] tick_at(s@, i as int, t, rest) ==> (r matches Some(p) && p.0 == t
                && p.1 as int == i + spec_json_tick(t).len()),
{
    let r1 = parse_lit(s, i, "{\"kind\":");
    let j1 = match r1 {
        Some(j) => j,
        None => {
            proof {
                assert forall|t: Tick, rest: Seq<char>|
                    #[trigger] tick_at(s@, i as int, t, rest) implies false by {
                    lemma_tick_parts(s@, i as int, t, rest);
                }
            }
            return None;
        },
    };
    if j1 == s.len() {
        proof {
            assert forall|t: Tick, rest: Seq<char>|
                #[trigger] tick_at(s@, i as int, t, rest) implies false by {
                lemma_tick_parts(s@, i as int, t, rest);
            }
        }
        return None;
    }
    let kc = s[j1];
    let kind = if kc == '0' {
        TickKind::Ascent
    } else if kc == '1' {
        TickKind::Attempt
    } else {
        proof {
            assert forall|t: Tick, rest: Seq<char>|
                #[trigger] tick_at(s@, i as int, t, rest) implies false by {
                lemma_tick_parts(s@, i as int, t, rest);
                assert(suffix(s@, j1 as int)[0] == s@[j1 as int]);
            }
        }
        return None;
    };
    let r2 = parse_lit(s, j1 + 1, ",\"timestamp\":");
    let j2 = match r2 {
        Some(j) => j,
        None => {
            proof {
                assert forall|t: Tick, rest: Seq<char>|
                    #[trigger] tick_at(s@, i as int, t, rest) implies false by {
                    lemma_tick_parts(s@, i as int, t, rest);
                }
            }
            return None;
        },
    };
    let r3 = parse_i64(s, j2);
    let (ts, j3) = match r3 {
        Some(p) => p,
        None => {
            proof {
                assert forall|t: Tick, rest: Seq<char>|
                    #[trigger] tick_at(s@, i as int, t, rest) implies false by {
                    lemma_tick_parts(s@, i as int, t, rest);
                }
            }
            return None;
        },
    };
    if j3 == s.len() || s[j3] != '}' {
        proof {
            assert forall|t: Tick, rest: Seq<char>|
                #[trigger] tick_at(s@, i as int, t, rest) implies false by {
                lemma_tick_parts(s@, i as int, t, rest);
                assert(suffix(s@, j3 as int)[0] == s@[j3 as int]);
            }
        }
        return None;
    }
    let tick = Tick { kind, timestamp: ts };
    proof {
        assert forall|t: Tick, rest: Seq<char>|
            #[trigger] tick_at(s@, i as int, t, rest) implies tick == t && j3 + 1 == i
            + spec_json_tick(t).len() by {
            lemma_tick_parts(s@, i as int, t, rest);
            assert(suffix(s@, j1 as int)[0] == s@[j1 as int]);
            assert(kind == t.kind);
        }
    }
    Some((tick, j3 + 1))
}

/// Parses the comma-led tail of a tick array, through the closing bracket,
/// appending the elements to `out`.
fn parse_ticks_rest(s: &Vec<char>, i: usize, out: &mut Vec<Tick>) -> (r: Option<usize>)
    requires
        i <= s.len(),
    ensures
        match r {
            Some(j) => i < j <= s.len(),
            None => true,
        },
        forall|ts: Seq<Tick>, rest: Seq<char>|
            #[trigger] ticks_rest_at(s@, i as int, ts, rest) ==> (r matches Some(j) && j as int == i
                + spec_json_ticks_rest(ts).len() + 1 && final(out)@ == old(out)@ + ts),
    decreases s.len() - i,
{
    if i == s.len() {
        proof {
            assert forall|ts: Seq<Tick>, rest: Seq<char>|
                #[trigger] ticks_rest_at(s@, i as int, ts, rest) implies false by {
                assert(suffix(s@, i as int).len() == 0);
                assert((spec_json_ticks_rest(ts) + seq![']'] + rest).len() >= 1);
            }
        }
        return None;
    }
    let c = s[i];
    proof {
        assert(suffix(s@, i as int)[0] == s@[i as int]);
    }
    if c == ']' {
        proof {
            lemma_lit_chars();
            assert forall|ts: Seq<Tick>, rest: Seq<char>|
                #[trigger] ticks_rest_at(s@, i as int, ts, rest) implies ts.len() == 0 && i + 1
                == i + spec_json_ticks_rest(ts).len() + 1 && out@ == old(out)@ + ts by {
                if ts.len() > 0 {
                    assert(spec_json_ticks_rest(ts) == seq![','] + spec_json_tick(ts[0])
                        + spec_json_ticks_rest(ts.drop_first()));
                    assert((spec_json_ticks_rest(ts) + seq![']'] + rest)[0] == ',');
                    assert(false);
                }
                assert(out@ + ts =~= out@);
            }
        }
        return Some(i + 1);
    }
    if c != ',' {
        proof {
            assert forall|ts: Seq<Tick>, rest: Seq<char>|
                #[trigger] ticks_rest_at(s@, i as int, ts, rest) implies false by {
                if ts.len() > 0 {
                    assert(spec_json_ticks_rest(ts) == seq![','] + spec_json_tick(ts[0])
                        + spec_json_ticks_rest(ts.drop_first()));
                    assert((spec_json_ticks_rest(ts) + seq![']'] + rest)[0] == ',');
                } else {
                    assert((spec_json_ticks_rest(ts) + seq![']'] + rest)[0] == ']');
                }
            }
        }
        return None;
    }
    let r1 = parse_tick(s, i + 1);
    match r1 {
        Some((tk, j1)) => {
            out.push(tk);
            let ghost mid = out@;
            let r2 = parse_ticks_rest(s, j1, out);
            proof {
                assert forall|ts: Seq<Tick>, rest: Seq<char>|
                    #[trigger] ticks_rest_at(s@, i as int, ts, rest) implies (r2 matches Some(j)
                    && j as int == i + spec_json_ticks_rest(ts).len() + 1 && final(out)@ == old(out)@
                    + ts) by {
                    if ts.len() == 0 {
                        assert((spec_json_ticks_rest(ts) + seq![']'] + rest)[0] == ']');
                        assert(false);
                    }
                    assert(spec_json_ticks_rest(ts) == seq![','] + spec_json_tick(ts[0])
                        + spec_json_ticks_rest(ts.drop_first()));
                    assert(suffix(s@, i as int) =~= seq![','] + (spec_json_tick(ts[0])
                        + (spec_json_ticks_rest(ts.drop_first()) + seq![']'] + rest)));
                    lemma_peel(
                        s@,
                        i as int,
                        seq![','],
                        spec_json_tick(ts[0]) + (spec_json_ticks_rest(ts.drop_first()) + seq![']']
                            + rest),
                    );
                    assert(tick_at(
                        s@,
                        i + 1,
                        ts[0],
                        spec_json_ticks_rest(ts.drop_first()) + seq![']'] + rest,
                    ));
                    assert(tk == ts[0]);
                    assert(j1 as int == i + 1 + spec_json_tick(ts[0]).len());
                    lemma_peel(
                        s@,
                        i + 1,
                        spec_json_tick(ts[0]),
                        spec_json_ticks_rest(ts.drop_first()) + seq![']'] + rest,
                    );
                    assert(ticks_rest_at(s@, j1 as int, ts.drop_first(), rest));
                    assert(mid == old(out)@.push(ts[0]));
                    assert(old(out)@ + ts =~= mid + ts.drop_first());
                }
            }
            r2
        },
        None => {
            proof {
                assert forall|ts: Seq<Tick>, rest: Seq<char>|
                    #[trigger] ticks_rest_at(s@, i as int, ts, rest) implies false by {
                    if ts.len() == 0 {
                        assert((spec_json_ticks_rest(ts) + seq![']'] + rest)[0] == ']');
                        assert(false);
                    }
                    assert(spec_json_ticks_rest(ts) == seq![','] + spec_json_tick(ts[0])
                        + spec_json_ticks_rest(ts.drop_first()));
                    assert(suffix(s@, i as int) =~= seq![','] + (spec_json_tick(ts[0])
                        + (spec_json_ticks_rest(ts.drop_first()) + seq![']'] + rest)));
                    lemma_peel(
                        s@,
                        i as int,
                        seq![','],
                        spec_json_tick(ts[0]) + (spec_json_ticks_rest(ts.drop_first()) + seq![']']
                            + rest),
                    );
                    assert(tick_at(
                        s@,
                        i + 1,
                        ts[0],
                        spec_json_ticks_rest(ts.drop_first()) + seq![']'] + rest,
                    ));
                }
            }
            None
        },
    }
}

/// Parses a tick array's contents and closing bracket. On the rendering of
/// any tick history this returns exactly those ticks, in order.
fn parse_ticks(s: &Vec<char>, i: usize) -> (r: Option<(Vec<Tick>, usize)>)
    requires
        i <= s.len(),
    ensures
        match r {
            Some(p) => i < p.1 <= s.len(),
            None => true,
        },
        forall|ts: Seq<Tick>, rest: Seq<char>|
            #[trigger] ticks_at(s@, i as int, ts, rest) ==> (r matches Some(p) && p.0@ == ts
                && p.1 as int == i + spec_json_ticks(ts).len() + 1),
{
    if i == s.len() {
        proof {
            assert forall|ts: Seq<Tick>, rest: Seq<char>|
                #[trigger] ticks_at(s@, i as int, ts, rest) implies false by {
                assert(suffix(s@, i as int).len() == 0);
                assert((spec_json_ticks(ts) + seq![']'] + rest).len() >= 1);
            }
        }
        return None;
    }
    let c = s[i];
    proof {
        assert(suffix(s@, i as int)[0] == s@[i as int]);
    }
    if c == ']' {
        let empty: Vec<Tick> = Vec::new();
        proof {
            lemma_lit_chars();
            assert forall|ts: Seq<Tick>, rest: Seq<char>|
                #[trigger] ticks_at(s@, i as int, ts, rest) implies ts.len() == 0 by {
                if ts.len() > 0 {
                    assert(spec_json_ticks(ts) == spec_json_tick(ts[0]) + spec_json_ticks_rest(
                        ts.drop_first(),
                    ));
                    assert((spec_json_ticks(ts) + seq![']'] + rest)[0] == "{\"kind\":"@[0]);
                    assert(false);
                }
            }
            assert forall|ts: Seq<Tick>, rest: Seq<char>|
                #[trigger] ticks_at(s@, i as int, ts, rest) implies empty@ == ts by {
                assert(ts.len() == 0);
                assert(empty@ =~= ts);
            }
        }
        return Some((empty, i + 1));
    }
    let mut out: Vec<Tick> = Vec::new();
    let r1 = parse_tick(s, i);
    match r1 {
        Some((tk, j1)) => {
            out.push(tk);
            let ghost mid = out@;
            let r2 = parse_ticks_rest(s, j1, &mut out);
            match r2 {
                Some(j2) => {
                    proof {
                        assert forall|ts: Seq<Tick>, rest: Seq<char>|
                            #[trigger] ticks_at(s@, i as int, ts, rest) implies out@ == ts
                            && j2 as int == i + spec_json_ticks(ts).len() + 1 by {
                            lemma_lit_chars();
                            if ts.len() == 0 {
                                assert((spec_json_ticks(ts) + seq![']'] + rest)[0] == ']');
                                assert(false);
                            }
                            assert(spec_json_ticks(ts) == spec_json_tick(ts[0])
                                + spec_json_ticks_rest(ts.drop_first()));
                            assert(suffix(s@, i as int) =~= spec_json_tick(ts[0]) + (
                            spec_json_ticks_rest(ts.drop_first()) + seq![']'] + rest));
                            assert(tick_at(
                                s@,
                                i as int,
                                ts[0],
                                spec_json_ticks_rest(ts.drop_first()) + seq![']'] + rest,
                            ));
                            assert(tk == ts[0]);
                            lemma_peel(
                                s@,
                                i as int,
                                spec_json_tick(ts[0]),
                                spec_json_ticks_rest(ts.drop_first()) + seq![']'] + rest,
                            );
                            assert(ticks_rest_at(s@, j1 as int, ts.drop_first(), rest));
                            assert(mid == Seq::<Tick>::empty().push(ts[0]));
                            assert(out@ == mid + ts.drop_first());
                            assert(out@ =~= ts);
                        }
                    }
                    Some((out, j2))
                },
                None => {
                    proof {
                        assert forall|ts: Seq<Tick>, rest: Seq<char>|
                            #[trigger] ticks_at(s@, i as int, ts, rest) implies false by {
                            lemma_lit_chars();
                            if ts.len() == 0 {
                                assert((spec_json_ticks(ts) + seq![']'] + rest)[0] == ']');
                                assert(false);
                            }
                            assert(spec_json_ticks(ts) == spec_json_tick(ts[0])
                                + spec_json_ticks_rest(ts.drop_first()));
                            assert(suffix(s@, i as int) =~= spec_json_tick(ts[0]) + (
                            spec_json_ticks_rest(ts.drop_first()) + seq![']'] + rest));
                            assert(tick_at(
                                s@,
                                i as int,
                                ts[0],
                                spec_json_ticks_rest(ts.drop_first()) + seq![']'] + rest,
                            ));
                            lemma_peel(
                                s@,
                                i as int,
                                spec_json_tick(ts[0]),
                                spec_json_ticks_rest(ts.drop_first()) + seq![']'] + rest,
                            );
                            assert(ticks_rest_at(s@, j1 as int, ts.drop_first(), rest));
                        }
                    }
                    None
                },
            }
        },
        None => {
            proof {
                assert forall|ts: Seq<Tick>, rest: Seq<char>|
                    #[trigger] ticks_at(s@, i as int, ts, rest) implies false by {
                    lemma_lit_chars();
                    if ts.len() == 0 {
                        assert((spec_json_ticks(ts) + seq![']'] + rest)[0] == ']');
                        assert(false);
                    }
                    assert(spec_json_ticks(ts) == spec_json_tick(ts[0]) + spec_json_ticks_rest(
                        ts.drop_first(),
                    ));
                    assert(suffix(s@, i as int) =~= spec_json_tick(ts[0]) + (spec_json_ticks_rest(
                        ts.drop_first(),
                    ) + seq![']'] + rest));
                    assert(tick_at(
                        s@,
                        i as int,
                        ts[0],
                        spec_json_ticks_rest(ts.drop_first()) + seq![']'] + rest,
                    ));
                }
            }
            None
        },
    }
}

#[verifier::rlimit(100)]
proof fn lemma_route_parts(s: Seq<char>, i: int, r: RouteView, rest: Seq<char>)
    requires
        0 <= i <= s.len(),
        route_at(s, i, r, rest),
    ensures
        ({
            let l1 = "{\"title\":"@;
            let t1 = spec_json_string(r.title);
            let l2 = ",\"color\":"@;
            let t2 = spec_json_string(r.color);
            let l3 = ",\"section\":"@;
            let t3 = spec_json_string(r.section);
            let l4 = ",\"grade\":"@;
            let t4 = spec_json_string(r.grade);
            let l5 = ",\"ticks\":["@;
            let tk = spec_json_ticks(r.ticks);
            let l6 = ",\"retired\":"@;
            let bb = spec_json_bool(r.retired);
            let p1 = i + l1.len();
            let p2 = p1 + t1.len();
            let p3 = p2 + l2.len();
            let p4 = p3 + t2.len();
            let p5 = p4 + l3.len();
            let p6 = p5 + t3.len();
            let p7 = p6 + l4.len();
            let p8 = p7 + t4.len();
            let p9 = p8 + l5.len();
            let p10 = p9 + tk.len() + 1;
            let p11 = p10 + l6.len();
            let p12 = p11 + bb.len();
            &&& suffix(s, i) == l1 + (t1 + (l2 + (t2 + (l3 + (t3 + (l4 + (t4 + (l5 + (tk + (
            seq![']'] + (l6 + (bb + (seq!['}'] + rest)))))))))))))
            &&& jstr_at(
                s,
                p1,
                r.title,
                l2 + (t2 + (l3 + (t3 + (l4 + (t4 + (l5 + (tk + (seq![']'] + (l6 + (bb + (seq!['}']
                    + rest))))))))))),
            )
            &&& suffix(s, p2) == l2 + (t2 + (l3 + (t3 + (l4 + (t4 + (l5 + (tk + (seq![']'] + (l6 + (
            bb + (seq!['}'] + rest)))))))))))
            &&& jstr_at(
                s,
                p3,
                r.color,
                l3 + (t3 + (l4 + (t4 + (l5 + (tk + (seq![']'] + (l6 + (bb + (seq!['}']
                    + rest))))))))),
            )
            &&& suffix(s, p4) == l3 + (t3 + (l4 + (t4 + (l5 + (tk + (seq![']'] + (l6 + (bb + (
            seq!['}'] + rest)))))))))
            &&& jstr_at(
                s,
                p5,
                r.section,
                l4 + (t4 + (l5 + (tk + (seq![']'] + (l6 + (bb + (seq!['}'] + rest))))))),
            )
            &&& suffix(s, p6) == l4 + (t4 + (l5 + (tk + (seq![']'] + (l6 + (bb + (seq!['}']
                + rest)))))))
            &&& jstr_at(s, p7, r.grade, l5 + (tk + (seq![']'] + (l6 + (bb + (seq!['}'] + rest))))))
            &&& suffix(s, p8) == l5 + (tk + (seq![']'] + (l6 + (bb + (seq!['}'] + rest)))))
            &&& ticks_at(s, p9, r.ticks, l6 + (bb + (seq!['}'] + rest)))
            &&& suffix(s, p10) == l6 + (bb + (seq!['}'] + rest))
            &&& bool_at(s, p11, r.retired, seq!['}'] + rest)
            &&& suffix(s, p12) == seq!['}'] + rest
            &&& spec_json_route(r).len() == (p12 + 1) - i
            &&& i + spec_json_route(r).len() <= s.len()
        }),
{
    let l1 = "{\"title\":"@;
    let t1 = spec_json_string(r.title);
    let l2 = ",\"color\":"@;
    let t2 = spec_json_string(r.color);
    let l3 = ",\"section\":"@;
    let t3 = spec_json_string(r.section);
    let l4 = ",\"grade\":"@;
    let t4 = spec_json_string(r.grade);
    let l5 = ",\"ticks\":["@;
    let tk = spec_json_ticks(r.ticks);
    let l6 = ",\"retired\":"@;
    let bb = spec_json_bool(r.retired);
    let p1 = i + l1.len();
    let p2 = p1 + t1.len();
    let p3 = p2 + l2.len();
    let p4 = p3 + t2.len();
    let p5 = p4 + l3.len();
    let p6 = p5 + t3.len();
    let p7 = p6 + l4.len();
    let p8 = p7 + t4.len();
    let p9 = p8 + l5.len();
    let p10 = p9 + tk.len() + 1;
    let p11 = p10 + l6.len();
    assert(suffix(s, i) =~= l1 + (t1 + (l2 + (t2 + (l3 + (t3 + (l4 + (t4 + (l5 + (tk + (seq![']']
        + (l6 + (bb + (seq!['}'] + rest))))))))))))));
    lemma_peel(
        s,
        i,
        l1,
        t1 + (l2 + (t2 + (l3 + (t3 + (l4 + (t4 + (l5 + (tk + (seq![']'] + (l6 + (bb + (seq!['}']
            + rest)))))))))))),
    );
    lemma_peel(
        s,
        p1,
        t1,
        l2 + (t2 + (l3 + (t3 + (l4 + (t4 + (l5 + (tk + (seq![']'] + (l6 + (bb + (seq!['}']
            + rest))))))))))),
    );
    lemma_peel(
        s,
        p2,
        l2,
        t2 + (l3 + (t3 + (l4 + (t4 + (l5 + (tk + (seq![']'] + (l6 + (bb + (seq!['}'] + rest)))))))))),
    );
    lemma_peel(
        s,
        p3,
        t2,
        l3 + (t3 + (l4 + (t4 + (l5 + (tk + (seq![']'] + (l6 + (bb + (seq!['}'] + rest))))))))),
    );
    lemma_peel(
        s,
        p4,
        l3,
        t3 + (l4 + (t4 + (l5 + (tk + (seq![']'] + (l6 + (bb + (seq!['}'] + rest)))))))),
    );
    lemma_peel(s, p5, t3, l4 + (t4 + (l5 + (tk + (seq![']'] + (l6 + (bb + (seq!['}'] + rest))))))));
    lemma_peel(s, p6, l4, t4 + (l5 + (tk + (seq![']'] + (l6 + (bb + (seq!['}'] + rest)))))));
    lemma_peel(s, p7, t4, l5 + (tk + (seq![']'] + (l6 + (bb + (seq!['}'] + rest))))));
    lemma_peel(s, p8, l5, tk + (seq![']'] + (l6 + (bb + (seq!['}'] + rest)))));
    assert(suffix(s, p9) =~= (tk + seq![']']) + (l6 + (bb + (seq!['}'] + rest))));
    lemma_peel(s, p9, tk + seq![']'], l6 + (bb + (seq!['}'] + rest)));
    lemma_peel(s, p10, l6, bb + (seq!['}'] + rest));
    lemma_peel(s, p11, bb, seq!['}'] + rest);
}

/// Parses one route object. On the rendering of any route this returns
/// exactly that route.
#[verifier::rlimit(60)]
fn parse_route(s: &Vec<char>, i: usize) -> (r: Option<(Route, usize)>)
    requires
        i <= s.len(),
    ensures
        match r {
            Some(p) => i < p.1 <= s.len(),
            None => true,
        },
        forall|rv: RouteView, rest: Seq<char>|
            #[trigger] route_at(s@, i as int, rv, rest) ==> (r matches Some(p) && p.0@ == rv
                && p.1 as int == i + spec_json_route(rv).len()),
{
    let r1 = parse_lit(s, i, "{\"title\":");
    let j1 = match r1 {
        Some(j) => j,
        None => {
            proof {
                assert forall|rv: RouteView, rest: Seq<char>|
                    #[trigger] route_at(s@, i as int, rv, rest) implies false by {
                    lemma_route_parts(s@, i as int, rv, rest);
                }
            }
            return None;
        },
    };
    let r2 = parse_json_string(s, j1);
    let (title, j2) = match r2 {
        Some(p) => p,
        None => {
            proof {
                assert forall|rv: RouteView, rest: Seq<char>|
                    #[trigger] route_at(s@, i as int, rv, rest) implies false by {
                    lemma_route_parts(s@, i as int, rv, rest);
                }
            }
            return None;
        },
    };
    let r3 = parse_lit(s, j2, ",\"color\":");
    let j3 = match r3 {
        Some(j) => j,
        None => {
            proof {
                assert forall|rv: RouteView, rest: Seq<char>|
                    #[trigger] route_at(s@, i as int, rv, rest) implies false by {
                    lemma_route_parts(s@, i as int, rv, rest);
                }
            }
            return None;
        },
    };
    let r4 = parse_json_string(s, j3);
    let (color, j4) = match r4 {
        Some(p) => p,
        None => {
            proof {
                assert forall|rv: RouteView, rest: Seq<char>|
                    #[trigger] route_at(s@, i as int, rv, rest) implies false by {
                    lemma_route_parts(s@, i as int, rv, rest);
                }
            }
            return None;
        },
    };
    let r5 = parse_lit(s, j4, ",\"section\":");
    let j5 = match r5 {
        Some(j) => j,
        None => {
            proof {
                assert forall|rv: RouteView, rest: Seq<char>|
                    #[trigger] route_at(s@, i as int, rv, rest) implies false by {
                    lemma_route_parts(s@, i as int, rv, rest);
                }
            }
            return None;
        },
    };
    let r6 = parse_json_string(s, j5);
    let (section, j6) = match r6 {
        Some(p) => p,
        None => {
            proof {
                assert forall|rv: RouteView, rest: Seq<char>|
                    #[trigger] route_at(s@, i as int, rv, rest) implies false by {
                    lemma_route_parts(s@, i as int, rv, rest);
                }
            }
            return None;
        },
    };
    let r7 = parse_lit(s, j6, ",\"grade\":");
    let j7 = match r7 {
        Some(j) => j,
        None => {
            proof {
                assert forall|rv: RouteView, rest: Seq<char>|
                    #[trigger] route_at(s@, i as int, rv, rest) implies false by {
                    lemma_route_parts(s@, i as int, rv, rest);
                }
            }
            return None;
        },
    };
    let r8 = parse_json_string(s, j7);
    let (grade, j8) = match r8 {
        Some(p) => p,
        None => {
            proof {
                assert forall|rv: RouteView, rest: Seq<char>|
                    #[trigger] route_at(s@, i as int, rv, rest) implies false by {
                    lemma_route_parts(s@, i as int, rv, rest);
                }
            }
            return None;
        },
    };
    let r9 = parse_lit(s, j8, ",\"ticks\":[");
    let j9 = match r9 {
        Some(j) => j,
        None => {
            proof {
                assert forall|rv: RouteView, rest: Seq<char>|
                    #[trigger] route_at(s@, i as int, rv, rest) implies false by {
                    lemma_route_parts(s@, i as int, rv, rest);
                }
            }
            return None;
        },
    };
    let r10 = parse_ticks(s, j9);
    let (ticks, j10) = match r10 {
        Some(p) => p,
        None => {
            proof {
                assert forall|rv: RouteView, rest: Seq<char>|
                    #[trigger] route_at(s@, i as int, rv, rest) implies false by {
                    lemma_route_parts(s@, i as int, rv, rest);
                }
            }
            return None;
        },
    };
    let r11 = parse_lit(s, j10, ",\"retired\":");
    let j11 = match r11 {
        Some(j) => j,
        None => {
            proof {
                assert forall|rv: RouteView, rest: Seq<char>|
                    #[trigger] route_at(s@, i as int, rv, rest) implies false by {
                    lemma_route_parts(s@, i as int, rv, rest);
                }
            }
            return None;
        },
    };
    let r12 = parse_bool(s, j11);
    let (retired, j12) = match r12 {
        Some(p) => p,
        None => {
            proof {
                assert forall|rv: RouteView, rest: Seq<char>|
                    #[trigger] route_at(s@, i as int, rv, rest) implies false by {
                    lemma_route_parts(s@, i as int, rv, rest);
                }
            }
            return None;
        },
    };
    if j12 == s.len() || s[j12] != '}' {
        proof {
            assert forall|rv: RouteView, rest: Seq<char>|
                #[trigger] route_at(s@, i as int, rv, rest) implies false by {
                lemma_route_parts(s@, i as int, rv, rest);
                assert(suffix(s@, j12 as int)[0] == s@[j12 as int]);
            }
        }
        return None;
    }
    let route = Route { title, color, section, grade, ticks, retired };
    proof {
        assert forall|rv: RouteView, rest: Seq<char>|
            #[trigger] route_at(s@, i as int, rv, rest) implies route@ == rv && j12 + 1 == i
            + spec_json_route(rv).len() by {
            lemma_route_parts(s@, i as int, rv, rest);
        }
    }
    Some((route, j12 + 1))
}

proof fn lemma_rentry_parts(s: Seq<char>, i: int, e: EntryView, rest: Seq<char>)
    requires
        0 <= i <= s.len(),
        rentry_at(s, i, e, rest),
    ensures
        ({
            let dn = spec_dec_nat(e.0 as int);
            let rt = spec_json_route(e.1);
            let q1 = i + 1;
            let q2 = q1 + dn.len();
            let q3 = q2 + 2;
            &&& suffix(s, i) == seq!['"'] + (dn + (seq!['"', ':'] + (rt + rest)))
            &&& i < s.len() && s[i] == '"'
            &&& num_at(s, q1, e.0 as int, seq!['"', ':'] + (rt + rest))
            &&& suffix(s, q2) == seq!['"', ':'] + (rt + rest)
            &&& q2 + 1 < s.len() ==> (s[q2] == '"' && s[q2 + 1] == ':')
            &&& q2 + 2 <= s.len()
            &&& s[q2] == '"'
            &&& s[q2 + 1] == ':'
            &&& route_at(s, q3, e.1, rest)
            &&& spec_json_route_entry(e).len() == 1 + dn.len() + 2 + rt.len()
            &&& i + spec_json_route_entry(e).len() <= s.len()
        }),
{
    let dn = spec_dec_nat(e.0 as int);
    let rt = spec_json_route(e.1);
    let q1 = i + 1;
    let q2 = q1 + dn.len();
    assert(suffix(s, i) =~= seq!['"'] + (dn + (seq!['"', ':'] + (rt + rest))));
    lemma_peel(s, i, seq!['"'], dn + (seq!['"', ':'] + (rt + rest)));
    lemma_peel(s, q1, dn, seq!['"', ':'] + (rt + rest));
    lemma_peel(s, q2, seq!['"', ':'], rt + rest);
    assert(suffix(s, i)[0] == s[i]);
    assert(suffix(s, q2)[0] == s[q2]);
    assert(suffix(s, q2)[1] == s[q2 + 1]);
}

/// Parses one keyed route entry: a quoted decimal identifier, a colon, and
/// the route.
fn parse_route_entry(s: &Vec<char>, i: usize) -> (r: Option<((u128, Route), usize)>)
    requires
        i <= s.len(),
    ensures
        match r {
            Some(p) => i < p.1 <= s.len(),
            None => true,
        },
        forall|e: EntryView, rest: Seq<char>|
            #[trigger] rentry_at(s@, i as int, e, rest) ==> (r matches Some(p) && p.0.0 == e.0
                && p.0.1@ == e.1 && p.1 as int == i + spec_json_route_entry(e).len()),
{
    if i == s.len() || s[i] != '"' {
        proof {
            assert forall|e: EntryView, rest: Seq<char>|
                #[trigger] rentry_at(s@, i as int, e, rest) implies false by {
                lemma_rentry_parts(s@, i as int, e, rest);
            }
        }
        return None;
    }
    let r1 = parse_u128(s, i + 1);
    let (id, j1) = match r1 {
        Some(p) => p,
        None => {
            proof {
                assert forall|e: EntryView, rest: Seq<char>|
                    #[trigger] rentry_at(s@, i as int, e, rest) implies false by {
                    lemma_rentry_parts(s@, i as int, e, rest);
                }
            }
            return None;
        },
    };
    if s.len() - j1 < 2 || s[j1] != '"' || s[j1 + 1] != ':' {
        proof {
            assert forall|e: EntryView, rest: Seq<char>|
                #[trigger] rentry_at(s@, i as int, e, rest) implies false by {
                lemma_rentry_parts(s@, i as int, e, rest);
            }
        }
        return None;
    }
    let r2 = parse_route(s, j1 + 2);
    match r2 {
        Some((rt, j2)) => {
            proof {
                assert forall|e: EntryView, rest: Seq<char>|
                    #[trigger] rentry_at(s@, i as int, e, rest) implies id == e.0 && rt@ == e.1
                    && j2 as int == i + spec_json_route_entry(e).len() by {
                    lemma_rentry_parts(s@, i as int, e, rest);
                }
            }
            Some(((id, rt), j2))
        },
        None => {
            proof {
                assert forall|e: EntryView, rest: Seq<char>|
                    #[trigger] rentry_at(s@, i as int, e, rest) implies false by {
                    lemma_rentry_parts(s@, i as int, e, rest);
                }
            }
            None
        },
    }
}

/// Parses the comma-led tail of the routes object, through its closing
/// brace, appending entries to `out`.
#[verifier::rlimit(100)]
fn parse_routes_rest(s: &Vec<char>, i: usize, out: &mut Vec<(u128, Route)>) -> (r: Option<usize>)
    requires
        i <= s.len(),
    ensures
        match r {
            Some(j) => i < j <= s.len(),
            None => true,
        },
        forall|rs: Seq<EntryView>, rest: Seq<char>|
            #[trigger] routes_rest_at(s@, i as int, rs, rest) ==> (r matches Some(j) && j as int
                == i + spec_json_routes_rest(rs).len() + 1 && crate::order::entries_view(
                final(out)@,
            ) == crate::order::entries_view(old(out)@) + rs),
    decreases s.len() - i,
{
    if i == s.len() {
        proof {
            assert forall|rs: Seq<EntryView>, rest: Seq<char>|
                #[trigger] routes_rest_at(s@, i as int, rs, rest) implies false by {
                assert(suffix(s@, i as int).len() == 0);
                assert((spec_json_routes_rest(rs) + seq!['}'] + rest).len() >= 1);
            }
        }
        return None;
    }
    let c = s[i];
    proof {
        assert(suffix(s@, i as int)[0] == s@[i as int]);
    }
    if c == '}' {
        proof {
            assert forall|rs: Seq<EntryView>, rest: Seq<char>|
                #[trigger] routes_rest_at(s@, i as int, rs, rest) implies rs.len() == 0 && i + 1
                == i + spec_json_routes_rest(rs).len() + 1 && crate::order::entries_view(out@)
                == crate::order::entries_view(old(out)@) + rs by {
                if rs.len() > 0 {
                    assert(spec_json_routes_rest(rs) == seq![','] + spec_json_route_entry(rs[0])
                        + spec_json_routes_rest(rs.drop_first()));
                    assert((spec_json_routes_rest(rs) + seq!['}'] + rest)[0] == ',');
                    assert(false);
                }
                assert(crate::order::entries_view(out@) + rs =~= crate::order::entries_view(out@));
            }
        }
        return Some(i + 1);
    }
    if c != ',' {
        proof {
            assert forall|rs: Seq<EntryView>, rest: Seq<char>|
                #[trigger] routes_rest_at(s@, i as int, rs, rest) implies false by {
                if rs.len() > 0 {
                    assert(spec_json_routes_rest(rs) == seq![','] + spec_json_route_entry(rs[0])
                        + spec_json_routes_rest(rs.drop_first()));
                    assert((spec_json_routes_rest(rs) + seq!['}'] + rest)[0] == ',');
                } else {
                    assert((spec_json_routes_rest(rs) + seq!['}'] + rest)[0] == '}');
                }
            }
        }
        return None;
    }
    let r1 = parse_route_entry(s, i + 1);
    match r1 {
        Some((ent, j1)) => {
            let ghost entv = (ent.0, ent.1@);
            let ghost before = crate::order::entries_view(out@);
            out.push(ent);
            let ghost mid = crate::order::entries_view(out@);
            let r2 = parse_routes_rest(s, j1, out);
            proof {
                assert(mid =~= before.push(entv));
                assert forall|rs: Seq<EntryView>, rest: Seq<char>|
                    #[trigger] routes_rest_at(s@, i as int, rs, rest) implies (r2 matches Some(j)
                    && j as int == i + spec_json_routes_rest(rs).len() + 1
                    && crate::order::entries_view(final(out)@) == before + rs) by {
                    if rs.len() == 0 {
                        assert((spec_json_routes_rest(rs) + seq!['}'] + rest)[0] == '}');
                        assert(false);
                    }
                    assert(spec_json_routes_rest(rs) == seq![','] + spec_json_route_entry(rs[0])
                        + spec_json_routes_rest(rs.drop_first()));
                    assert(suffix(s@, i as int) =~= seq![','] + (spec_json_route_entry(rs[0]) + (
                    spec_json_routes_rest(rs.drop_first()) + seq!['}'] + rest)));
                    lemma_peel(
                        s@,
                        i as int,
                        seq![','],
                        spec_json_route_entry(rs[0]) + (spec_json_routes_rest(rs.drop_first())
                            + seq!['}'] + rest),
                    );
                    assert(rentry_at(
                        s@,
                        i + 1,
                        rs[0],
                        spec_json_routes_rest(rs.drop_first()) + seq!['}'] + rest,
                    ));
                    assert(entv == rs[0]);
                    lemma_peel(
                        s@,
                        i + 1,
                        spec_json_route_entry(rs[0]),
                        spec_json_routes_rest(rs.drop_first()) + seq!['}'] + rest,
                    );
                    assert(routes_rest_at(s@, j1 as int, rs.drop_first(), rest));
                    assert(before + rs =~= mid + rs.drop_first());
                }
            }
            r2
        },
        None => {
            proof {
                assert forall|rs: Seq<EntryView>, rest: Seq<char>|
                    #[trigger] routes_rest_at(s@, i as int, rs, rest) implies false by {
                    if rs.len() == 0 {
                        assert((spec_json_routes_rest(rs) + seq!['}'] + rest)[0] == '}');
                        assert(false);
                    }
                    assert(spec_json_routes_rest(rs) == seq![','] + spec_json_route_entry(rs[0])
                        + spec_json_routes_rest(rs.drop_first()));
                    assert(suffix(s@, i as int) =~= seq![','] + (spec_json_route_entry(rs[0]) + (
                    spec_json_routes_rest(rs.drop_first()) + seq!['}'] + rest)));
                    lemma_peel(
                        s@,
                        i as int,
                        seq![','],
                        spec_json_route_entry(rs[0]) + (spec_json_routes_rest(rs.drop_first())
                            + seq!['}'] + rest),
                    );
                    assert(rentry_at(
                        s@,
                        i + 1,
                        rs[0],
                        spec_json_routes_rest(rs.drop_first()) + seq!['}'] + rest,
                    ));
                }
            }
            None
        },
    }
}

proof fn lemma_routes_head(s: Seq<char>, i: int, rs: Seq<EntryView>, rest: Seq<char>)
    requires
        0 <= i <= s.len(),
        routes_at(s, i, rs, rest),
        rs.len() > 0,
    ensures
        rentry_at(s, i, rs[0], spec_json_routes_rest(rs.drop_first()) + seq!['}'] + rest),
        routes_rest_at(s, i + spec_json_route_entry(rs[0]).len(), rs.drop_first(), rest),
        spec_json_routes(rs).len() == spec_json_route_entry(rs[0]).len()
            + spec_json_routes_rest(rs.drop_first()).len(),
{
    assert(spec_json_routes(rs) == spec_json_route_entry(rs[0]) + spec_json_routes_rest(
        rs.drop_first(),
    ));
    assert(suffix(s, i) =~= spec_json_route_entry(rs[0]) + (spec_json_routes_rest(rs.drop_first())
        + seq!['}'] + rest));
    lemma_peel(
        s,
        i,
        spec_json_route_entry(rs[0]),
        spec_json_routes_rest(rs.drop_first()) + seq!['}'] + rest,
    );
}

/// Parses the routes object's contents and closing brace. On the rendering
/// of any ledger this returns exactly those entries, in order.
#[verifier::rlimit(100)]
fn parse_routes(s: &Vec<char>, i: usize) -> (r: Option<(Vec<(u128, Route)>, usize)>)
    requires
        i <= s.len(),
    ensures
        match r {
            Some(p) => i < p.1 <= s.len(),
            None => true,
        },
        forall|rs: Seq<EntryView>, rest: Seq<char>|
            #[trigger] routes_at(s@, i as int, rs, rest) ==> (r matches Some(p)
                && crate::order::entries_view(p.0@) == rs && p.1 as int == i + spec_json_routes(
                rs,
            ).len() + 1),
{
    if i == s.len() {
        proof {
            assert forall|rs: Seq<EntryView>, rest: Seq<char>|
                #[trigger] routes_at(s@, i as int, rs, rest) implies false by {
                assert(suffix(s@, i as int).len() == 0);
                assert((spec_json_routes(rs) + seq!['}'] + rest).len() >= 1);
            }
        }
        return None;
    }
    let c = s[i];
    proof {
        assert(suffix(s@, i as int)[0] == s@[i as int]);
    }
    if c == '}' {
        let empty: Vec<(u128, Route)> = Vec::new();
        proof {
            assert forall|rs: Seq<EntryView>, rest: Seq<char>|
                #[trigger] routes_at(s@, i as int, rs, rest) implies crate::order::entries_view(
                empty@,
            ) == rs && i + 1 == i + spec_json_routes(rs).len() + 1 by {
                if rs.len() > 0 {
                    assert(spec_json_routes(rs) == spec_json_route_entry(rs[0])
                        + spec_json_routes_rest(rs.drop_first()));
                    assert((spec_json_routes(rs) + seq!['}'] + rest)[0] == '"');
                    assert(false);
                }
                assert(crate::order::entries_view(empty@) =~= rs);
            }
        }
        return Some((empty, i + 1));
    }
    let mut out: Vec<(u128, Route)> = Vec::new();
    let r1 = parse_route_entry(s, i);
    match r1 {
        Some((ent, j1)) => {
            let ghost entv = (ent.0, ent.1@);
            out.push(ent);
            let ghost mid = crate::order::entries_view(out@);
            let r2 = parse_routes_rest(s, j1, &mut out);
            match r2 {
                Some(j2) => {
                    proof {
                        assert forall|rs: Seq<EntryView>, rest: Seq<char>|
                            #[trigger] routes_at(s@, i as int, rs, rest) implies
                            crate::order::entries_view(out@) == rs && j2 as int == i
                            + spec_json_routes(rs).len() + 1 by {
                            if rs.len() == 0 {
                                assert((spec_json_routes(rs) + seq!['}'] + rest)[0] == '}');
                                assert(false);
                            }
                            lemma_routes_head(s@, i as int, rs, rest);
                            assert(entv == rs[0]);
                            assert(routes_rest_at(s@, j1 as int, rs.drop_first(), rest));
                            assert(mid =~= Seq::<EntryView>::empty().push(rs[0]));
                            assert(crate::order::entries_view(out@) == mid + rs.drop_first());
                            assert(crate::order::entries_view(out@) =~= rs);
                        }
                    }
                    Some((out, j2))
                },
                None => {
                    proof {
                        assert forall|rs: Seq<EntryView>, rest: Seq<char>|
                            #[trigger] routes_at(s@, i as int, rs, rest) implies false by {
                            if rs.len() == 0 {
                                assert((spec_json_routes(rs) + seq!['}'] + rest)[0] == '}');
                                assert(false);
                            }
                            lemma_routes_head(s@, i as int, rs, rest);
                            assert(routes_rest_at(s@, j1 as int, rs.drop_first(), rest));
                        }
                    }
                    None
                },
            }
        },
        None => {
            proof {
                assert forall|rs: Seq<EntryView>, rest: Seq<char>|
                    #[trigger] routes_at(s@, i as int, rs, rest) implies false by {
                    if rs.len() == 0 {
                        assert((spec_json_routes(rs) + seq!['}'] + rest)[0] == '}');
                        assert(false);
                    }
                    lemma_routes_head(s@, i as int, rs, rest);
                }
            }
            None
        },
    }
}

/// One parsed catalog entry, before it is typed as a color, section or
/// grade.
pub struct TaxRow {
    pub key: String,
    pub group: String,
    pub label: String,
    pub sort: i32,
}

impl View for TaxRow {
    type V = (Seq<char>, TaxView);

    open spec fn view(&self) -> (Seq<char>, TaxView) {
        (self.key@, TaxView { group: self.group@, label: self.label@, sort: self.sort })
    }
}

/// The catalog content a row vector denotes.
pub open spec fn rows_view(v: Seq<TaxRow>) -> CatView {
    Seq::new(v.len(), |k: int| v[k]@)
}

#[verifier::rlimit(100)]
proof fn lemma_tentry_parts(s: Seq<char>, i: int, p: (Seq<char>, TaxView), rest: Seq<char>)
    requires
        0 <= i <= s.len(),
        tentry_at(s, i, p, rest),
    ensures
        ({
            let tkey = spec_json_string(p.0);
            let l1 = "{\"group\":"@;
            let tg = spec_json_string(p.1.group);
            let l2 = ",\"label\":"@;
            let tl = spec_json_string(p.1.label);
            let l3 = ",\"sort\":"@;
            let dn = spec_dec_int(p.1.sort as int);
            let q1 = i + tkey.len();
            let q2 = q1 + 1;
            let q3 = q2 + l1.len();
            let q4 = q3 + tg.len();
            let q5 = q4 + l2.len();
            let q6 = q5 + tl.len();
            let q7 = q6 + l3.len();
            let q8 = q7 + dn.len();
            &&& jstr_at(
                s,
                i,
                p.0,
                seq![':'] + (l1 + (tg + (l2 + (tl + (l3 + (dn + (seq!['}'] + rest))))))),
            )
            &&& suffix(s, q1) == seq![':'] + (l1 + (tg + (l2 + (tl + (l3 + (dn + (seq!['}']
                + rest)))))))
            &&& q1 < s.len() && s[q1] == ':'
            &&& suffix(s, q2) == l1 + (tg + (l2 + (tl + (l3 + (dn + (seq!['}'] + rest))))))
            &&& jstr_at(s, q3, p.1.group, l2 + (tl + (l3 + (dn + (seq!['}'] + rest)))))
            &&& suffix(s, q4) == l2 + (tl + (l3 + (dn + (seq!['}'] + rest))))
            &&& jstr_at(s, q5, p.1.label, l3 + (dn + (seq!['}'] + rest)))
            &&& suffix(s, q6) == l3 + (dn + (seq!['}'] + rest))
            &&& int_at(s, q7, p.1.sort as int, seq!['}'] + rest)
            &&& suffix(s, q8) == seq!['}'] + rest
            &&& q8 < s.len() && s[q8] == '}'
            &&& spec_json_tax_entry(p).len() == (q8 + 1) - i
            &&& i + spec_json_tax_entry(p).len() <= s.len()
        }),
{
    let tkey = spec_json_string(p.0);
    let l1 = "{\"group\":"@;
    let tg = spec_json_string(p.1.group);
    let l2 = ",\"label\":"@;
    let tl = spec_json_string(p.1.label);
    let l3 = ",\"sort\":"@;
    let dn = spec_dec_int(p.1.sort as int);
    let q1 = i + tkey.len();
    let q2 = q1 + 1;
    let q3 = q2 + l1.len();
    let q4 = q3 + tg.len();
    let q5 = q4 + l2.len();
    let q6 = q5 + tl.len();
    let q7 = q6 + l3.len();
    assert(suffix(s, i) =~= tkey + (seq![':'] + (l1 + (tg + (l2 + (tl + (l3 + (dn + (seq!['}']
        + rest)))))))));
    lemma_peel(s, i, tkey, seq![':'] + (l1 + (tg + (l2 + (tl + (l3 + (dn + (seq!['}'] + rest))))))));
    lemma_peel(s, q1, seq![':'], l1 + (tg + (l2 + (tl + (l3 + (dn + (seq!['}'] + rest)))))));
    lemma_peel(s, q2, l1, tg + (l2 + (tl + (l3 + (dn + (seq!['}'] + rest))))));
    lemma_peel(s, q3, tg, l2 + (tl + (l3 + (dn + (seq!['}'] + rest)))));
    lemma_peel(s, q4, l2, tl + (l3 + (dn + (seq!['}'] + rest))));
    lemma_peel(s, q5, tl, l3 + (dn + (seq!['}'] + rest)));
    lemma_peel(s, q6, l3, dn + (seq!['}'] + rest));
    lemma_peel(s, q7, dn, seq!['}'] + rest);
    assert(suffix(s, q1)[0] == s[q1]);
    assert(suffix(s, q7 + dn.len())[0] == s[q7 + dn.len()]);
}

/// Parses one keyed catalog entry.
fn parse_tax_entry(s: &Vec<char>, i: usize) -> (r: Option<(TaxRow, usize)>)
    requires
        i <= s.len(),
    ensures
        match r {
            Some(p) => i < p.1 <= s.len(),
            None => true,
        },
        forall|p: (Seq<char>, TaxView), rest: Seq<char>|
            #[trigger] tentry_at(s@, i as int, p, rest) ==> (r matches Some(q) && q.0@ == p
                && q.1 as int == i + spec_json_tax_entry(p).len()),
{
    let r1 = parse_json_string(s, i);
    let (key, j1) = match r1 {
        Some(q) => q,
        None => {
            proof {
                assert forall|p: (Seq<char>, TaxView), rest: Seq<char>|
                    #[trigger] tentry_at(s@, i as int, p, rest) implies false by {
                    lemma_tentry_parts(s@, i as int, p, rest);
                }
            }
            return None;
        },
    };
    if j1 == s.len() || s[j1] != ':' {
        proof {
            assert forall|p: (Seq<char>, TaxView), rest: Seq<char>|
                #[trigger] tentry_at(s@, i as int, p, rest) implies false by {
                lemma_tentry_parts(s@, i as int, p, rest);
            }
        }
        return None;
    }
    let r2 = parse_lit(s, j1 + 1, "{\"group\":");
    let j2 = match r2 {
        Some(j) => j,
        None => {
            proof {
                assert forall|p: (Seq<char>, TaxView), rest: Seq<char>|
                    #[trigger] tentry_at(s@, i as int, p, rest) implies false by {
                    lemma_tentry_parts(s@, i as int, p, rest);
                }
            }
            return None;
        },
    };
    let r3 = parse_json_string(s, j2);
    let (group, j3) = match r3 {
        Some(q) => q,
        None => {
            proof {
                assert forall|p: (Seq<char>, TaxView), rest: Seq<char>|
                    #[trigger] tentry_at(s@, i as int, p, rest) implies false by {
                    lemma_tentry_parts(s@, i as int, p, rest);
                }
            }
            return None;
        },
    };
    let r4 = parse_lit(s, j3, ",\"label\":");
    let j4 = match r4 {
        Some(j) => j,
        None => {
            proof {
                assert forall|p: (Seq<char>, TaxView), rest: Seq<char>|
                    #[trigger] tentry_at(s@, i as int, p, rest) implies false by {
                    lemma_tentry_parts(s@, i as int, p, rest);
                }
            }
            return None;
        },
    };
    let r5 = parse_json_string(s, j4);
    let (label, j5) = match r5 {
        Some(q) => q,
        None => {
            proof {
                assert forall|p: (Seq<char>, TaxView), rest: Seq<char>|
                    #[trigger] tentry_at(s@, i as int, p, rest) implies false by {
                    lemma_tentry_parts(s@, i as int, p, rest);
                }
            }
            return None;
        },
    };
    let r6 = parse_lit(s, j5, ",\"sort\":");
    let j6 = match r6 {
        Some(j) => j,
        None => {
            proof {
                assert forall|p: (Seq<char>, TaxView), rest: Seq<char>|
                    #[trigger] tentry_at(s@, i as int, p, rest) implies false by {
                    lemma_tentry_parts(s@, i as int, p, rest);
                }
            }
            return None;
        },
    };
    let r7 = parse_i32(s, j6);
    let (sort, j7) = match r7 {
        Some(q) => q,
        None => {
            proof {
                assert forall|p: (Seq<char>, TaxView), rest: Seq<char>|
                    #[trigger] tentry_at(s@, i as int, p, rest) implies false by {
                    lemma_tentry_parts(s@, i as int, p, rest);
                }
            }
            return None;
        },
    };
    if j7 == s.len() || s[j7] != '}' {
        proof {
            assert forall|p: (Seq<char>, TaxView), rest: Seq<char>|
                #[trigger] tentry_at(s@, i as int, p, rest) implies false by {
                lemma_tentry_parts(s@, i as int, p, rest);
            }
        }
        return None;
    }
    let row = TaxRow { key, group, label, sort };
    proof {
        assert forall|p: (Seq<char>, TaxView), rest: Seq<char>|
            #[trigger] tentry_at(s@, i as int, p, rest) implies row@ == p && j7 + 1 == i
            + spec_json_tax_entry(p).len() by {
            lemma_tentry_parts(s@, i as int, p, rest);
        }
    }
    Some((row, j7 + 1))
}

/// Parses the comma-led tail of a catalog object, through its closing
/// brace, appending rows to `out`.
#[verifier::rlimit(100)]
fn parse_taxes_rest(s: &Vec<char>, i: usize, out: &mut Vec<TaxRow>) -> (r: Option<usize>)
    requires
        i <= s.len(),
    ensures
        match r {
            Some(j) => i < j <= s.len(),
            None => true,
        },
        forall|c: CatView, rest: Seq<char>|
            #[trigger] taxes_rest_at(s@, i as int, c, rest) ==> (r matches Some(j) && j as int == i
                + spec_json_taxes_rest(c).len() + 1 && rows_view(final(out)@) == rows_view(
                old(out)@,
            ) + c),
    decreases s.len() - i,
{
    if i == s.len() {
        proof {
            assert forall|c: CatView, rest: Seq<char>|
                #[trigger] taxes_rest_at(s@, i as int, c, rest) implies false by {
                assert(suffix(s@, i as int).len() == 0);
                assert((spec_json_taxes_rest(c) + seq!['}'] + rest).len() >= 1);
            }
        }
        return None;
    }
    let ch = s[i];
    proof {
        assert(suffix(s@, i as int)[0] == s@[i as int]);
    }
    if ch == '}' {
        proof {
            assert forall|c: CatView, rest: Seq<char>|
                #[trigger] taxes_rest_at(s@, i as int, c, rest) implies c.len() == 0 && i + 1 == i
                + spec_json_taxes_rest(c).len() + 1 && rows_view(out@) == rows_view(old(out)@)
                + c by {
                if c.len() > 0 {
                    assert(spec_json_taxes_rest(c) == seq![','] + spec_json_tax_entry(c[0])
                        + spec_json_taxes_rest(c.drop_first()));
                    assert((spec_json_taxes_rest(c) + seq!['}'] + rest)[0] == ',');
                    assert(false);
                }
                assert(rows_view(out@) + c =~= rows_view(out@));
            }
        }
        return Some(i + 1);
    }
    if ch != ',' {
        proof {
            assert forall|c: CatView, rest: Seq<char>|
                #[trigger] taxes_rest_at(s@, i as int, c, rest) implies false by {
                if c.len() > 0 {
                    assert(spec_json_taxes_rest(c) == seq![','] + spec_json_tax_entry(c[0])
                        + spec_json_taxes_rest(c.drop_first()));
                    assert((spec_json_taxes_rest(c) + seq!['}'] + rest)[0] == ',');
                } else {
                    assert((spec_json_taxes_rest(c) + seq!['}'] + rest)[0] == '}');
                }
            }
        }
        return None;
    }
    let r1 = parse_tax_entry(s, i + 1);
    match r1 {
        Some((row, j1)) => {
            let ghost rowv = row@;
            let ghost before = rows_view(out@);
            out.push(row);
            let ghost mid = rows_view(out@);
            let r2 = parse_taxes_rest(s, j1, out);
            proof {
                assert(mid =~= before.push(rowv));
                assert forall|c: CatView, rest: Seq<char>|
                    #[trigger] taxes_rest_at(s@, i as int, c, rest) implies (r2 matches Some(j)
                    && j as int == i + spec_json_taxes_rest(c).len() + 1 && rows_view(final(out)@)
                    == before + c) by {
                    if c.len() == 0 {
                        assert((spec_json_taxes_rest(c) + seq!['}'] + rest)[0] == '}');
                        assert(false);
                    }
                    assert(spec_json_taxes_rest(c) == seq![','] + spec_json_tax_entry(c[0])
                        + spec_json_taxes_rest(c.drop_first()));
                    assert(suffix(s@, i as int) =~= seq![','] + (spec_json_tax_entry(c[0]) + (
                    spec_json_taxes_rest(c.drop_first()) + seq!['}'] + rest)));
                    lemma_peel(
                        s@,
                        i as int,
                        seq![','],
                        spec_json_tax_entry(c[0]) + (spec_json_taxes_rest(c.drop_first())
                            + seq!['}'] + rest),
                    );
                    assert(tentry_at(
                        s@,
                        i + 1,
                        c[0],
                        spec_json_taxes_rest(c.drop_first()) + seq!['}'] + rest,
                    ));
                    assert(rowv == c[0]);
                    lemma_peel(
                        s@,
                        i + 1,
                        spec_json_tax_entry(c[0]),
                        spec_json_taxes_rest(c.drop_first()) + seq!['}'] + rest,
                    );
                    assert(taxes_rest_at(s@, j1 as int, c.drop_first(), rest));
                    assert(before + c =~= mid + c.drop_first());
                }
            }
            r2
        },
        None => {
            proof {
                assert forall|c: CatView, rest: Seq<char>|
                    #[trigger] taxes_rest_at(s@, i as int, c, rest) implies false by {
                    if c.len() == 0 {
                        assert((spec_json_taxes_rest(c) + seq!['}'] + rest)[0] == '}');
                        assert(false);
                    }
                    assert(spec_json_taxes_rest(c) == seq![','] + spec_json_tax_entry(c[0])
                        + spec_json_taxes_rest(c.drop_first()));
                    assert(suffix(s@, i as int) =~= seq![','] + (spec_json_tax_entry(c[0]) + (
                    spec_json_taxes_rest(c.drop_first()) + seq!['}'] + rest)));
                    lemma_peel(
                        s@,
                        i as int,
                        seq![','],
                        spec_json_tax_entry(c[0]) + (spec_json_taxes_rest(c.drop_first())
                            + seq!['}'] + rest),
                    );
                    assert(tentry_at(
                        s@,
                        i + 1,
                        c[0],
                        spec_json_taxes_rest(c.drop_first()) + seq!['}'] + rest,
                    ));
                }
            }
            None
        },
    }
}

/// Parses a catalog object's contents and closing brace. On the rendering
/// of any catalog this returns exactly its entries, in order.
#[verifier::rlimit(100)]
fn parse_taxes(s: &Vec<char>, i: usize) -> (r: Option<(Vec<TaxRow>, usize)>)
    requires
        i <= s.len(),
    ensures
        match r {
            Some(p) => i < p.1 <= s.len(),
            None => true,
        },
        forall|c: CatView, rest: Seq<char>|
            #[trigger] taxes_at(s@, i as int, c, rest) ==> (r matches Some(p) && rows_view(p.0@)
                == c && p.1 as int == i + spec_json_taxes(c).len() + 1),
{
    if i == s.len() {
        proof {
            assert forall|c: CatView, rest: Seq<char>|
                #[trigger] taxes_at(s@, i as int, c, rest) implies false by {
                assert(suffix(s@, i as int).len() == 0);
                assert((spec_json_taxes(c) + seq!['}'] + rest).len() >= 1);
            }
        }
        return None;
    }
    let ch = s[i];
    proof {
        assert(suffix(s@, i as int)[0] == s@[i as int]);
    }
    if ch == '}' {
        let empty: Vec<TaxRow> = Vec::new();
        proof {
            assert forall|c: CatView, rest: Seq<char>|
                #[trigger] taxes_at(s@, i as int, c, rest) implies rows_view(empty@) == c && i + 1
                == i + spec_json_taxes(c).len() + 1 by {
                if c.len() > 0 {
                    assert(spec_json_taxes(c) == spec_json_tax_entry(c[0]) + spec_json_taxes_rest(
                        c.drop_first(),
                    ));
                    assert((spec_json_taxes(c) + seq!['}'] + rest)[0] == '"');
                    assert(false);
                }
                assert(rows_view(empty@) =~= c);
            }
        }
        return Some((empty, i + 1));
    }
    let mut out: Vec<TaxRow> = Vec::new();
    let r1 = parse_tax_entry(s, i);
    match r1 {
        Some((row, j1)) => {
            let ghost rowv = row@;
            out.push(row);
            let ghost mid = rows_view(out@);
            let r2 = parse_taxes_rest(s, j1, &mut out);
            match r2 {
                Some(j2) => {
                    proof {
                        assert forall|c: CatView, rest: Seq<char>|
                            #[trigger] taxes_at(s@, i as int, c, rest) implies rows_view(out@) == c
                            && j2 as int == i + spec_json_taxes(c).len() + 1 by {
                            if c.len() == 0 {
                                assert((spec_json_taxes(c) + seq!['}'] + rest)[0] == '}');
                                assert(false);
                            }
                            assert(spec_json_taxes(c) == spec_json_tax_entry(c[0])
                                + spec_json_taxes_rest(c.drop_first()));
                            assert(suffix(s@, i as int) =~= spec_json_tax_entry(c[0]) + (
                            spec_json_taxes_rest(c.drop_first()) + seq!['}'] + rest));
                            assert(tentry_at(
                                s@,
                                i as int,
                                c[0],
                                spec_json_taxes_rest(c.drop_first()) + seq!['}'] + rest,
                            ));
                            assert(rowv == c[0]);
                            lemma_peel(
                                s@,
                                i as int,
                                spec_json_tax_entry(c[0]),
                                spec_json_taxes_rest(c.drop_first()) + seq!['}'] + rest,
                            );
                            assert(taxes_rest_at(s@, j1 as int, c.drop_first(), rest));
                            assert(mid =~= Seq::<(Seq<char>, TaxView)>::empty().push(c[0]));
                            assert(rows_view(out@) == mid + c.drop_first());
                            assert(rows_view(out@) =~= c);
                        }
                    }
                    Some((out, j2))
                },
                None => {
                    proof {
                        assert forall|c: CatView, rest: Seq<char>|
                            #[trigger] taxes_at(s@, i as int, c, rest) implies false by {
                            if c.len() == 0 {
                                assert((spec_json_taxes(c) + seq!['}'] + rest)[0] == '}');
                                assert(false);
                            }
                            assert(spec_json_taxes(c) == spec_json_tax_entry(c[0])
                                + spec_json_taxes_rest(c.drop_first()));
                            assert(suffix(s@, i as int) =~= spec_json_tax_entry(c[0]) + (
                            spec_json_taxes_rest(c.drop_first()) + seq!['}'] + rest));
                            assert(tentry_at(
                                s@,
                                i as int,
                                c[0],
                                spec_json_taxes_rest(c.drop_first()) + seq!['}'] + rest,
                            ));
                            lemma_peel(
                                s@,
                                i as int,
                                spec_json_tax_entry(c[0]),
                                spec_json_taxes_rest(c.drop_first()) + seq!['}'] + rest,
                            );
                            assert(taxes_rest_at(s@, j1 as int, c.drop_first(), rest));
                        }
                    }
                    None
                },
            }
        },
        None => {
            proof {
                assert forall|c: CatView, rest: Seq<char>|
                    #[trigger] taxes_at(s@, i as int, c, rest) implies false by {
                    if c.len() == 0 {
                        assert((spec_json_taxes(c) + seq!['}'] + rest)[0] == '}');
                        assert(false);
                    }
                    assert(spec_json_taxes(c) == spec_json_tax_entry(c[0]) + spec_json_taxes_rest(
                        c.drop_first(),
                    ));
                    assert(suffix(s@, i as int) =~= spec_json_tax_entry(c[0]) + (
                    spec_json_taxes_rest(c.drop_first()) + seq!['}'] + rest));
                    assert(tentry_at(
                        s@,
                        i as int,
                        c[0],
                        spec_json_taxes_rest(c.drop_first()) + seq!['}'] + rest,
                    ));
                }
            }
            None
        },
    }
}

fn rows_to_colors(mut v: Vec<TaxRow>) -> (r: Vec<(String, crate::taxonomy::Color)>)
    ensures
        crate::taxonomy::cat_view(r@) == rows_view(v@),
{
    let ghost orig = rows_view(v@);
    let mut out: Vec<(String, crate::taxonomy::Color)> = Vec::new();
    let mut k: usize = 0;
    while k < v.len()
        invariant
            k <= v.len(),
            orig == rows_view(v@),
            crate::taxonomy::cat_view(out@) == orig.subrange(0, k as int),
        decreases v.len() - k,
    {
        let ghost prev = out@;
        let row = &v[k];
        out.push(
            (
                row.key.clone(),
                crate::taxonomy::Color {
                    group: row.group.clone(),
                    label: row.label.clone(),
                    sort: row.sort,
                },
            ),
        );
        proof {
            assert(crate::taxonomy::cat_view(prev).len() == prev.len());
            assert(orig.subrange(0, k as int).len() == k);
            assert(prev.len() == k);
            assert forall|t: int|
                0 <= t < out@.len() implies #[trigger] crate::taxonomy::cat_view(out@)[t]
                == orig.subrange(0, k + 1)[t] by {
                if t < k {
                    assert(out@[t] == prev[t]);
                    assert(crate::taxonomy::cat_view(prev)[t] == orig.subrange(0, k as int)[t]);
                } else {
                    assert(out@[t].0@ == v@[k as int].key@);
                }
            }
            assert(crate::taxonomy::cat_view(out@) =~= orig.subrange(0, k + 1));
        }
        k += 1;
    }
    proof {
        assert(orig.subrange(0, orig.len() as int) =~= orig);
    }
    out
}

fn rows_to_sections(mut v: Vec<TaxRow>) -> (r: Vec<(String, crate::taxonomy::Section)>)
    ensures
        crate::taxonomy::cat_view(r@) == rows_view(v@),
{
    let ghost orig = rows_view(v@);
    let mut out: Vec<(String, crate::taxonomy::Section)> = Vec::new();
    let mut k: usize = 0;
    while k < v.len()
        invariant
            k <= v.len(),
            orig == rows_view(v@),
            crate::taxonomy::cat_view(out@) == orig.subrange(0, k as int),
        decreases v.len() - k,
    {
        let ghost prev = out@;
        let row = &v[k];
        out.push(
            (
                row.key.clone(),
                crate::taxonomy::Section {
                    group: row.group.clone(),
                    label: row.label.clone(),
                    sort: row.sort,
                },
            ),
        );
        proof {
            assert(crate::taxonomy::cat_view(prev).len() == prev.len());
            assert(orig.subrange(0, k as int).len() == k);
            assert(prev.len() == k);
            assert forall|t: int|
                0 <= t < out@.len() implies #[trigger] crate::taxonomy::cat_view(out@)[t]
                == orig.subrange(0, k + 1)[t] by {
                if t < k {
                    assert(out@[t] == prev[t]);
                    assert(crate::taxonomy::cat_view(prev)[t] == orig.subrange(0, k as int)[t]);
                } else {
                    assert(out@[t].0@ == v@[k as int].key@);
                }
            }
            assert(crate::taxonomy::cat_view(out@) =~= orig.subrange(0, k + 1));
        }
        k += 1;
    }
    proof {
        assert(orig.subrange(0, orig.len() as int) =~= orig);
    }
    out
}

fn rows_to_grades(mut v: Vec<TaxRow>) -> (r: Vec<(String, crate::taxonomy::Grade)>)
    ensures
        crate::taxonomy::cat_view(r@) == rows_view(v@),
{
    let ghost orig = rows_view(v@);
    let mut out: Vec<(String, crate::taxonomy::Grade)> = Vec::new();
    let mut k: usize = 0;
    while k < v.len()
        invariant
            k <= v.len(),
            orig == rows_view(v@),
            crate::taxonomy::cat_view(out@) == orig.subrange(0, k as int),
        decreases v.len() - k,
    {
        let ghost prev = out@;
        let row = &v[k];
        out.push(
            (
                row.key.clone(),
                crate::taxonomy::Grade {
                    group: row.group.clone(),
                    label: row.label.clone(),
                    sort: row.sort,
                },
            ),
        );
        proof {
            assert(crate::taxonomy::cat_view(prev).len() == prev.len());
            assert(orig.subrange(0, k as int).len() == k);
            assert(prev.len() == k);
            assert forall|t: int|
                0 <= t < out@.len() implies #[trigger] crate::taxonomy::cat_view(out@)[t]
                == orig.subrange(0, k + 1)[t] by {
                if t < k {
                    assert(out@[t] == prev[t]);
                    assert(crate::taxonomy::cat_view(prev)[t] == orig.subrange(0, k as int)[t]);
                } else {
                    assert(out@[t].0@ == v@[k as int].key@);
                }
            }
            assert(crate::taxonomy::cat_view(out@) =~= orig.subrange(0, k + 1));
        }
        k += 1;
    }
    proof {
        assert(orig.subrange(0, orig.len() as int) =~= orig);
    }
    out
}

proof fn lemma_settings_chain(
    s: Seq<char>,
    i: int,
    a: Seq<char>,
    b: Seq<char>,
    c: Seq<char>,
    rest: Seq<char>,
)
    requires
        0 <= i <= s.len(),
        suffix(s, i) == "{\"colors\":{"@ + a + seq!['}'] + ",\"sections\":{"@ + b + seq!['}']
            + ",\"grades\":{"@ + c + seq!['}'] + seq!['}'] + rest,
    ensures
        ({
            let l1 = "{\"colors\":{"@;
            let l2 = ",\"sections\":{"@;
            let l3 = ",\"grades\":{"@;
            let q1 = i + l1.len();
            let q2 = q1 + a.len() + 1;
            let q3 = q2 + l2.len();
            let q4 = q3 + b.len() + 1;
            let q5 = q4 + l3.len();
            let q6 = q5 + c.len() + 1;
            &&& suffix(s, i) == l1 + ((a + seq!['}']) + (l2 + ((b + seq!['}']) + (l3 + ((c
                + seq!['}']) + (seq!['}'] + rest))))))
            &&& suffix(s, q1) == (a + seq!['}']) + (l2 + ((b + seq!['}']) + (l3 + ((c + seq!['}'])
                + (seq!['}'] + rest)))))
            &&& suffix(s, q2) == l2 + ((b + seq!['}']) + (l3 + ((c + seq!['}']) + (seq!['}']
                + rest))))
            &&& suffix(s, q3) == (b + seq!['}']) + (l3 + ((c + seq!['}']) + (seq!['}'] + rest)))
            &&& suffix(s, q4) == l3 + ((c + seq!['}']) + (seq!['}'] + rest))
            &&& suffix(s, q5) == (c + seq!['}']) + (seq!['}'] + rest)
            &&& suffix(s, q6) == seq!['}'] + rest
            &&& q6 < s.len() && s[q6] == '}'
        }),
{
    let l1 = "{\"colors\":{"@;
    let l2 = ",\"sections\":{"@;
    let l3 = ",\"grades\":{"@;
    let q1 = i + l1.len();
    let q2 = q1 + a.len() + 1;
    let q3 = q2 + l2.len();
    let q4 = q3 + b.len() + 1;
    let q5 = q4 + l3.len();
    assert(suffix(s, i) =~= l1 + ((a + seq!['}']) + (l2 + ((b + seq!['}']) + (l3 + ((c + seq!['}'])
        + (seq!['}'] + rest)))))));
    lemma_peel(
        s,
        i,
        l1,
        (a + seq!['}']) + (l2 + ((b + seq!['}']) + (l3 + ((c + seq!['}']) + (seq!['}'] + rest))))),
    );
    lemma_peel(
        s,
        q1,
        a + seq!['}'],
        l2 + ((b + seq!['}']) + (l3 + ((c + seq!['}']) + (seq!['}'] + rest)))),
    );
    lemma_peel(s, q2, l2, (b + seq!['}']) + (l3 + ((c + seq!['}']) + (seq!['}'] + rest))));
    lemma_peel(s, q3, b + seq!['}'], l3 + ((c + seq!['}']) + (seq!['}'] + rest)));
    lemma_peel(s, q4, l3, (c + seq!['}']) + (seq!['}'] + rest));
    lemma_peel(s, q5, c + seq!['}'], seq!['}'] + rest);
    assert(suffix(s, q5 + c.len() + 1)[0] == s[q5 + c.len() + 1]);
}

#[verifier::rlimit(100)]
proof fn lemma_settings_parts(s: Seq<char>, i: int, sv: SettingsView, rest: Seq<char>)
    requires
        0 <= i <= s.len(),
        settings_at(s, i, sv, rest),
    ensures
        ({
            let l1 = "{\"colors\":{"@;
            let tc = spec_json_taxes(sv.colors);
            let l2 = ",\"sections\":{"@;
            let tse = spec_json_taxes(sv.sections);
            let l3 = ",\"grades\":{"@;
            let tg = spec_json_taxes(sv.grades);
            let q1 = i + l1.len();
            let q2 = q1 + tc.len() + 1;
            let q3 = q2 + l2.len();
            let q4 = q3 + tse.len() + 1;
            let q5 = q4 + l3.len();
            let q6 = q5 + tg.len() + 1;
            &&& suffix(s, i) == l1 + ((tc + seq!['}']) + (l2 + ((tse + seq!['}']) + (l3 + ((tg
                + seq!['}']) + (seq!['}'] + rest))))))
            &&& taxes_at(
                s,
                q1,
                sv.colors,
                l2 + ((tse + seq!['}']) + (l3 + ((tg + seq!['}']) + (seq!['}'] + rest)))),
            )
            &&& suffix(s, q2) == l2 + ((tse + seq!['}']) + (l3 + ((tg + seq!['}']) + (seq!['}']
                + rest))))
            &&& taxes_at(s, q3, sv.sections, l3 + ((tg + seq!['}']) + (seq!['}'] + rest)))
            &&& suffix(s, q4) == l3 + ((tg + seq!['}']) + (seq!['}'] + rest))
            &&& taxes_at(s, q5, sv.grades, seq!['}'] + rest)
            &&& suffix(s, q6) == seq!['}'] + rest
            &&& q6 < s.len() && s[q6] == '}'
            &&& spec_json_settings(sv).len() == (q6 + 1) - i
            &&& i + spec_json_settings(sv).len() <= s.len()
        }),
{
    let tc = spec_json_taxes(sv.colors);
    let tse = spec_json_taxes(sv.sections);
    let tg = spec_json_taxes(sv.grades);
    lemma_settings_chain(s, i, tc, tse, tg, rest);
}

/// Parses the settings object./// Parses the settings object. On the rendering of any settings this
/// returns exactly those catalogs.
#[verifier::rlimit(100)]
fn parse_settings(s: &Vec<char>, i: usize) -> (r: Option<(crate::taxonomy::Settings, usize)>)
    requires
        i <= s.len(),
    ensures
        match r {
            Some(p) => i < p.1 <= s.len(),
            None => true,
        },
        forall|sv: SettingsView, rest: Seq<char>|
            #[trigger] settings_at(s@, i as int, sv, rest) ==> (r matches Some(p) && p.0@ == sv
                && p.1 as int == i + spec_json_settings(sv).len()),
{
    let r1 = parse_lit(s, i, "{\"colors\":{");
    let j1 = match r1 {
        Some(j) => j,
        None => {
            proof {
                assert forall|sv: SettingsView, rest: Seq<char>|
                    #[trigger] settings_at(s@, i as int, sv, rest) implies false by {
                    lemma_settings_parts(s@, i as int, sv, rest);
                }
            }
            return None;
        },
    };
    let r2 = parse_taxes(s, j1);
    let (colors_rows, j2) = match r2 {
        Some(p) => p,
        None => {
            proof {
                assert forall|sv: SettingsView, rest: Seq<char>|
                    #[trigger] settings_at(s@, i as int, sv, rest) implies false by {
                    lemma_settings_parts(s@, i as int, sv, rest);
                }
            }
            return None;
        },
    };
    let r3 = parse_lit(s, j2, ",\"sections\":{");
    let j3 = match r3 {
        Some(j) => j,
        None => {
            proof {
                assert forall|sv: SettingsView, rest: Seq<char>|
                    #[trigger] settings_at(s@, i as int, sv, rest) implies false by {
                    lemma_settings_parts(s@, i as int, sv, rest);
                }
            }
            return None;
        },
    };
    let r4 = parse_taxes(s, j3);
    let (sections_rows, j4) = match r4 {
        Some(p) => p,
        None => {
            proof {
                assert forall|sv: SettingsView, rest: Seq<char>|
                    #[trigger] settings_at(s@, i as int, sv, rest) implies false by {
                    lemma_settings_parts(s@, i as int, sv, rest);
                }
            }
            return None;
        },
    };
    let r5 = parse_lit(s, j4, ",\"grades\":{");
    let j5 = match r5 {
        Some(j) => j,
        None => {
            proof {
                assert forall|sv: SettingsView, rest: Seq<char>|
                    #[trigger] settings_at(s@, i as int, sv, rest) implies false by {
                    lemma_settings_parts(s@, i as int, sv, rest);
                }
            }
            return None;
        },
    };
    let r6 = parse_taxes(s, j5);
    let (grades_rows, j6) = match r6 {
        Some(p) => p,
        None => {
            proof {
                assert forall|sv: SettingsView, rest: Seq<char>|
                    #[trigger] settings_at(s@, i as int, sv, rest) implies false by {
                    lemma_settings_parts(s@, i as int, sv, rest);
                }
            }
            return None;
        },
    };
    if j6 == s.len() || s[j6] != '}' {
        proof {
            assert forall|sv: SettingsView, rest: Seq<char>|
                #[trigger] settings_at(s@, i as int, sv, rest) implies false by {
                lemma_settings_parts(s@, i as int, sv, rest);
            }
        }
        return None;
    }
    let ghost cv = rows_view(colors_rows@);
    let ghost sev = rows_view(sections_rows@);
    let ghost gv = rows_view(grades_rows@);
    let settings = crate::taxonomy::Settings {
        colors: rows_to_colors(colors_rows),
        sections: rows_to_sections(sections_rows),
        grades: rows_to_grades(grades_rows),
    };
    proof {
        assert forall|sv: SettingsView, rest: Seq<char>|
            #[trigger] settings_at(s@, i as int, sv, rest) implies settings@ == sv && j6 + 1 == i
            + spec_json_settings(sv).len() by {
            lemma_settings_parts(s@, i as int, sv, rest);
        }
    }
    Some((settings, j6 + 1))
}

proof fn lemma_export_chain(s: Seq<char>, i: int, tr: Seq<char>, ts: Seq<char>, rest: Seq<char>)
    requires
        0 <= i <= s.len(),
        suffix(s, i) == "{\"routes\":{"@ + tr + seq!['}'] + ",\"settings\":"@ + ts + seq!['}']
            + rest,
    ensures
        ({
            let l1 = "{\"routes\":{"@;
            let l2 = ",\"settings\":"@;
            let q1 = i + l1.len();
            let q2 = q1 + tr.len() + 1;
            let q3 = q2 + l2.len();
            let q4 = q3 + ts.len();
            &&& suffix(s, q1) == tr + (seq!['}'] + (l2 + (ts + (seq!['}'] + rest))))
            &&& suffix(s, q1) == (tr + seq!['}']) + (l2 + (ts + (seq!['}'] + rest)))
            &&& suffix(s, i) == l1 + ((tr + seq!['}']) + (l2 + (ts + (seq!['}'] + rest))))
            &&& suffix(s, q2) == l2 + (ts + (seq!['}'] + rest))
            &&& suffix(s, q3) == ts + (seq!['}'] + rest)
            &&& suffix(s, q4) == seq!['}'] + rest
            &&& q4 < s.len() && s[q4] == '}'
            &&& q4 + 1 <= s.len()
        }),
{
    let l1 = "{\"routes\":{"@;
    let l2 = ",\"settings\":"@;
    let q1 = i + l1.len();
    let q2 = q1 + tr.len() + 1;
    let q3 = q2 + l2.len();
    assert(suffix(s, i) =~= l1 + (tr + (seq!['}'] + (l2 + (ts + (seq!['}'] + rest))))));
    assert(suffix(s, i) =~= l1 + ((tr + seq!['}']) + (l2 + (ts + (seq!['}'] + rest)))));
    lemma_peel(s, i, l1, tr + (seq!['}'] + (l2 + (ts + (seq!['}'] + rest)))));
    assert(suffix(s, q1) =~= (tr + seq!['}']) + (l2 + (ts + (seq!['}'] + rest))));
    lemma_peel(s, q1, tr + seq!['}'], l2 + (ts + (seq!['}'] + rest)));
    lemma_peel(s, q2, l2, ts + (seq!['}'] + rest));
    lemma_peel(s, q3, ts, seq!['}'] + rest);
    assert(suffix(s, q3 + ts.len())[0] == s[q3 + ts.len()]);
}

/// At position `i`, the input continues with the settings clause that
/// closes a snapshot: the settings label, the settings object, the final
/// brace, and then `rest`.
spec fn close_at(s: Seq<char>, i: int, sv: SettingsView, rest: Seq<char>) -> bool {
    suffix(s, i) == ",\"settings\":"@ + (spec_json_settings(sv) + (seq!['}'] + rest))
}

proof fn lemma_close_parts(s: Seq<char>, i: int, sv: SettingsView, rest: Seq<char>)
    requires
        0 <= i <= s.len(),
        close_at(s, i, sv, rest),
    ensures
        ({
            let l2 = ",\"settings\":"@;
            let ts = spec_json_settings(sv);
            let q3 = i + l2.len();
            let q4 = q3 + ts.len();
            &&& settings_at(s, q3, sv, seq!['}'] + rest)
            &&& suffix(s, q4) == seq!['}'] + rest
            &&& q4 < s.len() && s[q4] == '}'
        }),
{
    let l2 = ",\"settings\":"@;
    let ts = spec_json_settings(sv);
    let q3 = i + l2.len();
    lemma_peel(s, i, l2, ts + (seq!['}'] + rest));
    lemma_peel(s, q3, ts, seq!['}'] + rest);
    assert(suffix(s, q3 + ts.len())[0] == s[q3 + ts.len()]);
}

/// Parses the settings clause that closes a snapshot.
#[verifier::rlimit(100)]
fn parse_close(s: &Vec<char>, i: usize) -> (r: Option<(crate::taxonomy::Settings, usize)>)
    requires
        i <= s.len(),
    ensures
        match r {
            Some(p) => i < p.1 <= s.len(),
            None => true,
        },
        forall|sv: SettingsView, rest: Seq<char>|
            #[trigger] close_at(s@, i as int, sv, rest) ==> (r matches Some(p) && p.0@ == sv
                && p.1 as int == i + ",\"settings\":"@.len() + spec_json_settings(sv).len() + 1),
{
    let r3 = parse_lit(s, i, ",\"settings\":");
    let j3 = match r3 {
        Some(j) => j,
        None => {
            proof {
                assert forall|sv: SettingsView, rest: Seq<char>|
                    #[trigger] close_at(s@, i as int, sv, rest) implies false by {
                    lemma_close_parts(s@, i as int, sv, rest);
                }
            }
            return None;
        },
    };
    let r4 = parse_settings(s, j3);
    let (settings, j4) = match r4 {
        Some(p) => p,
        None => {
            proof {
                assert forall|sv: SettingsView, rest: Seq<char>|
                    #[trigger] close_at(s@, i as int, sv, rest) implies false by {
                    lemma_close_parts(s@, i as int, sv, rest);
                }
            }
            return None;
        },
    };
    if j4 == s.len() || s[j4] != '}' {
        proof {
            assert forall|sv: SettingsView, rest: Seq<char>|
                #[trigger] close_at(s@, i as int, sv, rest) implies false by {
                lemma_close_parts(s@, i as int, sv, rest);
            }
        }
        return None;
    }
    proof {
        assert forall|sv: SettingsView, rest: Seq<char>|
            #[trigger] close_at(s@, i as int, sv, rest) implies settings@ == sv && j4 + 1 == i
            + ",\"settings\":"@.len() + spec_json_settings(sv).len() + 1 by {
            lemma_close_parts(s@, i as int, sv, rest);
        }
    }
    Some((settings, j4 + 1))
}

/// At position `i`, the input continues with the routes label, the routes
/// object with its closing brace, and then `tail`.
spec fn head_at(s: Seq<char>, i: int, rs: Seq<EntryView>, tail: Seq<char>) -> bool {
    suffix(s, i) == "{\"routes\":{"@ + ((spec_json_routes(rs) + seq!['}']) + tail)
}

/// Parses the opening of a snapshot: the routes label and the routes
/// object, through the object's closing brace.
#[verifier::rlimit(100)]
fn parse_head(s: &Vec<char>, i: usize) -> (r: Option<(Vec<(u128, Route)>, usize)>)
    requires
        i <= s.len(),
    ensures
        match r {
            Some(p) => i < p.1 <= s.len(),
            None => true,
        },
        forall|rs: Seq<EntryView>, tail: Seq<char>|
            #[trigger] head_at(s@, i as int, rs, tail) ==> (r matches Some(p)
                && crate::order::entries_view(p.0@) == rs && p.1 as int == i
                + "{\"routes\":{"@.len() + spec_json_routes(rs).len() + 1),
{
    let r1 = parse_lit(s, i, "{\"routes\":{");
    let j1 = match r1 {
        Some(j) => j,
        None => {
            proof {
                assert forall|rs: Seq<EntryView>, tail: Seq<char>|
                    #[trigger] head_at(s@, i as int, rs, tail) implies false by {}
            }
            return None;
        },
    };
    let r2 = parse_routes(s, j1);
    match r2 {
        Some((routes, j2)) => {
            proof {
                assert forall|rs: Seq<EntryView>, tail: Seq<char>|
                    #[trigger] head_at(s@, i as int, rs, tail) implies
                    crate::order::entries_view(routes@) == rs && j2 as int == i
                    + "{\"routes\":{"@.len() + spec_json_routes(rs).len() + 1 by {
                    lemma_peel(
                        s@,
                        i as int,
                        "{\"routes\":{"@,
                        (spec_json_routes(rs) + seq!['}']) + tail,
                    );
                    assert(routes_at(s@, j1 as int, rs, tail));
                }
            }
            Some((routes, j2))
        },
        None => {
            proof {
                assert forall|rs: Seq<EntryView>, tail: Seq<char>|
                    #[trigger] head_at(s@, i as int, rs, tail) implies false by {
                    lemma_peel(
                        s@,
                        i as int,
                        "{\"routes\":{"@,
                        (spec_json_routes(rs) + seq!['}']) + tail,
                    );
                    assert(routes_at(s@, j1 as int, rs, tail));
                }
            }
            None
        },
    }
}

/// Parses a whole snapshot.
#[verifier::rlimit(100)]
fn parse_snapshot(s: &Vec<char>, i: usize) -> (r: Option<(Snapshot, usize)>)
    requires
        i <= s.len(),
    ensures
        match r {
            Some(p) => i < p.1 <= s.len(),
            None => true,
        },
        forall|v: SnapshotView, rest: Seq<char>|
            #[trigger] export_at(s@, i as int, v, rest) ==> (r matches Some(p) && p.0@ == v
                && p.1 as int == i + spec_export(v).len()),
{
    let r1 = parse_head(s, i);
    let (routes, j2) = match r1 {
        Some(p) => p,
        None => {
            proof {
                assert forall|v: SnapshotView, rest: Seq<char>|
                    #[trigger] export_at(s@, i as int, v, rest) implies false by {
                    let tr = spec_json_routes(v.routes);
                    let ts = spec_json_settings(v.settings);
                    lemma_export_chain(s@, i as int, tr, ts, rest);
                    assert(head_at(
                        s@,
                        i as int,
                        v.routes,
                        ",\"settings\":"@ + (ts + (seq!['}'] + rest)),
                    ));
                }
            }
            return None;
        },
    };
    let r3 = parse_close(s, j2);
    match r3 {
        Some((settings, j3)) => {
            let snap = Snapshot { routes, settings };
            proof {
                assert forall|v: SnapshotView, rest: Seq<char>|
                    #[trigger] export_at(s@, i as int, v, rest) implies snap@ == v && j3 as int == i
                    + spec_export(v).len() by {
                    let tr = spec_json_routes(v.routes);
                    let ts = spec_json_settings(v.settings);
                    lemma_export_chain(s@, i as int, tr, ts, rest);
                    assert(head_at(
                        s@,
                        i as int,
                        v.routes,
                        ",\"settings\":"@ + (ts + (seq!['}'] + rest)),
                    ));
                    assert(close_at(s@, j2 as int, v.settings, rest));
                    assert(snap@.routes == v.routes);
                    assert(snap@.settings == v.settings);
                }
            }
            Some((snap, j3))
        },
        None => {
            proof {
                assert forall|v: SnapshotView, rest: Seq<char>|
                    #[trigger] export_at(s@, i as int, v, rest) implies false by {
                    let tr = spec_json_routes(v.routes);
                    let ts = spec_json_settings(v.settings);
                    lemma_export_chain(s@, i as int, tr, ts, rest);
                    assert(head_at(
                        s@,
                        i as int,
                        v.routes,
                        ",\"settings\":"@ + (ts + (seq!['}'] + rest)),
                    ));
                    assert(close_at(s@, j2 as int, v.settings, rest));
                }
            }
            None
        },
    }
}

/// Deserializes a snapshot from JSON text. Importing the export of any
/// snapshot reconstructs it exactly; text the codec did not produce is
/// either reconstructed or rejected with `None`, so a caller can keep its
/// current state untouched on malformed input.
pub fn import_json(s: &str) -> (r: Option<Snapshot>)
    ensures
        forall|v: SnapshotView|
            s@ == #[trigger] spec_export(v) ==> (r matches Some(snap) && snap@ == v),
{
    let n = s.unicode_len();
    let mut chars: Vec<char> = Vec::new();
    let mut k: usize = 0;
    while k < n
        invariant
            n == s@.len(),
            k <= n,
            chars@ == s@.subrange(0, k as int),
        decreases n - k,
    {
        let c = s.get_char(k);
        chars.push(c);
        proof {
            assert(s@.subrange(0, k + 1) =~= s@.subrange(0, k as int).push(s@[k as int]));
        }
        k += 1;
    }
    proof {
        assert(s@.subrange(0, n as int) =~= s@);
    }
    match parse_snapshot(&chars, 0) {
        Some((snap, j)) => {
            if j == chars.len() {
                proof {
                    assert forall|v: SnapshotView| s@ == #[trigger] spec_export(v) implies snap@
                        == v by {
                        assert(export_at(chars@, 0, v, Seq::<char>::empty())) by {
                            assert(suffix(chars@, 0) =~= spec_export(v) + Seq::<char>::empty());
                        }
                    }
                }
                Some(snap)
            } else {
                proof {
                    assert forall|v: SnapshotView| s@ == #[trigger] spec_export(v) implies false by {
                        assert(export_at(chars@, 0, v, Seq::<char>::empty())) by {
                            assert(suffix(chars@, 0) =~= spec_export(v) + Seq::<char>::empty());
                        }
                    }
                }
                None
            }
        },
        None => {
            proof {
                assert forall|v: SnapshotView| s@ == #[trigger] spec_export(v) implies false by {
                    assert(export_at(chars@, 0, v, Seq::<char>::empty())) by {
                        assert(suffix(chars@, 0) =~= spec_export(v) + Seq::<char>::empty());
                    }
                }
            }
            None
        },
    }
}

} // verus!
