//! Decimal and hexadecimal numerals over character sequences.
//!
//! Numbers inside a persisted server record are written in canonical form:
//! decimal without leading zeros for the capacity figures, and exactly 32
//! lower-case hexadecimal digits for an identifier. Printing and parsing
//! are verified inverse to each other.

use vstd::prelude::*;
use crate::text::push_char;

verus! {

/// Is `c` one of `0`..=`9`.
pub open spec fn is_dec_digit(c: char) -> bool {
    48 <= c as u32 && c as u32 <= 57
}

/// Is `c` a lower-case hexadecimal digit, the only form this crate emits
/// and accepts.
pub open spec fn is_hex_digit(c: char) -> bool {
    is_dec_digit(c) || (97 <= c as u32 && c as u32 <= 102)
}

/// The numeric value of a hexadecimal (hence also decimal) digit character.
pub open spec fn digit_value(c: char) -> int {
    if is_dec_digit(c) {
        c as u32 - 48
    } else {
        c as u32 - 87
    }
}

/// The lower-case character for the digit value `d`, for `0 <= d < 16`.
pub open spec fn digit_char(d: int) -> char {
    if d == 0 { '0' } else if d == 1 { '1' } else if d == 2 { '2' }
    else if d == 3 { '3' } else if d == 4 { '4' } else if d == 5 { '5' }
    else if d == 6 { '6' } else if d == 7 { '7' } else if d == 8 { '8' }
    else if d == 9 { '9' } else if d == 10 { 'a' } else if d == 11 { 'b' }
    else if d == 12 { 'c' } else if d == 13 { 'd' } else if d == 14 { 'e' }
    else { 'f' }
}

pub proof fn lemma_digit_char(d: int)
    requires
        0 <= d < 16,
    ensures
        is_hex_digit(digit_char(d)),
        digit_value(digit_char(d)) == d,
        is_dec_digit(digit_char(d)) <==> d < 10,
{
}

/// Distinct characters have distinct scalar values.
pub proof fn lemma_char_scalars_differ(c: char, d: char)
    requires
        c != d,
    ensures
        c as u32 != d as u32,
{
}

pub proof fn lemma_digit_char_of_value(c: char)
    requires
        is_hex_digit(c),
    ensures
        digit_char(digit_value(c)) == c,
{
}

/// Ten to the `k`.
pub open spec fn pow10(k: nat) -> nat
    decreases k,
{
    if k == 0 {
        1
    } else {
        10 * pow10((k - 1) as nat)
    }
}

/// Sixteen to the `k`.
pub open spec fn pow16(k: nat) -> nat
    decreases k,
{
    if k == 0 {
        1
    } else {
        16 * pow16((k - 1) as nat)
    }
}

pub proof fn lemma_pow10_mono(a: nat, b: nat)
    requires
        a <= b,
    ensures
        pow10(a) <= pow10(b),
        pow10(a) >= 1,
    decreases b,
{
    if b > 0 {
        if a == b {
            lemma_pow10_mono((b - 1) as nat, (b - 1) as nat);
        } else {
            lemma_pow10_mono(a, (b - 1) as nat);
        }
    }
}

pub proof fn lemma_pow16_mono(a: nat, b: nat)
    requires
        a <= b,
    ensures
        pow16(a) <= pow16(b),
        pow16(a) >= 1,
    decreases b,
{
    if b > 0 {
        if a == b {
            lemma_pow16_mono((b - 1) as nat, (b - 1) as nat);
        } else {
            lemma_pow16_mono(a, (b - 1) as nat);
        }
    }
}

pub proof fn lemma_pow10_10()
    ensures
        pow10(10) == 10_000_000_000,
{
    reveal_with_fuel(pow10, 11);
}

pub proof fn lemma_pow16_32()
    ensures
        pow16(32) == 0x100000000000000000000000000000000,
{
    reveal_with_fuel(pow16, 33);
}

/// The canonical decimal digits of `n`, most significant first.
pub open spec fn dec_digits(n: nat) -> Seq<char>
    decreases n,
{
    if n < 10 {
        seq![digit_char(n as int)]
    } else {
        dec_digits(n / 10).push(digit_char((n % 10) as int))
    }
}

/// The number denoted by a sequence of decimal digit characters.
pub open spec fn dec_value(ds: Seq<char>) -> int
    decreases ds.len(),
{
    if ds.len() == 0 {
        0
    } else {
        dec_value(ds.drop_last()) * 10 + digit_value(ds.last())
    }
}

/// Exactly `w` hexadecimal digits, most significant first, for `n` modulo
/// the `w`-digit range.
pub open spec fn hex_fixed(n: nat, w: nat) -> Seq<char>
    decreases w,
{
    if w == 0 {
        Seq::empty()
    } else {
        hex_fixed(n / 16, (w - 1) as nat).push(digit_char((n % 16) as int))
    }
}

/// The number denoted by a sequence of hexadecimal digit characters.
pub open spec fn hex_value(ds: Seq<char>) -> int
    decreases ds.len(),
{
    if ds.len() == 0 {
        0
    } else {
        hex_value(ds.drop_last()) * 16 + digit_value(ds.last())
    }
}

pub proof fn lemma_dec_digits_shape(n: nat)
    ensures
        dec_digits(n).len() >= 1,
        forall|i: int| 0 <= i < dec_digits(n).len() ==> is_dec_digit(#[trigger] dec_digits(n)[i]),
        dec_digits(n)[0] == '0' ==> n == 0,
        dec_value(dec_digits(n)) == n,
        n < pow10(dec_digits(n).len() as nat),
    decreases n,
{
    if n < 10 {
        lemma_digit_char(n as int);
        let ds = dec_digits(n);
        assert(ds == seq![digit_char(n as int)]);
        assert(ds.drop_last() =~= Seq::<char>::empty());
        assert(ds.last() == digit_char(n as int));
        assert(dec_value(ds) == 0 * 10 + digit_value(digit_char(n as int))) by {
            reveal_with_fuel(dec_value, 2);
        }
        assert(pow10(1) == 10) by {
            reveal_with_fuel(pow10, 2);
        }
    } else {
        lemma_dec_digits_shape(n / 10);
        lemma_digit_char((n % 10) as int);
        let ds = dec_digits(n);
        let dsp = dec_digits(n / 10);
        assert(ds == dsp.push(digit_char((n % 10) as int)));
        assert(ds.drop_last() =~= dsp);
        assert(forall|i: int| 0 <= i < ds.len() ==> is_dec_digit(#[trigger] ds[i])) by {
            assert(forall|i: int| 0 <= i < dsp.len() ==> is_dec_digit(#[trigger] dsp[i]));
        }
        assert(dec_value(ds) == dec_value(dsp) * 10 + (n % 10));
        assert(n / 10 < pow10(dsp.len() as nat));
        assert(pow10(ds.len() as nat) == 10 * pow10(dsp.len() as nat));
        assert(n < 10 * pow10(dsp.len() as nat)) by {
            assert(n == (n / 10) * 10 + n % 10);
            assert(n / 10 + 1 <= pow10(dsp.len() as nat));
            assert((n / 10) * 10 + 10 <= pow10(dsp.len() as nat) * 10) by (nonlinear_arith)
                requires
                    n / 10 + 1 <= pow10(dsp.len() as nat),
            ;
        }
    }
}

pub proof fn lemma_dec_value_bounds(ds: Seq<char>)
    requires
        forall|i: int| 0 <= i < ds.len() ==> is_dec_digit(#[trigger] ds[i]),
    ensures
        0 <= dec_value(ds) < pow10(ds.len() as nat),
    decreases ds.len(),
{
    if ds.len() == 0 {
    } else {
        let dsp = ds.drop_last();
        lemma_dec_value_bounds(dsp);
        assert(pow10(ds.len() as nat) == 10 * pow10(dsp.len() as nat));
        assert(dec_value(dsp) * 10 + 10 <= pow10(dsp.len() as nat) * 10) by (nonlinear_arith)
            requires
                dec_value(dsp) + 1 <= pow10(dsp.len() as nat),
        ;
    }
}

pub proof fn lemma_dec_value_lower(ds: Seq<char>)
    requires
        ds.len() >= 1,
        forall|i: int| 0 <= i < ds.len() ==> is_dec_digit(#[trigger] ds[i]),
        ds[0] != '0',
    ensures
        dec_value(ds) >= pow10((ds.len() - 1) as nat),
    decreases ds.len(),
{
    if ds.len() == 1 {
        assert(ds.drop_last() =~= Seq::<char>::empty());
        assert(ds.last() == ds[0]);
        assert(dec_value(ds) == 0 * 10 + digit_value(ds[0])) by {
            reveal_with_fuel(dec_value, 2);
        }
        assert(is_dec_digit(ds[0]));
        lemma_char_scalars_differ(ds[0], '0');
        assert(digit_value(ds[0]) >= 1);
    } else {
        let dsp = ds.drop_last();
        lemma_dec_value_lower(dsp);
        assert(dec_value(dsp) * 10 >= pow10((dsp.len() - 1) as nat) * 10) by (nonlinear_arith)
            requires
                dec_value(dsp) >= pow10((dsp.len() - 1) as nat),
        ;
    }
}

pub proof fn lemma_dec_canon(ds: Seq<char>)
    requires
        ds.len() >= 1,
        forall|i: int| 0 <= i < ds.len() ==> is_dec_digit(#[trigger] ds[i]),
        ds.len() > 1 ==> ds[0] != '0',
    ensures
        dec_digits(dec_value(ds) as nat) == ds,
    decreases ds.len(),
{
    lemma_dec_value_bounds(ds);
    if ds.len() == 1 {
        lemma_digit_char_of_value(ds[0]);
        assert(ds.drop_last() =~= Seq::<char>::empty());
        assert(ds.last() == ds[0]);
        assert(dec_value(ds) == 0 * 10 + digit_value(ds[0])) by {
            reveal_with_fuel(dec_value, 2);
        }
        assert(dec_digits(dec_value(ds) as nat) =~= ds);
    } else {
        let dsp = ds.drop_last();
        let d = digit_value(ds.last());
        let v = dec_value(ds);
        let vp = dec_value(dsp);
        lemma_dec_canon(dsp);
        lemma_dec_value_lower(dsp);
        lemma_pow10_mono(0, (dsp.len() - 1) as nat);
        assert(vp >= 1);
        assert(v == vp * 10 + d);
        assert(v >= 10) by (nonlinear_arith)
            requires
                v == vp * 10 + d,
                vp >= 1,
                d >= 0,
        ;
        assert(v / 10 == vp && v % 10 == d) by (nonlinear_arith)
            requires
                v == vp * 10 + d,
                0 <= d < 10,
        ;
        lemma_digit_char_of_value(ds.last());
        assert(dec_digits(v as nat) == dec_digits(vp as nat).push(digit_char(d)));
        assert(dec_digits(v as nat) =~= ds);
    }
}

pub proof fn lemma_hex_fixed_shape(n: nat, w: nat)
    ensures
        hex_fixed(n, w).len() == w,
        forall|i: int| 0 <= i < w ==> is_hex_digit(#[trigger] hex_fixed(n, w)[i]),
        n < pow16(w) ==> hex_value(hex_fixed(n, w)) == n,
    decreases w,
{
    if w > 0 {
        lemma_hex_fixed_shape(n / 16, (w - 1) as nat);
        lemma_digit_char((n % 16) as int);
        let hs = hex_fixed(n, w);
        let hsp = hex_fixed(n / 16, (w - 1) as nat);
        assert(hs.drop_last() =~= hsp);
        assert(forall|i: int| 0 <= i < w ==> is_hex_digit(#[trigger] hs[i])) by {
            assert(forall|i: int| 0 <= i < w - 1 ==> is_hex_digit(#[trigger] hsp[i]));
            assert(is_hex_digit(hs[w - 1]));
        }
        if n < pow16(w) {
            assert(pow16(w) == 16 * pow16((w - 1) as nat));
            assert(n / 16 < pow16((w - 1) as nat)) by (nonlinear_arith)
                requires
                    n < 16 * pow16((w - 1) as nat),
            ;
            assert(hex_value(hs) == hex_value(hsp) * 16 + (n % 16));
            assert(hex_value(hs) == n);
        }
    }
}

pub proof fn lemma_hex_value_bounds(ds: Seq<char>)
    requires
        forall|i: int| 0 <= i < ds.len() ==> is_hex_digit(#[trigger] ds[i]),
    ensures
        0 <= hex_value(ds) < pow16(ds.len() as nat),
    decreases ds.len(),
{
    if ds.len() == 0 {
    } else {
        let dsp = ds.drop_last();
        lemma_hex_value_bounds(dsp);
        assert(pow16(ds.len() as nat) == 16 * pow16(dsp.len() as nat));
        assert(hex_value(dsp) * 16 + 16 <= pow16(dsp.len() as nat) * 16) by (nonlinear_arith)
            requires
                hex_value(dsp) + 1 <= pow16(dsp.len() as nat),
        ;
    }
}

pub proof fn lemma_hex_canon(ds: Seq<char>)
    requires
        forall|i: int| 0 <= i < ds.len() ==> is_hex_digit(#[trigger] ds[i]),
    ensures
        hex_fixed(hex_value(ds) as nat, ds.len() as nat) == ds,
    decreases ds.len(),
{
    lemma_hex_value_bounds(ds);
    if ds.len() == 0 {
        assert(hex_fixed(0, 0) =~= ds);
    } else {
        let dsp = ds.drop_last();
        let d = digit_value(ds.last());
        let v = hex_value(ds);
        let vp = hex_value(dsp);
        lemma_hex_canon(dsp);
        assert(v == vp * 16 + d);
        assert(v / 16 == vp && v % 16 == d) by (nonlinear_arith)
            requires
                v == vp * 16 + d,
                0 <= d < 16,
        ;
        lemma_digit_char_of_value(ds.last());
        assert(hex_fixed(v as nat, ds.len() as nat) == hex_fixed(vp as nat, dsp.len() as nat).push(
            digit_char(d),
        ));
        assert(hex_fixed(v as nat, ds.len() as nat) =~= ds);
    }
}

/// The length of the run of decimal digits in `t` starting at `pos`.
pub open spec fn digit_run_len(t: Seq<char>, pos: int) -> int
    decreases t.len() - pos,
{
    if pos < 0 || pos >= t.len() || !is_dec_digit(t[pos]) {
        0
    } else {
        1 + digit_run_len(t, pos + 1)
    }
}

pub proof fn lemma_digit_run(t: Seq<char>, pos: int)
    requires
        0 <= pos <= t.len(),
    ensures
        0 <= digit_run_len(t, pos) <= t.len() - pos,
        forall|i: int|
            pos <= i < pos + digit_run_len(t, pos) ==> is_dec_digit(#[trigger] t[i]),
        pos + digit_run_len(t, pos) < t.len() ==> !is_dec_digit(t[pos + digit_run_len(t, pos)]),
    decreases t.len() - pos,
{
    if pos < t.len() && is_dec_digit(t[pos]) {
        lemma_digit_run(t, pos + 1);
    }
}

pub proof fn lemma_digit_run_exact(t: Seq<char>, pos: int, m: int)
    requires
        0 <= pos,
        pos + m <= t.len(),
        m >= 0,
        forall|i: int| pos <= i < pos + m ==> is_dec_digit(#[trigger] t[i]),
        pos + m == t.len() || !is_dec_digit(t[pos + m]),
    ensures
        digit_run_len(t, pos) == m,
    decreases m,
{
    if m == 0 {
    } else {
        lemma_digit_run_exact(t, pos + 1, m - 1);
    }
}

/// Parsing a canonical decimal `u32` at `pos`: the whole digit run, which
/// must be non-empty, without leading zero, and within range.
pub open spec fn parse_u32_spec(t: Seq<char>, pos: int) -> Option<(u32, int)> {
    let k = digit_run_len(t, pos);
    if k == 0 {
        None
    } else if t[pos] == '0' && k > 1 {
        None
    } else if dec_value(t.subrange(pos, pos + k)) > u32::MAX {
        None
    } else {
        Some((dec_value(t.subrange(pos, pos + k)) as u32, pos + k))
    }
}

pub proof fn lemma_parse_u32_of_encoding(t: Seq<char>, pos: int, n: u32)
    requires
        0 <= pos,
        pos + dec_digits(n as nat).len() <= t.len(),
        t.subrange(pos, pos + dec_digits(n as nat).len()) == dec_digits(n as nat),
        pos + dec_digits(n as nat).len() == t.len() || !is_dec_digit(
            t[pos + dec_digits(n as nat).len()],
        ),
    ensures
        parse_u32_spec(t, pos) == Some((n, pos + dec_digits(n as nat).len())),
{
    let ds = dec_digits(n as nat);
    let m = ds.len() as int;
    lemma_dec_digits_shape(n as nat);
    assert(forall|i: int| pos <= i < pos + m ==> is_dec_digit(#[trigger] t[i])) by {
        assert(forall|i: int| pos <= i < pos + m ==> t[i] == ds[i - pos]);
    }
    lemma_digit_run_exact(t, pos, m);
    assert(t[pos] == ds[0]);
    if m > 1 {
        assert(t[pos] != '0') by {
            if ds[0] == '0' {
                assert(n == 0);
                assert(dec_digits(0nat).len() == 1);
            }
        }
    }
    assert(t.subrange(pos, pos + m) == ds);
    assert(dec_value(ds) == n as nat);
}

pub proof fn lemma_parse_u32_sound(t: Seq<char>, pos: int, v: u32, p: int)
    requires
        0 <= pos <= t.len(),
        parse_u32_spec(t, pos) == Some((v, p)),
    ensures
        pos < p <= t.len(),
        t.subrange(pos, p) == dec_digits(v as nat),
        p == t.len() || !is_dec_digit(t[p]),
{
    let k = digit_run_len(t, pos);
    lemma_digit_run(t, pos);
    let ds = t.subrange(pos, pos + k);
    assert(forall|i: int| 0 <= i < ds.len() ==> is_dec_digit(#[trigger] ds[i])) by {
        assert(forall|i: int| 0 <= i < k ==> ds[i] == t[pos + i]);
    }
    lemma_dec_canon(ds);
    lemma_dec_value_bounds(ds);
    assert(dec_value(ds) == v as int);
}

/// Parsing exactly 32 hexadecimal digits at `pos`.
pub open spec fn parse_hex32_spec(t: Seq<char>, pos: int) -> Option<(u128, int)> {
    if 0 <= pos && pos + 32 <= t.len() && (forall|i: int|
        pos <= i < pos + 32 ==> is_hex_digit(#[trigger] t[i])) {
        Some((hex_value(t.subrange(pos, pos + 32)) as u128, pos + 32))
    } else {
        None
    }
}

pub proof fn lemma_parse_hex32_of_encoding(t: Seq<char>, pos: int, id: u128)
    requires
        0 <= pos,
        pos + 32 <= t.len(),
        t.subrange(pos, pos + 32) == hex_fixed(id as nat, 32),
    ensures
        parse_hex32_spec(t, pos) == Some((id, pos + 32)),
{
    let hs = hex_fixed(id as nat, 32);
    lemma_hex_fixed_shape(id as nat, 32);
    lemma_pow16_32();
    assert(forall|i: int| pos <= i < pos + 32 ==> is_hex_digit(#[trigger] t[i])) by {
        assert(forall|i: int| pos <= i < pos + 32 ==> t[i] == hs[i - pos]);
    }
    assert((id as nat) < pow16(32));
    assert(hex_value(t.subrange(pos, pos + 32)) == id as int);
}

pub proof fn lemma_parse_hex32_sound(t: Seq<char>, pos: int, v: u128, p: int)
    requires
        parse_hex32_spec(t, pos) == Some((v, p)),
    ensures
        0 <= pos,
        p == pos + 32 <= t.len(),
        t.subrange(pos, p) == hex_fixed(v as nat, 32),
{
    let ds = t.subrange(pos, pos + 32);
    assert(forall|i: int| 0 <= i < ds.len() ==> is_hex_digit(#[trigger] ds[i])) by {
        assert(forall|i: int| 0 <= i < 32 ==> ds[i] == t[pos + i]);
    }
    lemma_hex_canon(ds);
    lemma_hex_value_bounds(ds);
    lemma_pow16_32();
    assert(hex_value(ds) == v as int);
}

/// Is `c` one of `0`..=`9`, executably.
pub fn is_dec_digit_exec(c: char) -> (b: bool)
    ensures
        b == is_dec_digit(c),
{
    let v = c as u32;
    48 <= v && v <= 57
}

/// The value of a lower-case hexadecimal digit, or `None`.
pub fn hex_digit_value_exec(c: char) -> (r: Option<u8>)
    ensures
        match r {
            Some(d) => is_hex_digit(c) && d as int == digit_value(c),
            None => !is_hex_digit(c),
        },
{
    let v = c as u32;
    if 48 <= v && v <= 57 {
        Some((v - 48) as u8)
    } else if 97 <= v && v <= 102 {
        Some((v - 87) as u8)
    } else {
        None
    }
}

/// The character for the digit value `d`.
pub fn digit_char_exec(d: u8) -> (c: char)
    requires
        d < 16,
    ensures
        c == digit_char(d as int),
{
    if d == 0 { '0' } else if d == 1 { '1' } else if d == 2 { '2' }
    else if d == 3 { '3' } else if d == 4 { '4' } else if d == 5 { '5' }
    else if d == 6 { '6' } else if d == 7 { '7' } else if d == 8 { '8' }
    else if d == 9 { '9' } else if d == 10 { 'a' } else if d == 11 { 'b' }
    else if d == 12 { 'c' } else if d == 13 { 'd' } else if d == 14 { 'e' }
    else { 'f' }
}

/// Appends the canonical decimal digits of `n` to `out`.
pub fn push_dec_u64(out: &mut String, n: u64)
    ensures
        final(out)@ == old(out)@ + dec_digits(n as nat),
    decreases n,
{
    if n < 10 {
        push_char(out, digit_char_exec(n as u8));
        proof {
            assert(final(out)@ =~= old(out)@ + dec_digits(n as nat));
        }
    } else {
        push_dec_u64(out, n / 10);
        push_char(out, digit_char_exec((n % 10) as u8));
        proof {
            assert(final(out)@ =~= old(out)@ + dec_digits(n as nat));
        }
    }
}

fn push_hex_rec(out: &mut String, n: u128, w: u8)
    ensures
        final(out)@ == old(out)@ + hex_fixed(n as nat, w as nat),
    decreases w,
{
    if w > 0 {
        push_hex_rec(out, n / 16, w - 1);
        push_char(out, digit_char_exec((n % 16) as u8));
    }
    proof {
        assert(final(out)@ =~= old(out)@ + hex_fixed(n as nat, w as nat));
    }
}

/// Appends the 32 hexadecimal digits of the identifier `id` to `out`.
pub fn push_hex32(out: &mut String, id: u128)
    ensures
        final(out)@ == old(out)@ + hex_fixed(id as nat, 32),
{
    push_hex_rec(out, id, 32);
}

/// Parses a canonical decimal `u32` at `pos`, as [`parse_u32_spec`] says.
pub fn parse_u32_chars(t: &Vec<char>, pos: usize) -> (r: Option<(u32, usize)>)
    requires
        pos <= t.len(),
    ensures
        match r {
            Some((v, p)) => parse_u32_spec(t@, pos as int) == Some((v, p as int)) && pos < p
                <= t.len(),
            None => parse_u32_spec(t@, pos as int) is None,
        },
{
    proof {
        lemma_digit_run(t@, pos as int);
    }
    let ghost run = digit_run_len(t@, pos as int);
    let mut k: usize = 0;
    while pos + k < t.len() && is_dec_digit_exec(t[pos + k])
        invariant
            pos + k <= t.len(),
            k <= run,
            forall|i: int| pos <= i < pos + k ==> is_dec_digit(#[trigger] t@[i]),
            0 <= run <= t@.len() - pos,
            forall|i: int| pos <= i < pos + run ==> is_dec_digit(#[trigger] t@[i]),
            pos + run < t@.len() ==> !is_dec_digit(t@[pos + run]),
        decreases t.len() - pos - k,
    {
        k = k + 1;
        proof {
            if k > run {
                assert(is_dec_digit(t@[pos + run]));
                assert(false);
            }
        }
    }
    proof {
        lemma_digit_run_exact(t@, pos as int, k as int);
        assert(k == run);
    }
    if k == 0 {
        return None;
    }
    if t[pos] == '0' && k > 1 {
        return None;
    }
    if k > 10 {
        proof {
            let ds = t@.subrange(pos as int, pos as int + k);
            assert(forall|i: int| 0 <= i < ds.len() ==> is_dec_digit(#[trigger] ds[i])) by {
                assert(forall|i: int| 0 <= i < k ==> ds[i] == t@[pos + i]);
            }
            assert(ds[0] != '0');
            lemma_dec_value_lower(ds);
            lemma_pow10_mono(10, (k - 1) as nat);
            lemma_pow10_10();
            assert(dec_value(ds) > u32::MAX);
        }
        return None;
    }
    let mut acc: u64 = 0;
    let mut i: usize = 0;
    while i < k
        invariant
            i <= k,
            k <= 10,
            pos + k <= t.len(),
            forall|j: int| pos <= j < pos + k ==> is_dec_digit(#[trigger] t@[j]),
            acc as int == dec_value(t@.subrange(pos as int, pos as int + i)),
            acc < pow10(i as nat),
        decreases k - i,
    {
        proof {
            let dsi = t@.subrange(pos as int, pos as int + i);
            let dsn = t@.subrange(pos as int, pos as int + i + 1);
            assert(dsn.drop_last() =~= dsi);
            lemma_pow10_mono(i as nat, 9);
            lemma_pow10_10();
            assert(pow10(10) == 10 * pow10(9)) by {
                reveal_with_fuel(pow10, 11);
            }
            assert(acc * 10 + 10 <= pow10(i as nat) * 10) by (nonlinear_arith)
                requires
                    acc + 1 <= pow10(i as nat),
            ;
            lemma_pow10_mono((i + 1) as nat, 10);
        }
        let d = (t[pos + i] as u32 - 48) as u64;
        acc = acc * 10 + d;
        i = i + 1;
    }
    proof {
        lemma_pow10_10();
        lemma_pow10_mono(k as nat, 10);
    }
    if acc > u32::MAX as u64 {
        return None;
    }
    Some((acc as u32, pos + k))
}

/// Parses exactly 32 hexadecimal digits at `pos`, as [`parse_hex32_spec`]
/// says.
pub fn parse_hex32_chars(t: &Vec<char>, pos: usize) -> (r: Option<(u128, usize)>)
    requires
        pos <= t.len(),
    ensures
        match r {
            Some((v, p)) => parse_hex32_spec(t@, pos as int) == Some((v, p as int)) && pos < p
                <= t.len(),
            None => parse_hex32_spec(t@, pos as int) is None,
        },
{
    if t.len() - pos < 32 {
        return None;
    }
    let mut acc: u128 = 0;
    let mut i: usize = 0;
    while i < 32
        invariant
            i <= 32,
            pos + 32 <= t.len(),
            forall|j: int| pos <= j < pos + i ==> is_hex_digit(#[trigger] t@[j]),
            acc as int == hex_value(t@.subrange(pos as int, pos as int + i)),
            acc < pow16(i as nat),
        decreases 32 - i,
    {
        let d = match hex_digit_value_exec(t[pos + i]) {
            Some(d) => d,
            None => {
                return None;
            },
        };
        proof {
            let dsi = t@.subrange(pos as int, pos as int + i);
            let dsn = t@.subrange(pos as int, pos as int + i + 1);
            assert(dsn.drop_last() =~= dsi);
            lemma_pow16_mono((i + 1) as nat, 32);
            lemma_pow16_32();
            assert(pow16((i + 1) as nat) == 16 * pow16(i as nat));
            assert(acc * 16 + 16 <= pow16(i as nat) * 16) by (nonlinear_arith)
                requires
                    acc + 1 <= pow16(i as nat),
            ;
        }
        acc = acc * 16 + d as u128;
        i = i + 1;
    }
    proof {
        assert(t@.subrange(pos as int, pos as int + 32) =~= t@.subrange(
            pos as int,
            pos as int + 32,
        ));
    }
    Some((acc, pos + 32))
}

} // verus!
