//! Decimal rendering and parsing of the integer values that appear in the
//! service's response headers: invocation ordinals as plain decimal strings,
//! and stage durations as milliseconds with exactly three decimal places.
//! Durations are held as whole microseconds, which represent a millisecond
//! value with three decimal places exactly.

use vstd::prelude::*;

verus! {

/// Byte value of the ASCII digit `0`.
pub const DIGIT_ZERO: u8 = 48;
/// Byte value of the ASCII full stop.
pub const DOT: u8 = 46;

pub open spec fn is_digit(b: u8) -> bool {
    48 <= b <= 57
}

pub open spec fn digit_val(b: u8) -> nat {
    (b - 48) as nat
}

pub open spec fn all_digits(s: Seq<u8>) -> bool {
    forall|i: int| 0 <= i < s.len() ==> is_digit(s[i])
}

/// The shortest decimal rendering of `v`: no leading zeros except for the
/// single digit of `v == 0`.
pub open spec fn dec_digits(v: nat) -> Seq<u8>
    decreases v,
{
    if v < 10 {
        seq![(48 + v) as u8]
    } else {
        dec_digits(v / 10).push((48 + v % 10) as u8)
    }
}

/// Numeric value of a digit string, most significant digit first.
pub open spec fn dec_val(s: Seq<u8>) -> nat
    decreases s.len(),
{
    if s.len() == 0 {
        0
    } else {
        dec_val(s.drop_last()) * 10 + digit_val(s.last())
    }
}

pub proof fn lemma_dec_digits_are_digits(v: nat)
    ensures
        dec_digits(v).len() >= 1,
        all_digits(dec_digits(v)),
    decreases v,
{
    if v >= 10 {
        lemma_dec_digits_are_digits(v / 10);
        assert(forall|i: int|
            0 <= i < dec_digits(v).len() - 1 ==> dec_digits(v)[i] == dec_digits(v / 10)[i]);
    }
}

/// Rendering and reading back are inverse: the value of `dec_digits(v)` is `v`.
pub proof fn lemma_dec_digits_val(v: nat)
    ensures
        dec_val(dec_digits(v)) == v,
    decreases v,
{
    if v < 10 {
        assert(dec_digits(v).drop_last() =~= Seq::<u8>::empty());
        assert(dec_val(Seq::<u8>::empty()) == 0);
        assert(dec_digits(v).last() == (48 + v) as u8);
        assert(digit_val((48 + v) as u8) == v);
    } else {
        lemma_dec_digits_val(v / 10);
        assert(dec_digits(v) == dec_digits(v / 10).push((48 + v % 10) as u8));
        assert(dec_digits(v).drop_last() =~= dec_digits(v / 10));
        assert(dec_digits(v).last() == (48 + v % 10) as u8);
        assert(digit_val((48 + v % 10) as u8) == v % 10);
        assert(dec_val(dec_digits(v)) == dec_val(dec_digits(v).drop_last()) * 10 + digit_val(
            dec_digits(v).last(),
        ));
        assert(v / 10 * 10 + v % 10 == v) by (nonlinear_arith);
    }
}

/// The value of a digit string is below `10^len`; in particular a string of
/// at most three digits is at most 999.
pub proof fn lemma_dec_val_bound(s: Seq<u8>, bound: nat)
    requires
        all_digits(s),
        pow10(s.len() as nat) <= bound,
    ensures
        dec_val(s) < bound,
    decreases s.len(),
{
    if s.len() > 0 {
        lemma_dec_val_bound(s.drop_last(), pow10((s.len() - 1) as nat));
        assert(dec_val(s.drop_last()) * 10 <= (pow10((s.len() - 1) as nat) - 1) * 10)
            by (nonlinear_arith)
            requires dec_val(s.drop_last()) <= pow10((s.len() - 1) as nat) - 1;
    }
}

pub open spec fn pow10(n: nat) -> nat
    decreases n,
{
    if n == 0 {
        1
    } else {
        10 * pow10((n - 1) as nat)
    }
}

/// A digit string's value only grows when more digits follow it.
pub proof fn lemma_dec_val_prefix(s: Seq<u8>, n: int)
    requires
        0 <= n <= s.len(),
    ensures
        dec_val(s.take(n)) <= dec_val(s),
    decreases s.len() - n,
{
    if n < s.len() {
        lemma_dec_val_prefix(s.drop_last(), n);
        assert(s.drop_last().take(n) =~= s.take(n));
    } else {
        assert(s.take(n) =~= s);
    }
}

/// Appends the decimal digits of `v` to `out`.
pub fn push_decimal(v: u64, out: &mut Vec<u8>)
    ensures
        final(out)@ == old(out)@ + dec_digits(v as nat),
    decreases v,
{
    if v >= 10 {
        push_decimal(v / 10, out);
    }
    let d: u8 = DIGIT_ZERO + (v % 10) as u8;
    out.push(d);
    proof {
        assert(out@ =~= old(out)@ + dec_digits(v as nat));
    }
}

/// Renders `v` as a decimal string of bytes.
pub fn render_decimal(v: u64) -> (r: Vec<u8>)
    ensures
        r@ == dec_digits(v as nat),
{
    let mut out: Vec<u8> = Vec::new();
    push_decimal(v, &mut out);
    proof {
        assert(out@ =~= dec_digits(v as nat));
    }
    out
}

/// Reads a decimal digit string. Returns the value exactly when the input is
/// a non-empty, all-digit string whose value fits in a `u64`.
pub fn parse_decimal(s: &Vec<u8>) -> (r: Option<u64>)
    ensures
        match r {
            Some(v) => s@.len() > 0 && all_digits(s@) && v == dec_val(s@),
            None => s@.len() == 0 || !all_digits(s@) || dec_val(s@) > u64::MAX,
        },
{
    if s.len() == 0 {
        return None;
    }
    let mut acc: u64 = 0;
    let mut i: usize = 0;
    while i < s.len()
        invariant
            0 <= i <= s@.len(),
            all_digits(s@.take(i as int)),
            acc == dec_val(s@.take(i as int)),
        decreases s@.len() - i,
    {
        let b = s[i];
        if b < DIGIT_ZERO || b > 57 {
            assert(!is_digit(s@[i as int]));
            return None;
        }
        let d: u64 = (b - DIGIT_ZERO) as u64;
        proof {
            assert(s@.take(i + 1).drop_last() =~= s@.take(i as int));
            assert(s@.take(i + 1).last() == s@[i as int]);
        }
        let acc10 = match acc.checked_mul(10) {
            Some(x) => x,
            None => {
                proof {
                    lemma_dec_val_prefix(s@, i + 1);
                }
                return None;
            },
        };
        acc = match acc10.checked_add(d) {
            Some(x) => x,
            None => {
                proof {
                    lemma_dec_val_prefix(s@, i + 1);
                }
                return None;
            },
        };
        i = i + 1;
    }
    proof {
        assert(s@.take(s@.len() as int) =~= s@);
    }
    Some(acc)
}

/// The three-digit rendering of a value below 1000, with leading zeros.
pub open spec fn frac3_digits(f: nat) -> Seq<u8> {
    seq![(48 + f / 100 % 10) as u8, (48 + f / 10 % 10) as u8, (48 + f % 10) as u8]
}

/// A duration of `us` whole microseconds rendered as milliseconds with
/// exactly three decimal places: integer part, a dot, three digits.
pub open spec fn ms_digits(us: nat) -> Seq<u8> {
    dec_digits(us / 1000) + seq![DOT] + frac3_digits(us % 1000)
}

/// Appends the millisecond rendering of `us` microseconds to `out`.
pub fn push_ms(us: u64, out: &mut Vec<u8>)
    ensures
        final(out)@ == old(out)@ + ms_digits(us as nat),
{
    push_decimal(us / 1000, out);
    out.push(DOT);
    let f = us % 1000;
    out.push(DIGIT_ZERO + (f / 100 % 10) as u8);
    out.push(DIGIT_ZERO + (f / 10 % 10) as u8);
    out.push(DIGIT_ZERO + (f % 10) as u8);
    proof {
        assert(out@ =~= old(out)@ + ms_digits(us as nat));
    }
}

/// The scaling of a fractional part of one to three digits to thousandths.
pub open spec fn frac_val(fp: Seq<u8>) -> nat {
    if fp.len() == 1 {
        dec_val(fp) * 100
    } else if fp.len() == 2 {
        dec_val(fp) * 10
    } else {
        dec_val(fp)
    }
}

/// First index at or after `i` where `b` occurs in `s`, or `s.len()` if it
/// does not occur there.
pub open spec fn find_from(s: Seq<u8>, b: u8, i: int) -> int
    decreases s.len() - i,
{
    if i < 0 || i >= s.len() {
        s.len() as int
    } else if s[i] == b {
        i
    } else {
        find_from(s, b, i + 1)
    }
}

pub proof fn lemma_find_from_props(s: Seq<u8>, b: u8, i: int)
    requires
        0 <= i <= s.len(),
    ensures
        i <= find_from(s, b, i) <= s.len(),
        find_from(s, b, i) < s.len() ==> s[find_from(s, b, i)] == b,
        forall|j: int| i <= j < find_from(s, b, i) ==> s[j] != b,
    decreases s.len() - i,
{
    if i < s.len() && s[i] != b {
        lemma_find_from_props(s, b, i + 1);
    }
}

/// Where `b` occurs at `k` and nowhere in `[i, k)`, the search from `i`
/// stops exactly at `k`.
pub proof fn lemma_find_from_exact(s: Seq<u8>, b: u8, i: int, k: int)
    requires
        0 <= i <= k <= s.len(),
        forall|j: int| i <= j < k ==> s[j] != b,
        k < s.len() ==> s[k] == b,
        k == s.len() ==> forall|j: int| i <= j < s.len() ==> s[j] != b,
    ensures
        find_from(s, b, i) == k,
    decreases k - i,
{
    if i < k {
        lemma_find_from_exact(s, b, i + 1, k);
    }
}

/// First index at or after `i` where `b` occurs, found by scanning.
pub fn find_byte_from(s: &Vec<u8>, b: u8, i: usize) -> (r: usize)
    requires
        i <= s@.len(),
    ensures
        r == find_from(s@, b, i as int),
    decreases s@.len() - i,
{
    if i >= s.len() {
        s.len()
    } else if s[i] == b {
        i
    } else {
        find_byte_from(s, b, i + 1)
    }
}

/// The millisecond value, in whole microseconds, that a duration string
/// denotes: decimal digits, optionally followed by a dot and one to three
/// fractional digits. `None` where the string has another shape.
pub open spec fn ms_val(s: Seq<u8>) -> Option<nat> {
    let d = find_from(s, DOT, 0);
    if d == s.len() {
        if s.len() > 0 && all_digits(s) {
            Some(dec_val(s) * 1000)
        } else {
            None
        }
    } else {
        let ip = s.take(d);
        let fp = s.skip(d + 1);
        if ip.len() > 0 && all_digits(ip) && 1 <= fp.len() <= 3 && all_digits(fp) {
            Some(dec_val(ip) * 1000 + frac_val(fp))
        } else {
            None
        }
    }
}

/// Copies `s[from..to]` into a fresh vector.
pub fn subvec(s: &Vec<u8>, from: usize, to: usize) -> (r: Vec<u8>)
    requires
        from <= to <= s@.len(),
    ensures
        r@ == s@.subrange(from as int, to as int),
{
    let mut out: Vec<u8> = Vec::new();
    let mut i: usize = from;
    while i < to
        invariant
            from <= i <= to <= s@.len(),
            out@ == s@.subrange(from as int, i as int),
        decreases to - i,
    {
        out.push(s[i]);
        proof {
            assert(out@ =~= s@.subrange(from as int, i + 1));
        }
        i = i + 1;
    }
    out
}

/// Reads a duration string as whole microseconds. Returns the value exactly
/// when the string denotes a millisecond value (per `ms_val`) that fits in a
/// `u64` of microseconds.
pub fn parse_ms(s: &Vec<u8>) -> (r: Option<u64>)
    ensures
        match r {
            Some(v) => ms_val(s@) == Some(v as nat),
            None => ms_val(s@) is None || ms_val(s@)->Some_0 > u64::MAX,
        },
{
    proof {
        lemma_find_from_props(s@, DOT, 0);
    }
    let d = find_byte_from(s, DOT, 0);
    if d == s.len() {
        match parse_decimal(s) {
            Some(v) => {
                match v.checked_mul(1000) {
                    Some(x) => Some(x),
                    None => None,
                }
            },
            None => None,
        }
    } else {
        let ip = subvec(s, 0, d);
        let fp = subvec(s, d + 1, s.len());
        proof {
            assert(ip@ =~= s@.take(d as int));
            assert(fp@ =~= s@.skip(d + 1));
        }
        if fp.len() < 1 || fp.len() > 3 {
            return None;
        }
        let fv = match parse_decimal(&fp) {
            Some(v) => v,
            None => {
                return None;
            },
        };
        proof {
            assert(pow10(0) == 1);
            assert(pow10(1) == 10);
            assert(pow10(2) == 100);
            assert(pow10(3) == 1000);
            lemma_dec_val_bound(fp@, 1000);
        }
        let scaled: u64 = if fp.len() == 1 {
            fv * 100
        } else if fp.len() == 2 {
            fv * 10
        } else {
            fv
        };
        let iv = match parse_decimal(&ip) {
            Some(v) => v,
            None => {
                return None;
            },
        };
        let whole = match iv.checked_mul(1000) {
            Some(x) => x,
            None => {
                return None;
            },
        };
        match whole.checked_add(scaled) {
            Some(x) => Some(x),
            None => None,
        }
    }
}

/// The value of a literal three-digit string.
proof fn lemma_dec_val3(a: nat, b: nat, c: nat)
    requires
        a < 10,
        b < 10,
        c < 10,
    ensures
        dec_val(seq![(48 + a) as u8, (48 + b) as u8, (48 + c) as u8]) == a * 100 + b * 10 + c,
{
    let s = seq![(48 + a) as u8, (48 + b) as u8, (48 + c) as u8];
    let s1 = seq![(48 + a) as u8];
    let s2 = seq![(48 + a) as u8, (48 + b) as u8];
    assert(s1.drop_last() =~= Seq::<u8>::empty());
    assert(dec_val(Seq::<u8>::empty()) == 0);
    assert(dec_val(s1) == a);
    assert(s2.drop_last() =~= s1);
    assert(dec_val(s2) == a * 10 + b);
    assert(s.drop_last() =~= s2);
    assert(dec_val(s) == (a * 10 + b) * 10 + c);
}

/// Reading back a rendered duration gives the original microsecond value.
pub proof fn lemma_ms_round_trip(us: nat)
    ensures
        ms_val(ms_digits(us)) == Some(us),
{
    let s = ms_digits(us);
    let ip = dec_digits(us / 1000);
    let fp = frac3_digits(us % 1000);
    lemma_dec_digits_are_digits(us / 1000);
    assert forall|j: int| 0 <= j < ip.len() implies s[j] != DOT by {
        assert(s[j] == ip[j]);
        assert(is_digit(ip[j]));
    }
    assert(s[ip.len() as int] == DOT);
    lemma_find_from_exact(s, DOT, 0, ip.len() as int);
    let d = find_from(s, DOT, 0);
    assert(d == ip.len());
    assert(s.take(d) =~= ip);
    assert(s.skip(d + 1) =~= fp);
    lemma_dec_digits_val(us / 1000);
    assert(all_digits(fp));
    assert(fp.len() == 3);
    let f = us % 1000;
    lemma_dec_val3(f / 100 % 10, f / 10 % 10, f % 10);
    assert((f / 100 % 10) * 100 + (f / 10 % 10) * 10 + f % 10 == f) by (nonlinear_arith)
        requires f < 1000;
    assert(dec_val(ip) * 1000 + frac_val(fp) == us / 1000 * 1000 + us % 1000);
    assert(us / 1000 * 1000 + us % 1000 == us) by (nonlinear_arith);
}

} // verus!
