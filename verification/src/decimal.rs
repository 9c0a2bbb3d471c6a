//! Exchange feeds send prices and amounts as numerals such as `"0.06834000"`
//! or `"6.834e-2"`. This module reads them as signed fixed-point integers with
//! eight digits after the point.
//!
//! The grammar is that of finite floating-point numerals: an optional sign,
//! digits with at most one decimal point, and an optional exponent (`e` or
//! `E`, an optional sign, digits). The value is the numeral's digits moved by
//! the exponent to eight places after the point; the first digit moved past
//! the eighth place rounds the magnitude half up. Words for infinity and
//! not-a-number have no fixed-point value and are refused, and so is a value
//! whose magnitude exceeds what an `i64` holds in 10^-8 units.
use vstd::prelude::*;

verus! {

/// Units in one whole coin: prices and amounts carry eight decimal places.
pub const UNITS_PER_WHOLE: i64 = 100_000_000;

pub open spec fn is_digit(c: char) -> bool {
    '0' <= c && c <= '9'
}

pub open spec fn digit_value(c: char) -> nat {
    (c as int - '0' as int) as nat
}

pub open spec fn pow10(n: nat) -> nat
    decreases n,
{
    if n == 0 {
        1
    } else {
        10 * pow10((n - 1) as nat)
    }
}

/// The integer that a sequence of decimal digits writes.
pub open spec fn digits_value(ds: Seq<nat>) -> nat
    decreases ds.len(),
{
    if ds.len() == 0 {
        0
    } else {
        digits_value(ds.drop_last()) * 10 + ds.last()
    }
}

pub open spec fn digit_seq(v: Seq<u8>) -> Seq<nat> {
    v.map_values(|d: u8| d as nat)
}

/// What reading a numeral, its sign left out, from left to right has found.
pub struct NumeralScan {
    /// No character so far was out of place.
    pub ok: bool,
    /// A decimal point was seen.
    pub seen_dot: bool,
    /// The digits before the exponent, the point left out.
    pub mantissa: Seq<nat>,
    /// Number of those digits after the point.
    pub fraction: nat,
    /// An `e` or `E` was seen.
    pub in_exponent: bool,
    /// The exponent has a sign.
    pub exponent_signed: bool,
    /// The exponent's sign is `-`.
    pub exponent_negative: bool,
    /// Number of exponent digits.
    pub exponent_digits: nat,
    /// The integer that the exponent digits write.
    pub exponent: nat,
}

pub open spec fn scan_start() -> NumeralScan {
    NumeralScan {
        ok: true,
        seen_dot: false,
        mantissa: Seq::empty(),
        fraction: 0,
        in_exponent: false,
        exponent_signed: false,
        exponent_negative: false,
        exponent_digits: 0,
        exponent: 0,
    }
}

/// The scan after one more character.
pub open spec fn scan_step(p: NumeralScan, c: char) -> NumeralScan {
    if !p.ok {
        p
    } else if p.in_exponent {
        if (c == '+' || c == '-') && !p.exponent_signed && p.exponent_digits == 0 {
            NumeralScan { exponent_signed: true, exponent_negative: c == '-', ..p }
        } else if is_digit(c) {
            NumeralScan {
                exponent_digits: p.exponent_digits + 1,
                exponent: p.exponent * 10 + digit_value(c),
                ..p
            }
        } else {
            NumeralScan { ok: false, ..p }
        }
    } else if is_digit(c) {
        NumeralScan {
            mantissa: p.mantissa.push(digit_value(c)),
            fraction: if p.seen_dot { p.fraction + 1 } else { p.fraction },
            ..p
        }
    } else if c == '.' && !p.seen_dot {
        NumeralScan { seen_dot: true, ..p }
    } else if (c == 'e' || c == 'E') && p.mantissa.len() > 0 {
        NumeralScan { in_exponent: true, ..p }
    } else {
        NumeralScan { ok: false, ..p }
    }
}

pub open spec fn scan_numeral(s: Seq<char>) -> NumeralScan
    decreases s.len(),
{
    if s.len() == 0 {
        scan_start()
    } else {
        scan_step(scan_numeral(s.drop_last()), s.last())
    }
}

/// The sign of a numeral, and what follows it.
pub open spec fn sign_split(s: Seq<char>) -> (bool, Seq<char>) {
    if s.len() > 0 && (s[0] == '+' || s[0] == '-') {
        (s[0] == '-', s.drop_first())
    } else {
        (false, s)
    }
}

/// A complete numeral: no character out of place, some mantissa digit, and
/// exponent digits where there is an exponent.
pub open spec fn well_formed(sc: NumeralScan) -> bool {
    sc.ok && sc.mantissa.len() > 0 && (!sc.in_exponent || sc.exponent_digits > 0)
}

/// How many places the mantissa's integer moves to the left to give 10^-8
/// units: eight, less the fraction digits, plus the exponent.
pub open spec fn shift_of(fraction: nat, exponent_negative: bool, exponent: nat) -> int {
    8 - fraction + if exponent_negative {
        -exponent
    } else {
        exponent as int
    }
}

/// The magnitude in 10^-8 units of the mantissa digits `m` moved by `sh`
/// places: where digits move past the eighth place they are dropped, and the
/// first of them, where it is 5 or more, rounds the rest up by one.
pub open spec fn magnitude_units(m: Seq<nat>, sh: int) -> nat {
    if sh >= 0 {
        digits_value(m) * pow10(sh as nat)
    } else if -sh <= m.len() {
        let keep = m.len() + sh;
        digits_value(m.take(keep)) + if m[keep] >= 5 {
            1nat
        } else {
            0nat
        }
    } else {
        0
    }
}

/// The signed value of `s` in 10^-8 units, where `s` is a finite numeral
/// whose magnitude an `i64` holds.
pub open spec fn parse_units_spec(s: Seq<char>) -> Option<i64> {
    let neg = sign_split(s).0;
    let sc = scan_numeral(sign_split(s).1);
    if !well_formed(sc) {
        None
    } else {
        let mag = magnitude_units(sc.mantissa, shift_of(sc.fraction, sc.exponent_negative, sc.exponent));
        if mag <= i64::MAX {
            Some(
                if neg {
                    (-mag) as i64
                } else {
                    mag as i64
                },
            )
        } else {
            None
        }
    }
}

// ---------------------------------------------------------------------------
// Lemmas
proof fn lemma_pow10_mono(a: nat, b: nat)
    requires
        a <= b,
    ensures
        1 <= pow10(a) <= pow10(b),
    decreases b,
{
    if b > 0 {
        if a < b {
            lemma_pow10_mono(a, (b - 1) as nat);
        } else {
            lemma_pow10_mono((a - 1) as nat, (b - 1) as nat);
        }
    }
}

proof fn lemma_pow10_19()
    ensures
        pow10(19) > i64::MAX,
{
    reveal_with_fuel(pow10, 20);
}

proof fn lemma_digits_prefix(ds: Seq<nat>, i: int, j: int)
    requires
        0 <= i <= j <= ds.len(),
    ensures
        digits_value(ds.take(i)) <= digits_value(ds.take(j)),
    decreases j - i,
{
    if i < j {
        lemma_digits_prefix(ds, i, j - 1);
        assert(ds.take(j).drop_last() =~= ds.take(j - 1));
    }
}

proof fn lemma_failure_persists(s: Seq<char>, i: int, j: int)
    requires
        0 <= i <= j <= s.len(),
        !scan_numeral(s.take(i)).ok,
    ensures
        !scan_numeral(s.take(j)).ok,
    decreases j - i,
{
    if j > i {
        lemma_failure_persists(s, i, j - 1);
        assert(s.take(j).drop_last() =~= s.take(j - 1));
    }
}

/// Exponent digits only add to the exponent; the mantissa and fraction stay.
proof fn lemma_scan_facts(s: Seq<char>)
    ensures
        scan_numeral(s).fraction <= scan_numeral(s).mantissa.len() <= s.len(),
    decreases s.len(),
{
    if s.len() > 0 {
        lemma_scan_facts(s.drop_last());
    }
}

/// A magnitude is at least the integer of its kept digits.
proof fn lemma_magnitude_bounds(m: Seq<nat>, sh: int)
    ensures
        sh >= 0 ==> magnitude_units(m, sh) >= digits_value(m),
        sh < 0 && -sh <= m.len() ==> magnitude_units(m, sh) >= digits_value(m.take(m.len() + sh)),
{
    if sh >= 0 {
        lemma_pow10_mono(0, sh as nat);
        assert(digits_value(m) * pow10(sh as nat) >= digits_value(m)) by (nonlinear_arith)
            requires
                pow10(sh as nat) >= 1,
        ;
    }
}

/// An exponent that is larger than the numeral's length by a hundred gives
/// the same result as any larger one.
proof fn lemma_exponent_cap(m: Seq<nat>, fraction: nat, neg: bool, e: nat, cap: nat)
    requires
        fraction <= m.len(),
        cap >= m.len() + 100,
        e >= cap,
    ensures
        (magnitude_units(m, shift_of(fraction, neg, e)) <= i64::MAX) == (magnitude_units(
            m,
            shift_of(fraction, neg, cap),
        ) <= i64::MAX),
        magnitude_units(m, shift_of(fraction, neg, e)) <= i64::MAX ==> magnitude_units(
            m,
            shift_of(fraction, neg, e),
        ) == magnitude_units(m, shift_of(fraction, neg, cap)),
{
    let s1 = shift_of(fraction, neg, e);
    let s2 = shift_of(fraction, neg, cap);
    if !neg {
        let mv = digits_value(m);
        if mv == 0 {
            assert(0 * pow10(s1 as nat) == 0);
            assert(0 * pow10(s2 as nat) == 0);
        } else {
            lemma_pow10_mono(19, s1 as nat);
            lemma_pow10_mono(19, s2 as nat);
            lemma_pow10_19();
            assert(mv * pow10(s1 as nat) >= pow10(s1 as nat)) by (nonlinear_arith)
                requires
                    mv >= 1,
            ;
            assert(mv * pow10(s2 as nat) >= pow10(s2 as nat)) by (nonlinear_arith)
                requires
                    mv >= 1,
            ;
        }
    }
}

// ---------------------------------------------------------------------------
// The value of a plain numeral

/// Every character of `cs` is a decimal digit.
pub open spec fn digit_chars(cs: Seq<char>) -> bool {
    forall|i: int| 0 <= i < cs.len() ==> is_digit(#[trigger] cs[i])
}

/// The integer that the decimal digits `cs` write.
pub open spec fn chars_value(cs: Seq<char>) -> nat {
    digits_value(cs.map_values(|c: char| digit_value(c)))
}

proof fn lemma_pow10_add(a: nat, b: nat)
    ensures
        pow10(a + b) == pow10(a) * pow10(b),
    decreases a,
{
    if a > 0 {
        lemma_pow10_add((a - 1) as nat, b);
        let a1 = (a - 1) as nat;
        assert((a + b) as nat - 1 == a1 + b);
        assert(pow10(a + b) == 10 * pow10(a1 + b));
        assert(pow10(a) == 10 * pow10(a1));
        assert(10 * (pow10(a1) * pow10(b)) == (10 * pow10(a1)) * pow10(b)) by (nonlinear_arith);
    } else {
        assert(pow10(0) == 1);
        assert(a + b == b);
        assert(1 * pow10(b) == pow10(b));
    }
}

proof fn lemma_digits_concat(a: Seq<nat>, b: Seq<nat>)
    ensures
        digits_value(a + b) == digits_value(a) * pow10(b.len()) + digits_value(b),
    decreases b.len(),
{
    if b.len() == 0 {
        assert(a + b =~= a);
        assert(pow10(0) == 1);
        assert(digits_value(a) * 1 == digits_value(a));
    } else {
        lemma_digits_concat(a, b.drop_last());
        assert((a + b).drop_last() =~= a + b.drop_last());
        assert((a + b).last() == b.last());
        let x = digits_value(a);
        let p = pow10(b.drop_last().len());
        let y = digits_value(b.drop_last());
        assert(digits_value(a + b) == digits_value(a + b.drop_last()) * 10 + b.last());
        assert(digits_value(b) == y * 10 + b.last());
        assert(pow10(b.len()) == 10 * p);
        assert((x * p + y) * 10 + b.last() == x * (10 * p) + (y * 10 + b.last())) by (nonlinear_arith);
    }
}

/// Scanning digits after a prefix that is a numeral so far, before any
/// exponent, appends them to the mantissa.
proof fn lemma_scan_digits(p: Seq<char>, cs: Seq<char>)
    requires
        digit_chars(cs),
        scan_numeral(p).ok,
        !scan_numeral(p).in_exponent,
    ensures
        ({
            let a = scan_numeral(p);
            let b = scan_numeral(p + cs);
            &&& b.ok
            &&& !b.in_exponent
            &&& b.seen_dot == a.seen_dot
            &&& b.mantissa == a.mantissa + cs.map_values(|c: char| digit_value(c))
            &&& b.fraction == if a.seen_dot {
                a.fraction + cs.len()
            } else {
                a.fraction
            }
            &&& b.exponent_negative == a.exponent_negative
            &&& b.exponent == a.exponent
        }),
    decreases cs.len(),
{
    if cs.len() == 0 {
        assert(p + cs =~= p);
        assert(cs.map_values(|c: char| digit_value(c)) =~= Seq::<nat>::empty());
        assert(scan_numeral(p).mantissa + Seq::<nat>::empty() =~= scan_numeral(p).mantissa);
    } else {
        lemma_scan_digits(p, cs.drop_last());
        assert((p + cs).drop_last() =~= p + cs.drop_last());
        assert((p + cs).last() == cs.last());
        assert(is_digit(cs[cs.len() - 1]));
        assert(cs.map_values(|c: char| digit_value(c)) =~= cs.drop_last().map_values(
            |c: char| digit_value(c),
        ).push(digit_value(cs.last())));
    }
}

/// A plain numeral `I.F` (digits, a point, at most eight digits) reads as
/// its value times 10^8: `I * 10^8 + F * 10^(8 - |F|)` units, negated after
/// a `-`; digits alone read as `I * 10^8`.
pub proof fn law_plain_numeral_value(int_part: Seq<char>, frac: Seq<char>)
    requires
        digit_chars(int_part),
        digit_chars(frac),
        int_part.len() + frac.len() >= 1,
        frac.len() <= 8,
    ensures
        ({
            let v = chars_value(int_part) * 100_000_000 + chars_value(frac) * pow10(
                (8 - frac.len()) as nat,
            );
            &&& parse_units_spec(int_part + seq!['.'] + frac) == if v <= i64::MAX {
                Some(v as i64)
            } else {
                None
            }
            &&& parse_units_spec(seq!['-'] + int_part + seq!['.'] + frac) == if v <= i64::MAX {
                Some((-v) as i64)
            } else {
                None
            }
        }),
        int_part.len() >= 1 ==> parse_units_spec(int_part) == if chars_value(int_part) * 100_000_000
            <= i64::MAX {
            Some((chars_value(int_part) * 100_000_000) as i64)
        } else {
            None
        },
{
    let e = Seq::<char>::empty();
    assert(e + int_part =~= int_part);
    lemma_scan_digits(e, int_part);
    let mi = int_part.map_values(|c: char| digit_value(c));
    let mf = frac.map_values(|c: char| digit_value(c));
    assert(Seq::<nat>::empty() + mi =~= mi);
    let pd = int_part.push('.');
    assert(pd.drop_last() =~= int_part);
    lemma_scan_digits(pd, frac);
    let t = int_part + seq!['.'] + frac;
    assert(pd + frac =~= t);
    let sc = scan_numeral(t);
    assert(sc.mantissa == mi + mf);
    assert(sc.fraction == frac.len());
    // the value
    lemma_digits_concat(mi, mf);
    lemma_pow10_add(frac.len(), (8 - frac.len()) as nat);
    reveal_with_fuel(pow10, 9);
    assert(pow10(8) == 100_000_000);
    let x = chars_value(int_part);
    let y = chars_value(frac);
    let pf = pow10(frac.len());
    let pr = pow10((8 - frac.len()) as nat);
    assert((x * pf + y) * pr == x * (pf * pr) + y * pr) by (nonlinear_arith);
    assert(shift_of(sc.fraction, sc.exponent_negative, sc.exponent) == 8 - frac.len());
    assert(magnitude_units(sc.mantissa, 8 - frac.len()) == (x * pf + y) * pr);
    // the sign
    if int_part.len() > 0 {
        assert(t[0] == int_part[0]);
        assert(is_digit(int_part[0]));
    } else {
        assert(t[0] == '.');
    }
    assert(sign_split(t) == (false, t));
    let mt = seq!['-'] + int_part + seq!['.'] + frac;
    assert(mt[0] == '-');
    assert(mt.drop_first() =~= t);
    assert(sign_split(mt) == (true, t));
    if int_part.len() >= 1 {
        assert(int_part[0] == int_part[0]);
        assert(is_digit(int_part[0]));
        assert(sign_split(int_part) == (false, int_part));
        assert(magnitude_units(mi, 8) == x * pow10(8));
    }
}

// ---------------------------------------------------------------------------
// Executable code
/// `magnitude_units(digit_seq(ds), sh)`, where an `i64` holds it.
fn magnitude(ds: &Vec<u8>, sh: i128) -> (r: Option<i64>)
    requires
        forall|i: int| 0 <= i < ds@.len() ==> ds@[i] <= 9,
        -0x1_0000_0000_0000_0000_0000 <= sh,
    ensures
        r is Some <==> magnitude_units(digit_seq(ds@), sh as int) <= i64::MAX,
        r matches Some(v) ==> v as int == magnitude_units(digit_seq(ds@), sh as int),
{
    let ghost m = digit_seq(ds@);
    let n: usize = ds.len();
    let keep: usize = if sh >= 0 {
        n
    } else if -sh <= n as i128 {
        (n as i128 + sh) as usize
    } else {
        return Some(0);
    };
    let mut acc: i64 = 0;
    let mut i: usize = 0;
    assert(m.take(0) =~= Seq::<nat>::empty());
    while i < keep
        invariant
            m == digit_seq(ds@),
            keep <= n == ds@.len(),
            forall|j: int| 0 <= j < ds@.len() ==> ds@[j] <= 9,
            i <= keep,
            sh >= 0 ==> keep == n,
            sh < 0 ==> keep == n + sh,
            acc as int == digits_value(m.take(i as int)),
            acc >= 0,
        decreases keep - i,
    {
        let d: i64 = ds[i] as i64;
        assert(m.take(i + 1).drop_last() =~= m.take(i as int));
        assert(m.take(i + 1).last() == d);
        assert(digits_value(m.take(i + 1)) == digits_value(m.take(i as int)) * 10 + d);
        if acc > (i64::MAX - d) / 10 {
            proof {
                assert(acc * 10 + d > i64::MAX) by (nonlinear_arith)
                    requires
                        acc > (i64::MAX - d) / 10,
                        0 <= d <= 9,
                ;
                lemma_digits_prefix(m, i + 1, keep as int);
                assert(m.take(n as int) =~= m);
                lemma_magnitude_bounds(m, sh as int);
                if sh < 0 {
                    assert(keep == n + sh);
                    assert(magnitude_units(m, sh as int) >= digits_value(m.take(keep as int)));
                } else {
                    assert(keep == n);
                    assert(magnitude_units(m, sh as int) >= digits_value(m));
                }
                assert(magnitude_units(m, sh as int) > i64::MAX);
            }
            return None;
        }
        acc = acc * 10 + d;
        i = i + 1;
    }
    if sh >= 0 {
        assert(m.take(n as int) =~= m);
        assert(pow10(0) == 1);
        assert(digits_value(m) * 1 == digits_value(m));
        let mut t: i128 = 0;
        while t < sh
            invariant
                m == digit_seq(ds@),
                0 <= t <= sh,
                acc >= 0,
                acc as int == digits_value(m) * pow10(t as nat),
            decreases sh - t,
        {
            if acc > i64::MAX / 10 {
                proof {
                    let mv = digits_value(m);
                    assert(acc * 10 > i64::MAX) by (nonlinear_arith)
                        requires
                            acc > i64::MAX / 10,
                    ;
                    lemma_pow10_mono((t + 1) as nat, sh as nat);
                    assert(mv * pow10((t + 1) as nat) == acc * 10) by (nonlinear_arith)
                        requires
                            acc == mv * pow10(t as nat),
                            pow10((t + 1) as nat) == 10 * pow10(t as nat),
                    ;
                    assert(mv * pow10(sh as nat) >= mv * pow10((t + 1) as nat)) by (nonlinear_arith)
                        requires
                            pow10(sh as nat) >= pow10((t + 1) as nat),
                    ;
                    assert(magnitude_units(m, sh as int) == mv * pow10(sh as nat));
                    assert(magnitude_units(m, sh as int) > i64::MAX);
                }
                return None;
            }
            proof {
                let mv = digits_value(m);
                assert(mv * pow10((t + 1) as nat) == acc * 10) by (nonlinear_arith)
                    requires
                        acc == mv * pow10(t as nat),
                        pow10((t + 1) as nat) == 10 * pow10(t as nat),
                ;
            }
            acc = acc * 10;
            t = t + 1;
        }
        Some(acc)
    } else {
        let up: bool = ds[keep] >= 5;
        assert(m[keep as int] == ds@[keep as int] as nat);
        assert(keep as int == m.len() + sh);
        if up {
            if acc == i64::MAX {
                return None;
            }
            Some(acc + 1)
        } else {
            Some(acc)
        }
    }
}

/// Reads a numeral as a signed number of 10^-8 units (see the module
/// documentation for the grammar and the rounding).
///
/// Returns `None` when `s` is not a finite numeral, or its magnitude exceeds
/// what an `i64` holds in 10^-8 units.
pub fn parse_units(s: &str) -> (r: Option<i64>)
    ensures
        r == parse_units_spec(s@),
{
    let len: usize = s.unicode_len();
    let mut start: usize = 0;
    let mut neg: bool = false;
    if len > 0 {
        let c0: char = s.get_char(0);
        if c0 == '+' || c0 == '-' {
            neg = c0 == '-';
            start = 1;
        }
    }
    let ghost body = sign_split(s@).1;
    assert(body =~= s@.subrange(start as int, len as int));
    assert(neg == sign_split(s@).0);
    let cap: u128 = (len as u128) + 100;
    let mut i: usize = start;
    let mut seen_dot: bool = false;
    let mut ds: Vec<u8> = Vec::new();
    let mut fraction: usize = 0;
    let mut in_exponent: bool = false;
    let mut exponent_signed: bool = false;
    let mut exponent_negative: bool = false;
    let mut exponent_digits: usize = 0;
    let mut exponent: u128 = 0;
    assert(body.take(0) =~= Seq::<char>::empty());
    assert(digit_seq(ds@) =~= Seq::<nat>::empty());
    while i < len
        invariant
            len == s@.len(),
            start <= i <= len,
            body == s@.subrange(start as int, len as int),
            body == sign_split(s@).1,
            neg == sign_split(s@).0,
            cap == len + 100,
            fraction <= i,
            exponent_digits <= i,
            forall|j: int| 0 <= j < ds@.len() ==> ds@[j] <= 9,
            ({
                let sc = scan_numeral(body.take(i - start));
                &&& sc.ok
                &&& sc.seen_dot == seen_dot
                &&& sc.mantissa == digit_seq(ds@)
                &&& sc.fraction == fraction
                &&& sc.in_exponent == in_exponent
                &&& sc.exponent_signed == exponent_signed
                &&& sc.exponent_negative == exponent_negative
                &&& sc.exponent_digits == exponent_digits
                &&& exponent as int == if sc.exponent < cap {
                    sc.exponent as int
                } else {
                    cap as int
                }
            }),
        decreases len - i,
    {
        let c: char = s.get_char(i);
        let ghost k = i - start;
        assert(body.take(k + 1).drop_last() =~= body.take(k));
        assert(body.take(k + 1).last() == c);
        let ghost prev = scan_numeral(body.take(k));
        if in_exponent {
            if (c == '+' || c == '-') && !exponent_signed && exponent_digits == 0 {
                exponent_signed = true;
                exponent_negative = c == '-';
            } else if '0' <= c && c <= '9' {
                let d: u128 = ((c as u32) - ('0' as u32)) as u128;
                if exponent < cap {
                    exponent = exponent * 10 + d;
                    if exponent > cap {
                        exponent = cap;
                    }
                }
                exponent_digits = exponent_digits + 1;
            } else {
                proof {
                    assert(!scan_numeral(body.take(k + 1)).ok);
                    assert(body.take((len - start) as int) =~= body);
                    lemma_failure_persists(body, k + 1, (len - start) as int);
                    assert(!well_formed(scan_numeral(body)));
                }
                return None;
            }
        } else if '0' <= c && c <= '9' {
            let d: u8 = ((c as u32) - ('0' as u32)) as u8;
            let ghost before = ds@;
            ds.push(d);
            assert(digit_seq(ds@) =~= digit_seq(before).push(digit_value(c)));
            if seen_dot {
                fraction = fraction + 1;
            }
        } else if c == '.' && !seen_dot {
            seen_dot = true;
        } else if (c == 'e' || c == 'E') && ds.len() > 0 {
            in_exponent = true;
        } else {
            proof {
                assert(body.take((len - start) as int) =~= body);
                lemma_failure_persists(body, k + 1, (len - start) as int);
            }
            return None;
        }
        i = i + 1;
    }
    assert(body.take((len - start) as int) =~= body);
    let ghost sc = scan_numeral(body);
    assert(sc.mantissa == digit_seq(ds@));
    assert(sc.mantissa.len() == ds@.len());
    if ds.len() == 0 || (in_exponent && exponent_digits == 0) {
        assert(!well_formed(sc));
        assert(sc == scan_numeral(sign_split(s@).1));
        assert(parse_units_spec(s@) is None);
        return None;
    }
    proof {
        lemma_scan_facts(body);
    }
    let e: i128 = if exponent_negative {
        -(exponent as i128)
    } else {
        exponent as i128
    };
    let sh: i128 = 8 - (fraction as i128) + e;
    let ghost capped: nat = if sc.exponent < cap {
        sc.exponent
    } else {
        cap as nat
    };
    assert(sh == shift_of(sc.fraction, sc.exponent_negative, capped));
    proof {
        if sc.exponent >= cap {
            lemma_exponent_cap(sc.mantissa, sc.fraction, sc.exponent_negative, sc.exponent, cap as nat);
        }
    }
    match magnitude(&ds, sh) {
        Some(m) => {
            if neg {
                Some(-m)
            } else {
                Some(m)
            }
        },
        None => None,
    }
}

} // verus!
