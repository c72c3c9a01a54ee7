//! Text of the numeric fields of a spooled match record: integers as
//! optional minus sign and decimal digits, decimals the same with a point
//! and exactly eight fractional digits.
use vstd::prelude::*;
use crate::decimal::{abs_int, Decimal};

verus! {

pub const SCALE: u128 = 100_000_000;

/// The ASCII byte of decimal digit `d`.
pub open spec fn digit_byte(d: int) -> u8 {
    (d + 48) as u8
}

/// Whether `b` is an ASCII decimal digit.
pub open spec fn is_digit(b: u8) -> bool {
    48 <= b <= 57
}

/// Whether every byte of `s` is an ASCII decimal digit.
pub open spec fn all_digits(s: Seq<u8>) -> bool {
    forall|i: int| 0 <= i < s.len() ==> is_digit(#[trigger] s[i])
}

/// The decimal digits of `n`, without leading zeros.
pub open spec fn digits_of(n: nat) -> Seq<u8>
    decreases n,
{
    if n < 10 {
        seq![digit_byte(n as int)]
    } else {
        digits_of(n / 10).push(digit_byte((n % 10) as int))
    }
}

/// The last `w` decimal digits of `n`, with leading zeros.
pub open spec fn fixed_digits(n: nat, w: nat) -> Seq<u8>
    decreases w,
{
    if w == 0 {
        Seq::empty()
    } else {
        fixed_digits(n / 10, (w - 1) as nat).push(digit_byte((n % 10) as int))
    }
}

/// Ten to the power `w`.
pub open spec fn pow10(w: nat) -> nat
    decreases w,
{
    if w == 0 {
        1
    } else {
        10 * pow10((w - 1) as nat)
    }
}

proof fn lemma_pow10_8()
    ensures
        pow10(8) == 100_000_000,
{
    reveal_with_fuel(pow10, 9);
}

/// Value of the decimal digits `s`.
pub open spec fn value_of(s: Seq<u8>) -> nat
    decreases s.len(),
{
    if s.len() == 0 {
        0
    } else {
        (value_of(s.drop_last()) * 10 + (s.last() - 48)) as nat
    }
}

/// Text of integer `v`.
pub open spec fn int_text(v: int) -> Seq<u8> {
    if v < 0 {
        seq![45u8] + digits_of(abs_int(v) as nat)
    } else {
        digits_of(v as nat)
    }
}

/// Text of a decimal of `v` units.
pub open spec fn decimal_text(v: int) -> Seq<u8> {
    let m = abs_int(v) as nat;
    let body = digits_of(m / (SCALE as nat)) + seq![46u8] + fixed_digits(m % (SCALE as nat), 8);
    if v < 0 {
        seq![45u8] + body
    } else {
        body
    }
}

/// `s` without a leading minus sign.
pub open spec fn unsigned_part(s: Seq<u8>) -> Seq<u8> {
    if s.len() > 0 && s[0] == 45u8 {
        s.drop_first()
    } else {
        s
    }
}

/// `m` with the sign of `s`.
pub open spec fn signed(s: Seq<u8>, m: int) -> int {
    if s.len() > 0 && s[0] == 45u8 {
        -m
    } else {
        m
    }
}

/// The integer that text `s` gives, when it is an optional minus sign and
/// one or more digits whose value fits an `i64`.
pub open spec fn int_of_text(s: Seq<u8>) -> Option<i64> {
    let t = unsigned_part(s);
    if t.len() > 0 && all_digits(t) && i64::MIN <= signed(s, value_of(t) as int) <= i64::MAX {
        Some(signed(s, value_of(t) as int) as i64)
    } else {
        None
    }
}

/// The units of the decimal that text `s` gives, when it is an optional
/// minus sign, one or more digits, a point and eight digits, and the value
/// fits.
pub open spec fn decimal_of_text(s: Seq<u8>) -> Option<i128> {
    let t = unsigned_part(s);
    let n = t.len() as int;
    if n >= 10 && t[n - 9] == 46u8 && all_digits(t.subrange(0, n - 9)) && all_digits(t.subrange(n - 8, n)) {
        let v = signed(s, value_of(t.subrange(0, n - 9)) * (SCALE as int) + value_of(t.subrange(n - 8, n)));
        if i128::MIN <= v <= i128::MAX {
            Some(v as i128)
        } else {
            None
        }
    } else {
        None
    }
}

proof fn lemma_pow10_positive(w: nat)
    ensures
        pow10(w) > 0,
    decreases w,
{
    if w > 0 {
        lemma_pow10_positive((w - 1) as nat);
    }
}

proof fn lemma_digits_of(n: nat)
    ensures
        digits_of(n).len() > 0,
        all_digits(digits_of(n)),
        value_of(digits_of(n)) == n,
    decreases n,
{
    if n >= 10 {
        lemma_digits_of(n / 10);
        let d = digits_of(n / 10);
        assert(digits_of(n).drop_last() =~= d);
        assert forall|i: int| 0 <= i < digits_of(n).len() implies is_digit(#[trigger] digits_of(n)[i]) by {
            if i < d.len() {
                assert(digits_of(n)[i] == d[i]);
            }
        }
        vstd::arithmetic::div_mod::lemma_fundamental_div_mod(n as int, 10);
        assert(0 <= n % 10 < 10);
        assert(digits_of(n).last() == digit_byte((n % 10) as int));
        assert(value_of(digits_of(n)) == value_of(d) * 10 + (n % 10));
    } else {
        let sq = digits_of(n);
        assert(sq == seq![digit_byte(n as int)]);
        assert(sq.len() == 1);
        assert(sq.drop_last() =~= Seq::<u8>::empty());
        assert(value_of(sq.drop_last()) == 0);
        assert(digit_byte(n as int) as int == n + 48);
        assert(sq.last() == digit_byte(n as int));
        assert(value_of(sq) == (value_of(sq.drop_last()) * 10 + (sq.last() - 48)) as nat);
    }
}

proof fn lemma_fixed_digits(n: nat, w: nat)
    ensures
        fixed_digits(n, w).len() == w,
        all_digits(fixed_digits(n, w)),
        value_of(fixed_digits(n, w)) == n % pow10(w),
    decreases w,
{
    if w > 0 {
        lemma_fixed_digits(n / 10, (w - 1) as nat);
        let d = fixed_digits(n / 10, (w - 1) as nat);
        assert(fixed_digits(n, w).drop_last() =~= d);
        assert forall|i: int| 0 <= i < fixed_digits(n, w).len() implies is_digit(#[trigger] fixed_digits(n, w)[i]) by {
            if i < d.len() {
                assert(fixed_digits(n, w)[i] == d[i]);
            }
        }
        let p = pow10((w - 1) as nat);
        lemma_pow10_positive((w - 1) as nat);
        vstd::arithmetic::div_mod::lemma_breakdown(n as int, 10, p as int);
    }
}

/// Round trip: the text of a decimal reads back as the same decimal.
pub proof fn lemma_decimal_round_trip(v: i128)
    ensures
        decimal_of_text(decimal_text(v as int)) == Some(v),
{
    let m = abs_int(v as int) as nat;
    let ip = m / (SCALE as nat);
    let fp = m % (SCALE as nat);
    lemma_digits_of(ip);
    lemma_fixed_digits(fp, 8);
    lemma_pow10_8();
    let d = digits_of(ip);
    let f = fixed_digits(fp, 8);
    let body = d + seq![46u8] + f;
    let s = decimal_text(v as int);
    assert(d.len() > 0);
    if v < 0 {
        assert(s[0] == 45u8);
        assert(unsigned_part(s) =~= body);
    } else {
        assert(d[0] != 45u8) by {
            assert(is_digit(d[0]));
        }
        assert(unsigned_part(s) =~= body);
    }
    let n = body.len() as int;
    assert(body.subrange(0, n - 9) =~= d);
    assert(body.subrange(n - 8, n) =~= f);
    assert(body[n - 9] == 46u8);
    vstd::arithmetic::div_mod::lemma_fundamental_div_mod(m as int, SCALE as int);
    assert(fp % (SCALE as nat) == fp) by {
        vstd::arithmetic::div_mod::lemma_mod_bound(m as int, SCALE as int);
        vstd::arithmetic::div_mod::lemma_small_mod(fp, SCALE as nat);
    }
}

/// Round trip: the text of an integer reads back as the same integer.
pub proof fn lemma_int_round_trip(v: i64)
    ensures
        int_of_text(int_text(v as int)) == Some(v),
{
    let m = abs_int(v as int) as nat;
    lemma_digits_of(m);
    let d = digits_of(m);
    let s = int_text(v as int);
    if v < 0 {
        assert(s[0] == 45u8);
        assert(unsigned_part(s) =~= d);
    } else {
        assert(d[0] != 45u8) by {
            assert(is_digit(d[0]));
        }
        assert(unsigned_part(s) =~= d);
    }
}

/// Appends the digits of `n`.
fn push_digits(out: &mut Vec<u8>, n: u128)
    ensures
        final(out)@ == old(out)@ + digits_of(n as nat),
    decreases n,
{
    if n >= 10 {
        push_digits(out, n / 10);
    }
    let ghost before = out@;
    out.push((n % 10) as u8 + 48);
    proof {
        if n >= 10 {
            assert(out@ =~= old(out)@ + digits_of((n / 10) as nat).push(digit_byte((n % 10) as int)));
        } else {
            assert(out@ =~= old(out)@ + seq![digit_byte(n as int)]);
        }
    }
}

/// Appends the last `w` digits of `n`, with leading zeros.
fn push_fixed(out: &mut Vec<u8>, n: u128, w: u32)
    ensures
        final(out)@ == old(out)@ + fixed_digits(n as nat, w as nat),
    decreases w,
{
    if w > 0 {
        push_fixed(out, n / 10, w - 1);
        out.push((n % 10) as u8 + 48);
        assert(out@ =~= old(out)@ + fixed_digits((n / 10) as nat, (w - 1) as nat).push(
            digit_byte((n % 10) as int),
        ));
    } else {
        assert(out@ =~= old(out)@ + Seq::<u8>::empty());
    }
}

/// Magnitude of `v`.
fn magnitude(v: i128) -> (r: u128)
    ensures
        r == abs_int(v as int),
{
    if v >= 0 {
        v as u128
    } else {
        (-(v + 1)) as u128 + 1
    }
}

/// The text of a decimal.
pub fn render_decimal(d: Decimal) -> (r: Vec<u8>)
    ensures
        r@ == decimal_text(d@),
{
    let m = magnitude(d.units);
    let mut out: Vec<u8> = Vec::new();
    if d.units < 0 {
        out.push(45u8);
    }
    push_digits(&mut out, m / SCALE);
    out.push(46u8);
    push_fixed(&mut out, m % SCALE, 8);
    proof {
        let mm = abs_int(d@) as nat;
        let body = digits_of(mm / (SCALE as nat)) + seq![46u8] + fixed_digits(mm % (SCALE as nat), 8);
        if d.units < 0 {
            assert(out@ =~= seq![45u8] + body);
        } else {
            assert(out@ =~= body);
        }
    }
    out
}

/// The text of an integer.
pub fn render_int(v: i64) -> (r: Vec<u8>)
    ensures
        r@ == int_text(v as int),
{
    let m = magnitude(v as i128);
    let mut out: Vec<u8> = Vec::new();
    if v < 0 {
        out.push(45u8);
    }
    push_digits(&mut out, m);
    proof {
        if v < 0 {
            assert(out@ =~= seq![45u8] + digits_of(abs_int(v as int) as nat));
        } else {
            assert(out@ =~= digits_of(v as nat));
        }
    }
    out
}

proof fn lemma_value_prefix(s: Seq<u8>, k: int)
    requires
        all_digits(s),
        0 <= k <= s.len(),
    ensures
        value_of(s.subrange(0, k)) <= value_of(s),
    decreases s.len() - k,
{
    if k < s.len() {
        lemma_value_prefix(s, k + 1);
        assert(s.subrange(0, k + 1).drop_last() =~= s.subrange(0, k));
        assert(is_digit(s[k]));
    } else {
        assert(s.subrange(0, k) =~= s);
    }
}

/// Value of the digits `s[from..to]`, when all are digits and the value is
/// at most `limit`.
fn read_digits(s: &[u8], from: usize, to: usize, limit: u128) -> (r: Option<u128>)
    requires
        from <= to <= s@.len(),
        limit <= 1_000_000_000_000_000_000_000_000_000_000_000u128,
    ensures
        match r {
            Some(v) => all_digits(s@.subrange(from as int, to as int)) && v == value_of(
                s@.subrange(from as int, to as int),
            ) && v <= limit,
            None => !all_digits(s@.subrange(from as int, to as int)) || value_of(
                s@.subrange(from as int, to as int),
            ) > limit,
        },
{
    let ghost t = s@.subrange(from as int, to as int);
    let mut acc: u128 = 0;
    let mut i: usize = from;
    assert(t.subrange(0, 0) =~= Seq::<u8>::empty());
    while i < to
        invariant
            from <= i <= to <= s@.len(),
            t == s@.subrange(from as int, to as int),
            limit <= 1_000_000_000_000_000_000_000_000_000_000_000u128,
            all_digits(t.subrange(0, i - from)),
            acc == value_of(t.subrange(0, i - from)),
            acc <= limit,
        decreases to - i,
    {
        let b = s[i];
        let ghost pre = t.subrange(0, i - from);
        let ghost next = t.subrange(0, i + 1 - from);
        assert(next.drop_last() =~= pre);
        assert(next.last() == b);
        if b < 48 || b > 57 {
            assert(!is_digit(t[i - from]));
            return None;
        }
        assert(all_digits(next)) by {
            assert forall|j: int| 0 <= j < next.len() implies is_digit(#[trigger] next[j]) by {
                if j < pre.len() {
                    assert(next[j] == pre[j]);
                }
            }
        }
        let updated = acc * 10 + (b - 48) as u128;
        if updated > limit {
            proof {
                if all_digits(t) {
                    lemma_value_prefix(t, i + 1 - from);
                }
            }
            return None;
        }
        acc = updated;
        i = i + 1;
    }
    assert(t.subrange(0, to - from) =~= t);
    Some(acc)
}

/// Reads the text of a decimal; `None` for any other text.
pub fn parse_decimal(s: &[u8]) -> (r: Option<Decimal>)
    ensures
        match decimal_of_text(s@) {
            Some(u) => r == Some(Decimal { units: u }),
            None => r is None,
        },
{
    let neg = s.len() > 0 && s[0] == 45u8;
    let start: usize = if neg {
        1
    } else {
        0
    };
    let ghost t = unsigned_part(s@);
    assert(t =~= s@.subrange(start as int, s@.len() as int));
    let len = s.len();
    if len - start < 10 || s[len - 9] != 46u8 {
        return None;
    }
    let ghost n = t.len() as int;
    assert(t.subrange(0, n - 9) =~= s@.subrange(start as int, len - 9));
    assert(t.subrange(n - 8, n) =~= s@.subrange(len - 8, len as int));
    let whole = match read_digits(s, start, len - 9, 2_000_000_000_000_000_000_000_000_000_000u128) {
        Some(v) => v,
        None => return None,
    };
    let frac = match read_digits(s, len - 8, len, 99_999_999u128) {
        Some(v) => v,
        None => {
            proof {
                if all_digits(t.subrange(n - 8, n)) {
                    let f = t.subrange(n - 8, n);
                    assert(f.len() == 8);
                    lemma_eight_digits_bound(f);
                }
            }
            return None;
        },
    };
    let mag: u128 = whole * SCALE + frac;
    if neg {
        if mag > 170141183460469231731687303715884105728u128 {
            return None;
        }
        if mag == 170141183460469231731687303715884105728u128 {
            return Some(Decimal { units: i128::MIN });
        }
        Some(Decimal { units: -(mag as i128) })
    } else {
        if mag > i128::MAX as u128 {
            return None;
        }
        Some(Decimal { units: mag as i128 })
    }
}

proof fn lemma_eight_digits_bound(f: Seq<u8>)
    requires
        f.len() == 8,
        all_digits(f),
    ensures
        value_of(f) <= 99_999_999,
{
    lemma_digits_value_bound(f);
    lemma_pow10_8();
}

proof fn lemma_digits_value_bound(f: Seq<u8>)
    requires
        all_digits(f),
    ensures
        value_of(f) < pow10(f.len() as nat),
    decreases f.len(),
{
    if f.len() > 0 {
        assert(all_digits(f.drop_last())) by {
            assert forall|j: int| 0 <= j < f.drop_last().len() implies is_digit(#[trigger] f.drop_last()[j]) by {
                assert(f.drop_last()[j] == f[j]);
            }
        }
        lemma_digits_value_bound(f.drop_last());
        assert(is_digit(f[f.len() - 1]));
        let p = pow10((f.len() - 1) as nat);
        assert(value_of(f.drop_last()) + 1 <= p);
        assert((value_of(f.drop_last()) + 1) * 10 <= p * 10) by (nonlinear_arith)
            requires
                value_of(f.drop_last()) + 1 <= p,
        ;
    }
}

/// Reads the text of an integer; `None` for any other text.
pub fn parse_int(s: &[u8]) -> (r: Option<i64>)
    ensures
        r == int_of_text(s@),
{
    let neg = s.len() > 0 && s[0] == 45u8;
    let start: usize = if neg {
        1
    } else {
        0
    };
    let ghost t = unsigned_part(s@);
    assert(t =~= s@.subrange(start as int, s@.len() as int));
    if start == s.len() {
        return None;
    }
    let m = match read_digits(s, start, s.len(), 10_000_000_000_000_000_000u128) {
        Some(v) => v,
        None => return None,
    };
    if neg {
        if m > 9_223_372_036_854_775_808u128 {
            return None;
        }
        if m == 9_223_372_036_854_775_808u128 {
            return Some(i64::MIN);
        }
        Some(-(m as i64))
    } else {
        if m > i64::MAX as u128 {
            return None;
        }
        Some(m as i64)
    }
}

} // verus!
