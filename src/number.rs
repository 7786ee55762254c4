//! Exact non-negative decimal numbers, the numeric values of the language.
use vstd::prelude::*;

verus! {

/// `10^n`.
pub open spec fn pow10(n: nat) -> nat
    decreases n,
{
    if n == 0 {
        1
    } else {
        10 * pow10((n - 1) as nat)
    }
}

pub proof fn lemma_pow10_positive(n: nat)
    ensures
        pow10(n) >= 1,
    decreases n,
{
    if n > 0 {
        lemma_pow10_positive((n - 1) as nat);
    }
}

pub proof fn lemma_pow10_add(a: nat, b: nat)
    ensures
        pow10(a + b) == pow10(a) * pow10(b),
    decreases a,
{
    if a > 0 {
        let a1 = (a - 1) as nat;
        lemma_pow10_add(a1, b);
        let x = pow10(a1);
        let y = pow10(b);
        assert(a1 + b + 1 == a + b);
        assert(pow10(a + b) == 10 * pow10(a1 + b));
        assert(pow10(a) == 10 * x);
        assert(pow10(a) * y == 10 * (x * y)) by (nonlinear_arith)
            requires
                pow10(a) == 10 * x,
        ;
        assert(pow10(a + b) == pow10(a) * pow10(b));
    } else {
        assert(pow10(a) == 1);
        assert(a + b == b);
    }
}

/// A decimal number `mantissa / 10^scale`: `scale` counts the digits written
/// after the decimal point.
#[derive(Clone, Copy, Debug, PartialEq, Eq, Structural)]
pub struct LispNumber {
    pub mantissa: u64,
    pub scale: u32,
}

impl LispNumber {
    /// The mantissa of `self + other` at the larger of the two scales.
    pub open spec fn sum_mantissa(self, other: LispNumber) -> nat {
        let s = if self.scale >= other.scale { self.scale } else { other.scale };
        (self.mantissa * pow10((s - self.scale) as nat) + other.mantissa * pow10(
            (s - other.scale) as nat,
        )) as nat
    }

    /// The exact sum, written at the larger of the two scales, or `None` when
    /// its mantissa does not fit in 64 bits.
    pub fn checked_add(&self, other: &LispNumber) -> (r: Option<LispNumber>)
        ensures
            r matches Some(n) ==> n.mantissa == self.sum_mantissa(*other) && n.scale == (
            if self.scale >= other.scale {
                self.scale
            } else {
                other.scale
            }),
            r is None <==> self.sum_mantissa(*other) > u64::MAX,
    {
        let s = if self.scale >= other.scale {
            self.scale
        } else {
            other.scale
        };
        let a = scale_up(self.mantissa, s - self.scale);
        let b = scale_up(other.mantissa, s - other.scale);
        proof {
            lemma_pow10_positive((s - self.scale) as nat);
            lemma_pow10_positive((s - other.scale) as nat);
            assert(self.mantissa * pow10((s - self.scale) as nat) >= 0) by (nonlinear_arith);
            assert(other.mantissa * pow10((s - other.scale) as nat) >= 0) by (nonlinear_arith);
        }
        match (a, b) {
            (Some(x), Some(y)) => {
                match x.checked_add(y) {
                    Some(m) => Some(LispNumber { mantissa: m, scale: s }),
                    None => None,
                }
            },
            _ => None,
        }
    }

    /// The decimal text of the number: integer digits, then, only if the value
    /// is not an integer, a point and the fractional digits without trailing
    /// zeros.
    pub fn to_text(&self) -> (r: String)
        ensures
            r@ == number_text(*self),
    {
        let mut m = self.mantissa;
        let mut s = self.scale;
        while s > 0 && m % 10 == 0
            invariant
                trimmed(self.mantissa as nat, self.scale as nat) == trimmed(m as nat, s as nat),
            decreases s,
        {
            m = m / 10;
            s = s - 1;
        }
        let mut digits: Vec<char> = Vec::new();
        push_padded(m, s as u64 + 1, &mut digits);
        proof {
            lemma_padded_len(m as nat, s as nat + 1);
        }
        let split: usize = digits.len() - s as usize;
        let mut out: Vec<char> = Vec::new();
        let mut i: usize = 0;
        while i < digits.len()
            invariant
                0 < split <= digits.len(),
                i <= digits.len(),
                split + s == digits.len(),
                out@ == if s == 0 || i <= split {
                    digits@.subrange(0, i as int)
                } else {
                    digits@.subrange(0, split as int) + seq!['.'] + digits@.subrange(
                        split as int,
                        i as int,
                    )
                },
            decreases digits.len() - i,
        {
            if s > 0 && i == split {
                out.push('.');
            }
            out.push(digits[i]);
            i = i + 1;
            proof {
                if s == 0 || i <= split {
                    assert(out@ =~= digits@.subrange(0, i as int));
                } else {
                    assert(out@ =~= digits@.subrange(0, split as int) + seq!['.']
                        + digits@.subrange(split as int, i as int));
                }
            }
        }
        proof {
            assert(digits@.subrange(0, digits.len() as int) =~= digits@);
        }
        crate::text::string_from_chars(&out)
    }
}

/// `m * 10^k`, or `None` when it does not fit in 64 bits.
fn scale_up(m: u64, k: u32) -> (r: Option<u64>)
    ensures
        r matches Some(x) ==> x == m * pow10(k as nat),
        r is None <==> m * pow10(k as nat) > u64::MAX,
{
    if m == 0 {
        proof {
            assert(m * pow10(k as nat) == 0);
        }
        return Some(0);
    }
    let mut acc: u64 = m;
    let mut i: u32 = 0;
    proof {
        assert(pow10(0) == 1);
        assert(m * pow10(0) == m);
    }
    while i < k
        invariant
            i <= k,
            m >= 1,
            acc == m * pow10(i as nat),
        decreases k - i,
    {
        proof {
            assert(pow10((i + 1) as nat) == 10 * pow10(i as nat));
            assert(m * pow10((i + 1) as nat) == acc * 10) by (nonlinear_arith)
                requires
                    pow10((i + 1) as nat) == 10 * pow10(i as nat),
                    acc == m * pow10(i as nat),
            ;
        }
        match acc.checked_mul(10) {
            Some(x) => {
                acc = x;
            },
            None => {
                proof {
                    lemma_pow10_add((i + 1) as nat, (k - i - 1) as nat);
                    lemma_pow10_positive((k - i - 1) as nat);
                    let big = m * pow10((i + 1) as nat);
                    assert(pow10(k as nat) == pow10((i + 1) as nat) * pow10((k - i - 1) as nat));
                    assert(m * pow10(k as nat) >= big) by (nonlinear_arith)
                        requires
                            pow10(k as nat) == pow10((i + 1) as nat) * pow10((k - i - 1) as nat),
                            pow10((k - i - 1) as nat) >= 1,
                            big == m * pow10((i + 1) as nat),
                            m >= 1,
                    ;
                }
                return None;
            },
        }
        i = i + 1;
    }
    Some(acc)
}

/// The decimal digit character of `d < 10`.
pub open spec fn digit_char(d: nat) -> char {
    ((d + 48) as u8) as char
}

/// The digits of `n`, padded with leading zeros to at least `w` characters.
pub open spec fn padded(n: nat, w: nat) -> Seq<char>
    decreases n + w,
{
    if n < 10 && w <= 1 {
        seq![digit_char(n)]
    } else {
        padded(n / 10, if w == 0 { 0 } else { (w - 1) as nat }).push(digit_char(n % 10))
    }
}

proof fn lemma_padded_len(n: nat, w: nat)
    ensures
        padded(n, w).len() >= w,
        padded(n, w).len() >= 1,
    decreases n + w,
{
    if !(n < 10 && w <= 1) {
        lemma_padded_len(n / 10, if w == 0 { 0 } else { (w - 1) as nat });
    }
}

/// Drops trailing zeros of the fractional part: `(m, s)` with `m / 10^s`
/// unchanged.
pub open spec fn trimmed(m: nat, s: nat) -> (nat, nat)
    decreases s,
{
    if s > 0 && m % 10 == 0 {
        trimmed(m / 10, (s - 1) as nat)
    } else {
        (m, s)
    }
}

/// The decimal text of a number.
pub open spec fn number_text(n: LispNumber) -> Seq<char> {
    let (m, s) = trimmed(n.mantissa as nat, n.scale as nat);
    let d = padded(m, s + 1);
    if s == 0 {
        d
    } else {
        d.subrange(0, d.len() - s) + seq!['.'] + d.subrange(d.len() - s, d.len() as int)
    }
}

fn push_padded(n: u64, w: u64, out: &mut Vec<char>)
    requires
        w <= u32::MAX + 1,
    ensures
        final(out)@ == old(out)@ + padded(n as nat, w as nat),
    decreases n + w,
{
    if n < 10 && w <= 1 {
        out.push(((n as u8) + 48) as char);
        proof {
            assert(padded(n as nat, w as nat) == seq![digit_char(n as nat)]);
        }
    } else {
        let w2: u64 = if w == 0 { 0 } else { w - 1 };
        push_padded(n / 10, w2, out);
        out.push((((n % 10) as u8) + 48) as char);
        proof {
            assert(final(out)@ =~= old(out)@ + padded(n as nat, w as nat));
        }
    }
}

} // verus!
