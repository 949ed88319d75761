//! The intermediate representation of one scanned duration, and its exact
//! evaluation into a [`Duration`].
//!
//! The scanner stores the whole digits immediately followed by the fraction
//! digits in one buffer, with no decimal point retained. The evaluator
//! applies the decimal exponent by repartitioning that buffer: it never goes
//! through a binary floating-point value, so every digit is preserved.

use vstd::prelude::*;
use vstd::arithmetic::div_mod::{
    lemma_div_is_ordered, lemma_div_multiples_vanish, lemma_fundamental_div_mod_converse,
};
use vstd::arithmetic::mul::lemma_mul_inequality;
use crate::arith::{
    all_digits, lemma_nonzero_scaled_overflows, lemma_pow10_adds, lemma_pow10_mono,
    lemma_pow10_pos, lemma_seq_val_prefix_mono, lemma_total_split_high, lemma_total_split_low,
    lemma_total_split_mid, nano_of, pad9, pow10, seq_val, total_nanos, zeros,
};
use crate::duration::Duration;
use crate::error::ParseError;
use crate::time::{Multiplier, TimeUnit};

verus! {

/// An upper bound on the combined integer scale of a unit and three
/// multipliers; products below it keep every computation inside `u128`.
pub const SCALE_BOUND: u128 = 0x2000000000000000000000000000000;

/// How many digits of the whole part the digit buffer holds.
#[derive(Clone, Copy, Debug, PartialEq, Eq, Structural)]
pub struct Whole(pub usize);

/// The half-open index range of the fraction part inside the digit buffer.
#[derive(Clone, Copy, Debug, PartialEq, Eq, Structural)]
pub struct Fract(pub usize, pub usize);

/// Everything the scanner learned about one duration in the input.
#[derive(Clone, Debug, PartialEq, Eq)]
pub struct DurationRepr {
    /// A `-` sign was scanned (or a trailing `ago` flipped the sign).
    pub is_negative: bool,
    /// The input was an infinity token.
    pub is_infinite: bool,
    /// The whole part, as a prefix length of `digits`. `None` when the input
    /// had no whole part at all.
    pub whole: Option<Whole>,
    /// The fraction part, as an index range of `digits`. `None` when the
    /// input had no fraction part.
    pub fract: Option<Fract>,
    /// Raw decimal digit values (each `0..=9`): the whole digits (leading
    /// zeros stripped) immediately followed by the fraction digits (leading
    /// zeros preserved).
    pub digits: Vec<u8>,
    /// The value of the `e...` part, zero when absent.
    pub exponent: i16,
    /// The time unit the input named, or the configured default.
    pub unit: TimeUnit,
    /// The extra multiplier the time-unit table attached to the unit.
    pub multiplier: Multiplier,
}

impl DurationRepr {
    /// The number of digits belonging to the whole part.
    pub open spec fn whole_len(self) -> nat {
        match self.whole {
            Some(w) => w.0 as nat,
            None => 0,
        }
    }

    /// The number of digits belonging to the fraction part.
    pub open spec fn fract_len(self) -> nat {
        (self.digits@.len() - self.whole_len()) as nat
    }

    /// The input held a number (possibly just a whole part or just a
    /// fraction part). When false, an implicit `1` is evaluated.
    pub open spec fn has_number(self) -> bool {
        self.whole is Some || self.fract is Some
    }

    /// Structural invariants: the digit buffer holds raw digit values, the
    /// fraction begins where the whole part ends, and an infinity carries no
    /// digits and no exponent.
    pub open spec fn wf(self) -> bool {
        &&& all_digits(self.digits@)
        &&& self.whole_len() <= self.digits@.len()
        &&& (match self.fract {
            Some(f) => f.0 == self.whole_len() && f.1 == self.digits@.len(),
            None => self.whole_len() == self.digits@.len(),
        })
        &&& (!self.has_number() ==> self.digits@.len() == 0)
        &&& (self.is_infinite ==> !self.has_number() && self.exponent == 0)
        &&& self.digits@.len() <= 0x10_0000
    }

    /// A fresh representation: not negative, not infinite, no digits, no
    /// exponent, carrying the given default unit.
    pub fn empty(unit: TimeUnit) -> (r: DurationRepr)
        ensures
            r == (DurationRepr {
                is_negative: false,
                is_infinite: false,
                whole: None,
                fract: None,
                digits: r.digits,
                exponent: 0,
                unit,
                multiplier: Multiplier(1, 0),
            }),
            r.digits@.len() == 0,
            r.wf(),
    {
        DurationRepr {
            is_negative: false,
            is_infinite: false,
            whole: None,
            fract: None,
            digits: Vec::new(),
            exponent: 0,
            unit,
            multiplier: Multiplier(1, 0),
        }
    }
}

/// The combined integer scale: the unit's integer seconds times every extra
/// multiplier's integer part.
pub open spec fn spec_scale(repr: DurationRepr, m2: Multiplier, m3: Multiplier) -> nat {
    (repr.unit.spec_multiplier().0 * repr.multiplier.0 * m2.0 * m3.0) as nat
}

/// The effective decimal exponent: the scanned exponent plus the powers of
/// ten of the unit and of every extra multiplier.
pub open spec fn spec_exp(repr: DurationRepr, m2: Multiplier, m3: Multiplier) -> int {
    repr.exponent + repr.unit.spec_multiplier().1 + repr.multiplier.1 + m2.1 + m3.1
}

/// The seconds field that evaluating a total of `t` nanoseconds scaled by
/// `s` yields: saturating at `u64::MAX` both before and after scaling.
pub open spec fn eval_secs(t: nat, s: nat) -> int {
    let sec0 = t / 1_000_000_000;
    if sec0 > 0xffff_ffff_ffff_ffff {
        0xffff_ffff_ffff_ffff
    } else {
        let carry = (t % 1_000_000_000) * s / 1_000_000_000;
        let sec1 = sec0 * s + carry;
        if sec1 > 0xffff_ffff_ffff_ffff {
            0xffff_ffff_ffff_ffff
        } else {
            sec1 as int
        }
    }
}

/// The nanoseconds field that evaluating a total of `t` nanoseconds scaled
/// by `s` yields. When the unscaled seconds already overflow, the result is
/// pinned at the maximum; otherwise it is the scaled fraction modulo one
/// second.
pub open spec fn eval_nanos(t: nat, s: nat) -> int {
    let sec0 = t / 1_000_000_000;
    if sec0 > 0xffff_ffff_ffff_ffff {
        999_999_999
    } else {
        (((t % 1_000_000_000) * s) % 1_000_000_000) as int
    }
}

/// What evaluating a representation yields: the mathematical meaning of
/// [`DurationRepr::parse`].
pub open spec fn spec_eval(
    repr: DurationRepr,
    allow_negative: bool,
    m2: Multiplier,
    m3: Multiplier,
) -> Result<Duration, ParseError> {
    if repr.is_infinite {
        if repr.is_negative {
            Err(ParseError::NegativeInfinity)
        } else {
            Ok(Duration { secs: 0xffff_ffff_ffff_ffff, nanos: 999_999_999, is_negative: false })
        }
    } else {
        let dv = if !repr.has_number() {
            1nat
        } else {
            seq_val(repr.digits@)
        };
        let t = total_nanos(dv, repr.fract_len(), spec_exp(repr, m2, m3));
        let s = eval_secs(t, spec_scale(repr, m2, m3));
        let n = eval_nanos(t, spec_scale(repr, m2, m3));
        if repr.is_negative && s == 0 && n == 0 {
            Ok(Duration { secs: 0, nanos: 0, is_negative: false })
        } else if repr.is_negative && !allow_negative {
            Err(ParseError::NegativeNumber)
        } else {
            Ok(Duration { secs: s as u64, nanos: n as u32, is_negative: repr.is_negative })
        }
    }
}

/// Read the digit window `digits[lo..hi]`, extended by `zeros_after` zero
/// digits, as a base-10 integer. `None` means the value exceeds `u64::MAX`.
#[verifier::loop_isolation(false)]
fn parse_sec_digits(digits: &Vec<u8>, lo: usize, hi: usize, zeros_after: usize) -> (r: Option<
    u64,
>)
    requires
        all_digits(digits@),
        lo <= hi <= digits@.len(),
    ensures
        ({
            let v = seq_val(digits@.subrange(lo as int, hi as int)) * pow10(zeros_after as nat);
            match r {
                Some(s) => v <= 0xffff_ffff_ffff_ffff && s == v,
                None => v > 0xffff_ffff_ffff_ffff,
            }
        }),
{
    let ghost sub = digits@.subrange(lo as int, hi as int);
    proof {
        lemma_pow10_pos(zeros_after as nat);
    }
    let mut acc: u64 = 0;
    let mut i: usize = lo;
    while i < hi
        invariant
            lo <= i <= hi <= digits@.len(),
            all_digits(digits@),
            sub == digits@.subrange(lo as int, hi as int),
            acc == seq_val(digits@.subrange(lo as int, i as int)),
        decreases hi - i,
    {
        let d = digits[i];
        let next: u128 = acc as u128 * 10 + d as u128;
        if next > 0xffff_ffff_ffff_ffff {
            proof {
                let pre = digits@.subrange(lo as int, i + 1);
                assert(pre.drop_last() =~= digits@.subrange(lo as int, i as int));
                assert(seq_val(pre) == acc * 10 + d);
                assert(pre =~= sub.take(i + 1 - lo));
                lemma_seq_val_prefix_mono(sub, i + 1 - lo, sub.len() as int);
                assert(sub.take(sub.len() as int) =~= sub);
                assert(seq_val(sub) > 0xffff_ffff_ffff_ffff);
                lemma_pow10_pos(zeros_after as nat);
                lemma_mul_inequality(1, pow10(zeros_after as nat) as int, seq_val(sub) as int);
                assert(1 * seq_val(sub) == seq_val(sub));
                assert(seq_val(sub) * pow10(zeros_after as nat) == pow10(zeros_after as nat)
                    * seq_val(sub)) by (nonlinear_arith);
            }
            return None;
        }
        acc = next as u64;
        proof {
            let pre = digits@.subrange(lo as int, i + 1);
            assert(pre.drop_last() =~= digits@.subrange(lo as int, i as int));
            assert(seq_val(pre) == seq_val(pre.drop_last()) * 10 + d);
        }
        i = i + 1;
    }
    proof {
        assert(digits@.subrange(lo as int, hi as int) == sub);
    }
    if acc == 0 {
        proof {
            assert(seq_val(sub) * pow10(zeros_after as nat) == 0) by (nonlinear_arith)
                requires
                    seq_val(sub) == 0,
            ;
        }
        return Some(0);
    }
    let zz: usize = if zeros_after > 20 {
        20
    } else {
        zeros_after
    };
    proof {
        assert(pow10(0) == 1);
        assert(seq_val(sub) * 1 == seq_val(sub));
    }
    let mut z: usize = 0;
    while z < zz
        invariant
            0 <= z <= zz <= 20,
            zz <= zeros_after,
            acc >= 1,
            acc == seq_val(sub) * pow10(z as nat),
            seq_val(sub) >= 1,
        decreases zz - z,
    {
        let next: u128 = acc as u128 * 10;
        if next > 0xffff_ffff_ffff_ffff {
            proof {
                let v0 = seq_val(sub);
                assert(v0 * pow10(z as nat) * 10 == v0 * (pow10(z as nat) * 10))
                    by (nonlinear_arith);
                lemma_pow10_adds(z as nat, 1);
                assert(pow10(1) == 10) by {
                    reveal_with_fuel(pow10, 2);
                }
                assert(v0 * pow10(z as nat) * 10 > 0xffff_ffff_ffff_ffff);
                assert(v0 * pow10((z + 1) as nat) > 0xffff_ffff_ffff_ffff);
                lemma_pow10_mono((z + 1) as nat, zeros_after as nat);
                lemma_mul_inequality(
                    pow10((z + 1) as nat) as int,
                    pow10(zeros_after as nat) as int,
                    v0 as int,
                );
                assert(v0 * pow10((z + 1) as nat) == pow10((z + 1) as nat) * v0)
                    by (nonlinear_arith);
                assert(v0 * pow10(zeros_after as nat) == pow10(zeros_after as nat) * v0)
                    by (nonlinear_arith);
            }
            return None;
        }
        acc = next as u64;
        proof {
            let v0 = seq_val(sub);
            assert(v0 * pow10(z as nat) * 10 == v0 * (pow10(z as nat) * 10)) by (nonlinear_arith);
            lemma_pow10_adds(z as nat, 1);
            assert(pow10(1) == 10) by {
                reveal_with_fuel(pow10, 2);
            }
        }
        z = z + 1;
    }
    if zz < zeros_after {
        // twenty zeros already make any nonzero value overflow, so this
        // cannot be reached with the loop completed
        proof {
            lemma_nonzero_scaled_overflows(seq_val(sub), 20);
        }
        return None;
    }
    Some(acc)
}

/// Read nine fixed-point places: `lead_zeros` zero digits, then the digits
/// from `lo` on, padded with zeros, truncated after the ninth place.
#[verifier::loop_isolation(false)]
fn parse_nano_digits(digits: &Vec<u8>, lo: usize, lead_zeros: usize) -> (r: u32)
    requires
        all_digits(digits@),
        lo <= digits@.len(),
        digits@.len() <= 0x10_0000,
    ensures
        r == nano_of(zeros(lead_zeros as nat) + digits@.skip(lo as int)),
        r <= 999_999_999,
{
    let z: usize = if lead_zeros > 9 {
        9
    } else {
        lead_zeros
    };
    let ghost src = zeros(lead_zeros as nat) + digits@.skip(lo as int);
    let ghost padded = pad9(src);
    proof {
        assert(padded.len() == 9);
        assert(forall|p: int| 0 <= p < 9 && p < src.len() ==> padded[p] == src[p]);
        assert(forall|p: int| src.len() <= p < 9 ==> padded[p] == 0);
    }
    proof {
        assert(all_digits(padded));
        assert(pow10(8) == 100_000_000) by {
            reveal_with_fuel(pow10, 9);
        }
        assert(padded.take(0) =~= Seq::<u8>::empty());
        assert(seq_val(padded.take(0)) == 0);
        assert(0 * pow10(9) == 0) by (nonlinear_arith);
    }
    let mut nanos: u32 = 0;
    let mut multi: u32 = 100_000_000;
    let mut p: usize = 0;
    while p < 9
        invariant
            0 <= p <= 9,
            p < 9 ==> multi == pow10((8 - p) as nat),
            nanos == seq_val(padded.take(p as int)) * pow10((9 - p) as nat),
            nanos <= 999_999_999,
        decreases 9 - p,
    {
        let d: u8 = if p < z {
            0
        } else {
            let idx = lo + (p - z);
            if idx < digits.len() {
                digits[idx]
            } else {
                0
            }
        };
        proof {
            if p < z {
                assert(src[p as int] == 0);
                assert(padded[p as int] == d);
            } else if lead_zeros > 9 {
                // z == 9 and p < 9 <= lead_zeros: still inside the zeros
                assert(p < lead_zeros);
                assert(src[p as int] == 0);
                assert(padded[p as int] == d);
            } else {
                // z == lead_zeros <= p
                if lo + (p - z) < digits@.len() {
                    assert(src[p as int] == digits@.skip(lo as int)[p - z]);
                    assert(digits@.skip(lo as int)[p - z] == digits@[lo + (p - z)]);
                    assert(padded[p as int] == d);
                } else {
                    assert(p >= src.len());
                    assert(padded[p as int] == 0);
                }
            }
            assert(padded[p as int] == d);
            assert(d < 10);
            // value bound: the partial sum plus the new place stays below 10^9
            crate::arith::lemma_seq_val_bound(padded.take(p as int));
            lemma_pow10_adds(p as nat, (9 - p) as nat);
            assert((pow10(p as nat) - 1) * pow10((9 - p) as nat) == pow10(p as nat) * pow10(
                (9 - p) as nat,
            ) - pow10((9 - p) as nat)) by (nonlinear_arith);
            assert(seq_val(padded.take(p as int)) * pow10((9 - p) as nat) <= (pow10(p as nat) - 1)
                * pow10((9 - p) as nat)) by (nonlinear_arith)
                requires
                    seq_val(padded.take(p as int)) <= pow10(p as nat) - 1,
                    pow10((9 - p) as nat) >= 0,
            ;
            assert(pow10(9) == 1_000_000_000) by {
                reveal_with_fuel(pow10, 10);
            }
            lemma_pow10_adds((8 - p) as nat, 1);
            assert(pow10(1) == 10) by {
                reveal_with_fuel(pow10, 2);
            }
            assert(pow10((9 - p) as nat) == pow10((8 - p) as nat) * 10);
        }
        proof {
            // the new place keeps the value below one second
            let pre = padded.take(p + 1);
            assert(pre.drop_last() =~= padded.take(p as int));
            assert(seq_val(pre) == seq_val(padded.take(p as int)) * 10 + d);
            crate::arith::lemma_seq_val_bound(pre);
            lemma_pow10_adds((p + 1) as nat, (8 - p) as nat);
            assert(seq_val(pre) * pow10((8 - p) as nat) <= (pow10((p + 1) as nat) - 1) * pow10(
                (8 - p) as nat,
            )) by (nonlinear_arith)
                requires
                    seq_val(pre) <= pow10((p + 1) as nat) - 1,
                    pow10((8 - p) as nat) >= 0,
            ;
            assert((pow10((p + 1) as nat) - 1) * pow10((8 - p) as nat) == pow10((p + 1) as nat)
                * pow10((8 - p) as nat) - pow10((8 - p) as nat)) by (nonlinear_arith);
            assert(pow10(9) == 1_000_000_000) by {
                reveal_with_fuel(pow10, 10);
            }
            assert((seq_val(padded.take(p as int)) * 10 + d) * pow10((8 - p) as nat) == seq_val(
                padded.take(p as int),
            ) * (10 * pow10((8 - p) as nat)) + d * pow10((8 - p) as nat)) by (nonlinear_arith);
            lemma_pow10_adds((8 - p) as nat, 1);
            assert(pow10(1) == 10) by {
                reveal_with_fuel(pow10, 2);
            }
            assert(pow10((9 - p) as nat) == pow10((8 - p) as nat) * 10) by {
                lemma_pow10_adds((8 - p) as nat, 1);
            }
            assert(nanos + d * multi == seq_val(pre) * pow10((8 - p) as nat));
            assert(nanos + d * multi <= 999_999_999);
        }
        nanos = nanos + (d as u32) * multi;
        proof {
            let pre = padded.take(p + 1);
            assert(pre.drop_last() =~= padded.take(p as int));
            assert(seq_val(pre) == seq_val(padded.take(p as int)) * 10 + d);
            assert((seq_val(padded.take(p as int)) * 10 + d) * pow10((8 - p) as nat) == seq_val(
                padded.take(p as int),
            ) * (10 * pow10((8 - p) as nat)) + d * pow10((8 - p) as nat)) by (nonlinear_arith);
            crate::arith::lemma_seq_val_bound(pre);
            lemma_pow10_adds((p + 1) as nat, (8 - p) as nat);
            assert(seq_val(pre) * pow10((8 - p) as nat) <= (pow10((p + 1) as nat) - 1) * pow10(
                (8 - p) as nat,
            )) by (nonlinear_arith)
                requires
                    seq_val(pre) <= pow10((p + 1) as nat) - 1,
                    pow10((8 - p) as nat) >= 0,
            ;
            assert((pow10((p + 1) as nat) - 1) * pow10((8 - p) as nat) == pow10((p + 1) as nat)
                * pow10((8 - p) as nat) - pow10((8 - p) as nat)) by (nonlinear_arith);
            assert(pow10(9) == 1_000_000_000) by {
                reveal_with_fuel(pow10, 10);
            }
        }
        multi = multi / 10;
        proof {
            if p + 1 < 9 {
                assert(pow10((8 - p) as nat) == pow10((7 - p) as nat) * 10) by {
                    lemma_pow10_adds((7 - p) as nat, 1);
                    assert(pow10(1) == 10) by {
                        reveal_with_fuel(pow10, 2);
                    }
                }
                lemma_pow10_pos((7 - p) as nat);
            }
        }
        p = p + 1;
    }
    proof {
        assert(padded.take(9) =~= padded);
        assert(pow10(0) == 1);
        assert(seq_val(padded) * 1 == seq_val(padded)) by (nonlinear_arith);
    }
    nanos
}

/// Scale an unscaled `(seconds, nanos)` magnitude by the integer scale `s`,
/// carrying whole seconds out of the scaled nanoseconds and saturating the
/// seconds at `u64::MAX`.
fn scale_magnitude(sec0: u64, nan0: u32, s: u128, Ghost(t): Ghost<nat>) -> (r: (u64, u32))
    requires
        s < SCALE_BOUND,
        sec0 == t / 1_000_000_000,
        nan0 == t % 1_000_000_000,
    ensures
        r.0 == eval_secs(t, s as nat),
        r.1 == eval_nanos(t, s as nat),
        r.1 <= 999_999_999,
{
    let q: u128 = s / 1_000_000_000;
    let rm: u128 = s % 1_000_000_000;
    proof {
        assert(q <= s) by (nonlinear_arith)
            requires
                s == q * 1_000_000_000 + rm,
                0 <= rm,
                0 <= q,
        ;
        assert(nan0 as int * rm < 0x40000000 * 0x40000000) by (nonlinear_arith)
            requires
                0 <= nan0 < 0x40000000,
                0 <= rm < 0x40000000,
        ;
        assert(q * 1_000_000_000 <= s) by (nonlinear_arith)
            requires
                s == q * 1_000_000_000 + rm,
                0 <= rm,
        ;
        assert(q < 0x100000000000000000000000) by (nonlinear_arith)
            requires
                q * 1_000_000_000 <= s,
                s < SCALE_BOUND,
                0 <= q,
        ;
        assert(nan0 as int * q < 0x40000000 * 0x100000000000000000000000) by (nonlinear_arith)
            requires
                0 <= nan0 < 0x40000000,
                0 <= q < 0x100000000000000000000000,
        ;
    }
    let ns_low: u128 = nan0 as u128 * rm;
    let carry: u128 = nan0 as u128 * q + ns_low / 1_000_000_000;
    let nan1: u32 = (ns_low % 1_000_000_000) as u32;
    proof {
        assert(nan0 < 1_000_000_000);
        assert(nan0 as int * s == (nan0 as int * q) * 1_000_000_000 + nan0 as int * rm)
            by (nonlinear_arith)
            requires
                s == q * 1_000_000_000 + rm,
        ;
        assert(0 <= nan0 as int * rm) by (nonlinear_arith)
            requires
                0 <= nan0 as int,
                0 <= rm,
        ;
        lemma_fundamental_div_mod_converse(
            nan0 as int * s as int,
            1_000_000_000,
            nan0 as int * q + ns_low as int / 1_000_000_000,
            ns_low as int % 1_000_000_000,
        );
        assert(carry == nan0 as int * s / 1_000_000_000);
        assert(nan1 == (nan0 as int * s) % 1_000_000_000);
        assert((t % 1_000_000_000) * s == nan0 as int * s);
    }
    proof {
        assert(t / 1_000_000_000 == sec0);
        assert(!(t / 1_000_000_000 > 0xffff_ffff_ffff_ffff));
    }
    if sec0 == 0 {
        proof {
            assert(0 * s as int == 0) by (nonlinear_arith);
            assert(sec0 as int * s + carry == carry);
        }
        if carry > 0xffff_ffff_ffff_ffff {
            (0xffff_ffff_ffff_ffff, nan1)
        } else {
            (carry as u64, nan1)
        }
    } else if s > 0xffff_ffff_ffff_ffff {
        proof {
            lemma_mul_inequality(1, sec0 as int, s as int);
            assert(sec0 as int * s == s as int * sec0) by (nonlinear_arith);
            assert(1 * s as int == s as int) by (nonlinear_arith);
            assert(sec0 as int * s + carry > 0xffff_ffff_ffff_ffff);
        }
        (0xffff_ffff_ffff_ffff, nan1)
    } else {
        proof {
            assert(sec0 as int * s <= 0xffff_ffff_ffff_ffff * 0xffff_ffff_ffff_ffffu128)
                by (nonlinear_arith)
                requires
                    0 <= sec0 <= 0xffff_ffff_ffff_ffffu128,
                    0 <= s <= 0xffff_ffff_ffff_ffffu128,
            ;
        }
        let prod: u128 = sec0 as u128 * s;
        proof {
            assert(carry == nan0 as int * s / 1_000_000_000);
            assert(nan0 as int * s <= 1_000_000_000 * s) by (nonlinear_arith)
                requires
                    nan0 < 1_000_000_000,
                    0 <= s,
            ;
            lemma_div_is_ordered(nan0 as int * s, 1_000_000_000 * s as int, 1_000_000_000);
            lemma_div_multiples_vanish(s as int, 1_000_000_000);
            assert((1_000_000_000 * s as int) / 1_000_000_000 == s);
            assert(carry <= s);
        }
        let total: u128 = prod + carry;
        proof {
            assert(total == sec0 as int * s + carry);
        }
        if total > 0xffff_ffff_ffff_ffff {
            (0xffff_ffff_ffff_ffff, nan1)
        } else {
            (total as u64, nan1)
        }
    }
}

/// Evaluate a digit buffer holding `w` whole digits under the effective
/// exponent `e` and integer scale `s`: repartition the digit windows, read
/// them, and scale.
fn eval_digits(digits: &Vec<u8>, w: usize, e: i64, s: u128) -> (r: (u64, u32))
    requires
        all_digits(digits@),
        w <= digits@.len(),
        digits@.len() <= 0x10_0000,
        -200_000 <= e <= 200_000,
        s < SCALE_BOUND,
    ensures
        ({
            let t = total_nanos(seq_val(digits@), (digits@.len() - w) as nat, e as int);
            r.0 == eval_secs(t, s as nat) && r.1 == eval_nanos(t, s as nat) && r.1 <= 999_999_999
        }),
{
    let len = digits.len();
    let ghost f = (digits@.len() - w) as nat;
    let ghost t = total_nanos(seq_val(digits@), f, e as int);
    let k: i64 = w as i64 + e;
    if k < 0 {
        let z = (0 - k) as usize;
        let nan0 = parse_nano_digits(digits, 0, z);
        proof {
            lemma_total_split_low(digits@, f, e as int);
            assert(digits@.skip(0) =~= digits@);
            assert(t / 1_000_000_000 == 0);
            assert(t % 1_000_000_000 == t);
        }
        scale_magnitude(0, nan0, s, Ghost(t))
    } else if k <= len as i64 {
        let ku = k as usize;
        proof {
            lemma_total_split_mid(digits@, f, e as int);
            assert(digits@.subrange(0, ku as int) =~= digits@.take(ku as int));
            assert(pow10(0) == 1);
        }
        match parse_sec_digits(digits, 0, ku, 0) {
            Some(sec0) => {
                let nan0 = parse_nano_digits(digits, ku, 0);
                proof {
                    let a = seq_val(digits@.take(ku as int));
                    let n = nano_of(digits@.skip(ku as int));
                    assert(zeros(0) + digits@.skip(ku as int) =~= digits@.skip(ku as int));
                    assert(a * 1 == a);
                    assert(t == a * 1_000_000_000 + n);
                    lemma_fundamental_div_mod_converse(t as int, 1_000_000_000, a as int, n as int);
                }
                scale_magnitude(sec0, nan0, s, Ghost(t))
            },
            None => {
                proof {
                    let a = seq_val(digits@.take(ku as int));
                    let n = nano_of(digits@.skip(ku as int));
                    assert(a * 1 == a);
                    assert(t == a * 1_000_000_000 + n);
                    lemma_fundamental_div_mod_converse(t as int, 1_000_000_000, a as int, n as int);
                    assert(t / 1_000_000_000 > 0xffff_ffff_ffff_ffff);
                }
                (0xffff_ffff_ffff_ffff, 999_999_999)
            },
        }
    } else {
        // the exponent pushes the split past the digits: everything is whole
        // seconds, extended with zeros
        let z = (k - len as i64) as usize;
        proof {
            lemma_total_split_high(digits@, f, e as int);
            assert(digits@.subrange(0, len as int) =~= digits@);
            assert((e - f) as nat == z as nat);
        }
        match parse_sec_digits(digits, 0, len, z) {
            Some(sec0) => {
                proof {
                    let v = seq_val(digits@) * pow10(z as nat);
                    assert(t == v * 1_000_000_000);
                    lemma_fundamental_div_mod_converse(t as int, 1_000_000_000, v as int, 0);
                }
                scale_magnitude(sec0, 0, s, Ghost(t))
            },
            None => {
                proof {
                    let v = seq_val(digits@) * pow10(z as nat);
                    assert(t == v * 1_000_000_000);
                    lemma_fundamental_div_mod_converse(t as int, 1_000_000_000, v as int, 0);
                    assert(t / 1_000_000_000 > 0xffff_ffff_ffff_ffff);
                }
                (0xffff_ffff_ffff_ffff, 999_999_999)
            },
        }
    }
}

impl DurationRepr {
    /// Evaluate the representation into a duration.
    ///
    /// The unit, its extra multiplier, the configured default multiplier and
    /// an optional outer multiplier fold into an effective exponent and an
    /// integer scale; the digit buffer is repartitioned under that exponent
    /// and read exactly, with saturation at the maximum duration. A negative
    /// zero collapses to zero; any other negative result is an error unless
    /// `allow_negative` is set.
    pub fn parse(
        &self,
        allow_negative: bool,
        default_multiplier: Multiplier,
        outer_multiplier: Option<Multiplier>,
    ) -> (r: Result<Duration, ParseError>)
        requires
            self.wf(),
        ensures
            r == spec_eval(
                *self,
                allow_negative,
                default_multiplier,
                match outer_multiplier {
                    Some(m) => m,
                    None => Multiplier(1, 0),
                },
            ),
            r matches Ok(d) ==> d.wf(),
            r matches Err(e) ==> e == ParseError::NegativeInfinity || e
                == ParseError::NegativeNumber,
    {
        if self.is_infinite {
            if self.is_negative {
                return Err(ParseError::NegativeInfinity);
            }
            return Ok(Duration::max());
        }
        let m3 = match outer_multiplier {
            Some(m) => m,
            None => Multiplier(1, 0),
        };
        let um = self.unit.multiplier();
        proof {
            let u0 = um.0 as int;
            let a0 = self.multiplier.0 as int;
            let b0 = default_multiplier.0 as int;
            let c0 = m3.0 as int;
            assert(u0 <= 31_557_600);
            assert(u0 * a0 * b0 * c0 < SCALE_BOUND) by (nonlinear_arith)
                requires
                    0 <= u0 <= 31_557_600,
                    0 <= a0 < 0x1_0000_0000,
                    0 <= b0 < 0x1_0000_0000,
                    0 <= c0 < 0x1_0000_0000,
            ;
        }
        proof {
            let u0 = um.0 as int;
            let a0 = self.multiplier.0 as int;
            let b0 = default_multiplier.0 as int;
            let c0 = m3.0 as int;
            assert(u0 * a0 < 0x200_0000_0000_0000_0000 && u0 * a0 * b0
                < 0x200_0000_0000_0000_0000_0000_0000 && u0 * a0 * b0 * c0 < SCALE_BOUND)
                by (nonlinear_arith)
                requires
                    0 <= u0 <= 31_557_600,
                    0 <= a0 < 0x1_0000_0000,
                    0 <= b0 < 0x1_0000_0000,
                    0 <= c0 < 0x1_0000_0000,
            ;
        }
        let s: u128 = um.0 as u128 * self.multiplier.0 as u128 * default_multiplier.0 as u128
            * m3.0 as u128;
        let e: i64 = self.exponent as i64 + um.1 as i64 + self.multiplier.1 as i64
            + default_multiplier.1 as i64 + m3.1 as i64;
        proof {
            assert(s as nat == spec_scale(*self, default_multiplier, m3));
            assert(e as int == spec_exp(*self, default_multiplier, m3));
        }
        let (secs, nanos) = if self.whole.is_none() && self.fract.is_none() {
            // an empty number means an implicit `1` of the unit
            let one: Vec<u8> = vec![1u8];
            proof {
                assert(one@ =~= seq![1u8]);
                assert(seq_val(seq![1u8]) == 1) by {
                    assert(seq![1u8].drop_last() =~= Seq::<u8>::empty());
                    assert(seq![1u8].last() == 1);
                    assert(seq_val(Seq::<u8>::empty()) == 0);
                }
                assert(all_digits(one@));
                assert(self.fract_len() == 0);
            }
            eval_digits(&one, 1, e, s)
        } else {
            let w = match self.whole {
                Some(wh) => wh.0,
                None => 0,
            };
            eval_digits(&self.digits, w, e, s)
        };
        if self.is_negative && secs == 0 && nanos == 0 {
            Ok(Duration::zero())
        } else if self.is_negative && !allow_negative {
            Err(ParseError::NegativeNumber)
        } else {
            Ok(Duration { secs, nanos, is_negative: self.is_negative })
        }
    }
}

/// Exponent equivalence: two representations that denote the same rational
/// number — the digits of one are the digits of the other scaled by a power
/// of ten, with the decimal exponent shifted to compensate — evaluate to
/// the same result, whatever the sign, unit and multipliers.
pub proof fn lemma_exponent_equivalence(
    a: DurationRepr,
    b: DurationRepr,
    allow_negative: bool,
    m2: Multiplier,
    m3: Multiplier,
    k: nat,
)
    requires
        a.wf(),
        b.wf(),
        !a.is_infinite,
        !b.is_infinite,
        a.has_number(),
        b.has_number(),
        a.is_negative == b.is_negative,
        a.unit == b.unit,
        a.multiplier == b.multiplier,
        seq_val(a.digits@) * pow10(k) == seq_val(b.digits@),
        spec_exp(a, m2, m3) - a.fract_len() == spec_exp(b, m2, m3) - b.fract_len() + k,
    ensures
        spec_eval(a, allow_negative, m2, m3) == spec_eval(b, allow_negative, m2, m3),
{
    let dva = seq_val(a.digits@);
    let dvb = seq_val(b.digits@);
    let pa = spec_exp(a, m2, m3) + 9 - a.fract_len();
    let pb = spec_exp(b, m2, m3) + 9 - b.fract_len();
    assert(pa == pb + k);
    let ta = total_nanos(dva, a.fract_len(), spec_exp(a, m2, m3));
    let tb = total_nanos(dvb, b.fract_len(), spec_exp(b, m2, m3));
    assert(ta == tb) by {
        if pa >= 0 {
            if pb >= 0 {
                lemma_pow10_adds(pb as nat, k);
                assert(pow10((pb + k) as nat) == pow10(pb as nat) * pow10(k));
                assert(dva * (pow10(pb as nat) * pow10(k)) == (dva * pow10(k)) * pow10(pb as nat))
                    by (nonlinear_arith);
                assert(ta == dva * pow10(pa as nat));
                assert(tb == dvb * pow10(pb as nat));
            } else {
                // pb < 0 <= pa: the scale k bridges the negative exponent
                let q = (-pb) as nat;
                assert(k == pa + q);
                lemma_pow10_adds(pa as nat, q);
                assert(pow10(k) == pow10(pa as nat) * pow10(q));
                assert(dva * (pow10(pa as nat) * pow10(q)) == (dva * pow10(pa as nat)) * pow10(q))
                    by (nonlinear_arith);
                assert(dvb == (dva * pow10(pa as nat)) * pow10(q));
                lemma_pow10_pos(q);
                vstd::arithmetic::div_mod::lemma_div_multiples_vanish(
                    (dva * pow10(pa as nat)) as int,
                    pow10(q) as int,
                );
                assert((pow10(q) * (dva * pow10(pa as nat)) as int) / pow10(q) as int == (dva
                    * pow10(pa as nat)) as int);
                assert(pow10(q) * (dva * pow10(pa as nat)) as int == ((dva * pow10(pa as nat))
                    * pow10(q)) as int) by (nonlinear_arith);
                assert(tb == dvb / pow10(q));
                assert(ta == dva * pow10(pa as nat));
            }
        } else {
            // pa < 0 implies pb < 0 as well
            assert(pb <= pa);
            let qa = (-pa) as nat;
            let qb = (-pb) as nat;
            assert(qb == qa + k);
            lemma_pow10_adds(qa, k);
            assert(pow10(qb) == pow10(qa) * pow10(k));
            lemma_pow10_pos(qa);
            lemma_pow10_pos(k);
            vstd::arithmetic::div_mod::lemma_div_multiples_vanish_quotient(
                pow10(k) as int,
                dva as int,
                pow10(qa) as int,
            );
            assert(dva as int / pow10(qa) as int == (pow10(k) * dva) as int / (pow10(k) * pow10(
                qa,
            )) as int);
            assert(pow10(k) * dva == dva * pow10(k)) by (nonlinear_arith);
            assert(pow10(k) * pow10(qa) == pow10(qa) * pow10(k)) by (nonlinear_arith);
            assert(ta == dva / pow10(qa));
            assert(tb == dvb / pow10(qb));
        }
    }
}

/// Integer round trip: a representation whose digits denote `s` with no
/// fraction, no exponent, the seconds unit and neutral multipliers,
/// evaluates to exactly `s` whole seconds carrying the scanned sign.
pub proof fn lemma_integer_round_trip(
    repr: DurationRepr,
    allow_negative: bool,
    dw: Seq<u8>,
    s: u64,
)
    requires
        repr.wf(),
        !repr.is_infinite,
        repr.has_number(),
        all_digits(dw),
        seq_val(dw) == s,
        repr.digits@ == dw,
        repr.whole_len() == dw.len(),
        repr.exponent == 0,
        repr.unit == TimeUnit::Second,
        repr.multiplier == Multiplier(1, 0),
    ensures
        spec_eval(repr, allow_negative, Multiplier(1, 0), Multiplier(1, 0)) == if !repr.is_negative {
            Ok::<Duration, ParseError>(Duration { secs: s, nanos: 0, is_negative: false })
        } else if s == 0 {
            Ok::<Duration, ParseError>(Duration { secs: 0, nanos: 0, is_negative: false })
        } else if allow_negative {
            Ok::<Duration, ParseError>(Duration { secs: s, nanos: 0, is_negative: true })
        } else {
            Err::<Duration, ParseError>(ParseError::NegativeNumber)
        },
{
    crate::arith::lemma_pow10_9();
    let dv = seq_val(repr.digits@);
    assert(repr.fract_len() == 0);
    let e = spec_exp(repr, Multiplier(1, 0), Multiplier(1, 0));
    assert(e == 0);
    let t = total_nanos(dv, repr.fract_len(), e);
    assert(t == dv * pow10(9));
    assert(t == s * 1_000_000_000);
    let sc = spec_scale(repr, Multiplier(1, 0), Multiplier(1, 0));
    assert(sc == 1);
    lemma_fundamental_div_mod_converse(t as int, 1_000_000_000, s as int, 0);
    assert(t / 1_000_000_000 == s);
    assert(t % 1_000_000_000 == 0);
    assert(eval_secs(t, sc) == s) by {
        assert(0 * sc == 0) by (nonlinear_arith)
            requires
                sc == 1,
        ;
        assert(s * sc == s) by (nonlinear_arith)
            requires
                sc == 1,
        ;
    }
    assert(eval_nanos(t, sc) == 0) by {
        assert(0 * sc == 0) by (nonlinear_arith)
            requires
                sc == 1,
        ;
    }
}

/// Decimal round trip: a representation whose whole part denotes `s` and
/// whose fraction is the nine-digit decimal form of `n`, with no exponent,
/// the seconds unit and neutral multipliers, evaluates to exactly
/// `(s, n)` carrying the scanned sign — no digit is lost. A negative zero
/// collapses to zero; a negative nonzero value needs permission or fails.
pub proof fn lemma_decimal_round_trip(
    repr: DurationRepr,
    allow_negative: bool,
    dw: Seq<u8>,
    s: u64,
    n: u32,
)
    requires
        repr.wf(),
        !repr.is_infinite,
        repr.has_number(),
        n <= 999_999_999,
        all_digits(dw),
        seq_val(dw) == s,
        repr.digits@ == dw + crate::arith::frac9(n as nat),
        repr.whole_len() == dw.len(),
        repr.exponent == 0,
        repr.unit == TimeUnit::Second,
        repr.multiplier == Multiplier(1, 0),
    ensures
        spec_eval(repr, allow_negative, Multiplier(1, 0), Multiplier(1, 0)) == if !repr.is_negative {
            Ok::<Duration, ParseError>(Duration { secs: s, nanos: n, is_negative: false })
        } else if s == 0 && n == 0 {
            Ok::<Duration, ParseError>(Duration { secs: 0, nanos: 0, is_negative: false })
        } else if allow_negative {
            Ok::<Duration, ParseError>(Duration { secs: s, nanos: n, is_negative: true })
        } else {
            Err::<Duration, ParseError>(ParseError::NegativeNumber)
        },
{
    let ds = dw;
    let fr = crate::arith::frac9(n as nat);
    crate::arith::lemma_frac9(n as nat);
    crate::arith::lemma_pow10_9();
    crate::arith::lemma_seq_val_concat(ds, fr);
    let dv = seq_val(repr.digits@);
    assert(dv == s * 1_000_000_000 + n);
    assert(repr.fract_len() == 9);
    let e = spec_exp(repr, Multiplier(1, 0), Multiplier(1, 0));
    assert(e == 0);
    let t = total_nanos(dv, repr.fract_len(), e);
    assert(t == dv * pow10(0));
    assert(dv * 1 == dv);
    let sc = spec_scale(repr, Multiplier(1, 0), Multiplier(1, 0));
    assert(sc == 1);
    lemma_fundamental_div_mod_converse(t as int, 1_000_000_000, s as int, n as int);
    assert(t / 1_000_000_000 == s);
    assert(t % 1_000_000_000 == n);
    assert(eval_secs(t, sc) == s) by {
        assert(n * sc == n) by (nonlinear_arith)
            requires
                sc == 1,
        ;
        assert((t % 1_000_000_000) * sc / 1_000_000_000 == 0);
        assert(s * sc == s) by (nonlinear_arith)
            requires
                sc == 1,
        ;
    }
    assert(eval_nanos(t, sc) == n) by {
        assert(n * sc == n) by (nonlinear_arith)
            requires
                sc == 1,
        ;
    }
}

} // verus!
