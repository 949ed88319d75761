//! The duration value a parse produces.
//!
//! A duration is a pair `(secs, nanos)` with `nanos < 10^9`, plus a sign
//! channel for configurations that allow negative durations. Arithmetic
//! saturates at plus and minus the largest representable magnitude instead of
//! overflowing. The zero duration is canonically non-negative.

use vstd::prelude::*;

verus! {

/// The magnitude, in nanoseconds, of the largest representable duration:
/// `u64::MAX` seconds plus `999_999_999` nanoseconds.
pub open spec fn duration_max_val() -> int {
    0xffff_ffff_ffff_ffff as int * 1_000_000_000 + 999_999_999
}

/// Clamp a signed nanosecond count to the representable range.
pub open spec fn clamp_duration_val(v: int) -> int {
    if v > duration_max_val() {
        duration_max_val()
    } else if v < -duration_max_val() {
        -duration_max_val()
    } else {
        v
    }
}

/// A possibly negative span of time with nanosecond resolution.
#[derive(Clone, Copy, Debug, PartialEq, Eq, Structural)]
pub struct Duration {
    pub secs: u64,
    pub nanos: u32,
    pub is_negative: bool,
}

impl Duration {
    /// Well-formed: the nanosecond field is below one second, and zero is
    /// never marked negative.
    pub open spec fn wf(self) -> bool {
        self.nanos <= 999_999_999 && ((self.secs == 0 && self.nanos == 0) ==> !self.is_negative)
    }

    /// The unsigned magnitude in nanoseconds.
    pub open spec fn magnitude(self) -> int {
        self.secs * 1_000_000_000 + self.nanos
    }

    /// The signed value in nanoseconds.
    pub open spec fn val(self) -> int {
        if self.is_negative {
            -self.magnitude()
        } else {
            self.magnitude()
        }
    }

    /// The zero duration.
    pub fn zero() -> (r: Duration)
        ensures
            r.wf(),
            r.val() == 0,
            r == (Duration { secs: 0, nanos: 0, is_negative: false }),
    {
        Duration { secs: 0, nanos: 0, is_negative: false }
    }

    /// The largest representable duration.
    pub fn max() -> (r: Duration)
        ensures
            r.wf(),
            r.val() == duration_max_val(),
            r == (Duration { secs: 0xffff_ffff_ffff_ffff, nanos: 999_999_999, is_negative: false }),
    {
        Duration { secs: 0xffff_ffff_ffff_ffff, nanos: 999_999_999, is_negative: false }
    }

    /// Build a duration from a sign, whole seconds and nanoseconds,
    /// normalizing a nanosecond count of a second or more by carrying into
    /// the seconds (saturating), and normalizing the sign of zero.
    pub fn new(is_negative: bool, secs: u64, nanos: u32) -> (r: Duration)
        ensures
            r.wf(),
            r.val() == clamp_duration_val(
                if is_negative {
                    -(secs * 1_000_000_000 + nanos)
                } else {
                    secs * 1_000_000_000 + nanos
                },
            ),
    {
        let carry: u32 = nanos / 1_000_000_000;
        let rest: u32 = nanos % 1_000_000_000;
        if secs <= 0xffff_ffff_ffff_ffff - (carry as u64) {
            let s = secs + carry as u64;
            let z = s == 0 && rest == 0;
            let r = Duration { secs: s, nanos: rest, is_negative: is_negative && !z };
            proof {
                assert(s as int * 1_000_000_000 + rest == secs as int * 1_000_000_000 + nanos) by {
                    assert(nanos == carry * 1_000_000_000 + rest);
                    assert((secs as int + carry) * 1_000_000_000 == secs as int * 1_000_000_000
                        + carry as int * 1_000_000_000) by (nonlinear_arith);
                }
                assert(r.magnitude() == secs as int * 1_000_000_000 + nanos);
                assert(r.magnitude() <= duration_max_val());
                let x = secs as int * 1_000_000_000 + nanos;
                assert(0 <= x <= duration_max_val());
                assert(clamp_duration_val(x) == x);
                assert(clamp_duration_val(-x) == -x);
            }
            r
        } else {
            // carrying the extra whole seconds would overflow: saturate
            let r = Duration {
                secs: 0xffff_ffff_ffff_ffff,
                nanos: 999_999_999,
                is_negative,
            };
            proof {
                assert(nanos == carry * 1_000_000_000 + rest);
                assert(secs as int + carry > 0xffff_ffff_ffff_ffff);
                assert(secs * 1_000_000_000 + nanos > duration_max_val()) by (nonlinear_arith)
                    requires
                        secs as int + carry > 0xffff_ffff_ffff_ffff,
                        nanos == carry * 1_000_000_000 + rest,
                        0 <= rest,
                        0 <= secs as int,
                ;
            }
            r
        }
    }

    /// Whether this duration is strictly shorter than `other` (a negative
    /// duration is shorter than any non-negative one).
    pub fn lt(&self, other: &Duration) -> (r: bool)
        requires
            self.wf(),
            other.wf(),
        ensures
            r == (self.val() < other.val()),
    {
        if self.is_negative != other.is_negative {
            self.is_negative
        } else if self.is_negative {
            // both negative: the larger magnitude is the shorter duration
            other.secs < self.secs || (other.secs == self.secs && other.nanos < self.nanos)
        } else {
            self.secs < other.secs || (self.secs == other.secs && self.nanos < other.nanos)
        }
    }

    /// Add two durations, clamping the result at the largest representable
    /// magnitude of either sign.
    pub fn saturating_add(self, rhs: Duration) -> (r: Duration)
        requires
            self.wf(),
            rhs.wf(),
        ensures
            r.wf(),
            r.val() == clamp_duration_val(self.val() + rhs.val()),
    {
        if self.is_negative == rhs.is_negative {
            let neg = self.is_negative;
            let mut nanos = self.nanos + rhs.nanos;
            let mut carry: u64 = 0;
            if nanos >= 1_000_000_000 {
                nanos = nanos - 1_000_000_000;
                carry = 1;
            }
            if self.secs <= 0xffff_ffff_ffff_ffff - rhs.secs && self.secs + rhs.secs
                <= 0xffff_ffff_ffff_ffff - carry {
                let secs = self.secs + rhs.secs + carry;
                let z = secs == 0 && nanos == 0;
                Duration { secs, nanos, is_negative: neg && !z }
            } else {
                // the sum exceeds the largest magnitude: saturate, keeping the sign
                Duration { secs: 0xffff_ffff_ffff_ffff, nanos: 999_999_999, is_negative: neg }
            }
        } else {
            // opposite signs: subtract the smaller magnitude from the larger;
            // the result takes the sign of the larger and cannot saturate
            let self_ge = self.secs > rhs.secs || (self.secs == rhs.secs && self.nanos
                >= rhs.nanos);
            let (big, small) = if self_ge {
                (self, rhs)
            } else {
                (rhs, self)
            };
            let mut secs = big.secs - small.secs;
            let nanos: u32;
            if big.nanos >= small.nanos {
                nanos = big.nanos - small.nanos;
            } else {
                nanos = big.nanos + 1_000_000_000 - small.nanos;
                secs = secs - 1;
            }
            let z = secs == 0 && nanos == 0;
            Duration { secs, nanos, is_negative: big.is_negative && !z }
        }
    }
}

/// Two well-formed durations with the same signed value are equal.
pub proof fn lemma_val_injective(a: Duration, b: Duration)
    requires
        a.wf(),
        b.wf(),
        a.val() == b.val(),
    ensures
        a == b,
{
    vstd::arithmetic::div_mod::lemma_fundamental_div_mod_converse(
        a.magnitude(),
        1_000_000_000,
        a.secs as int,
        a.nanos as int,
    );
    vstd::arithmetic::div_mod::lemma_fundamental_div_mod_converse(
        b.magnitude(),
        1_000_000_000,
        b.secs as int,
        b.nanos as int,
    );
    if a.magnitude() == 0 || b.magnitude() == 0 {
        assert(a.val() == 0 ==> a.magnitude() == 0);
    }
}

/// The left-to-right saturating sum of the values of a sequence of durations.
pub open spec fn sat_sum_vals(s: Seq<Duration>) -> int
    decreases s.len(),
{
    if s.len() == 0 {
        0
    } else {
        clamp_duration_val(sat_sum_vals(s.drop_last()) + s.last().val())
    }
}

/// Sum a sequence of durations left to right with saturating addition.
pub fn saturating_sum(durations: &Vec<Duration>) -> (r: Duration)
    requires
        forall|i: int| 0 <= i < durations@.len() ==> durations@[i].wf(),
    ensures
        r.wf(),
        r.val() == sat_sum_vals(durations@),
{
    let mut acc = Duration::zero();
    let mut i: usize = 0;
    while i < durations.len()
        invariant
            0 <= i <= durations@.len(),
            forall|j: int| 0 <= j < durations@.len() ==> durations@[j].wf(),
            acc.wf(),
            acc.val() == sat_sum_vals(durations@.take(i as int)),
        decreases durations@.len() - i,
    {
        let d = durations[i];
        acc = acc.saturating_add(d);
        proof {
            assert(durations@.take(i + 1).drop_last() =~= durations@.take(i as int));
            assert(durations@.take(i + 1).last() == durations@[i as int]);
        }
        i = i + 1;
    }
    proof {
        assert(durations@.take(durations@.len() as int) =~= durations@);
    }
    acc
}

} // verus!
