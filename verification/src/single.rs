//! Samples, logits and probabilities as IEEE-754 single-precision bit patterns.
//!
//! The engines never need floating-point *arithmetic* to decide anything: they
//! compare numbers, and they move them around. A [`Single`] is the 32-bit pattern
//! of such a number (what `f32::to_bits` yields), with the number it stands for
//! given by [`Single::value`] and the comparisons of the IEEE standard.

use vstd::arithmetic::power2::{lemma_pow2_adds, lemma_pow2_pos, lemma_pow2_unfold, pow2};
use vstd::prelude::*;

verus! {

/// The bit pattern of positive infinity; a magnitude above it is a NaN.
pub const INFINITY_BITS: u32 = 0x7f80_0000;

/// The bit pattern of `1.0`.
pub const ONE_BITS: u32 = 0x3f80_0000;

/// The sign bit.
pub const SIGN_BIT: u32 = 0x8000_0000;

/// The size, in units of `2^-149`, of the number whose pattern without the sign
/// bit is `magnitude`.
///
/// A pattern below `2^23` is subnormal and counts units directly. Any other one
/// holds an exponent `magnitude / 2^23` and a fraction `magnitude % 2^23`. The
/// pattern of infinity is given the value that the same formula yields, which is
/// above that of every finite number.
pub open spec fn magnitude_value(magnitude: nat) -> nat {
    if magnitude < 0x80_0000 {
        magnitude
    } else {
        (0x80_0000 + magnitude % 0x80_0000) * pow2((magnitude / 0x80_0000 - 1) as nat)
    }
}

/// `1.0` in units of `2^-149`.
pub open spec fn unit() -> nat {
    pow2(149)
}

/// A single-precision number, held as its bit pattern.
#[derive(Debug, Clone, Copy, PartialEq, Eq, Structural)]
pub struct Single {
    /// The pattern: sign bit, eight exponent bits, 23 fraction bits.
    pub bits: u32,
}

impl View for Single {
    type V = u32;

    open spec fn view(&self) -> u32 {
        self.bits
    }
}

impl Single {
    /// The pattern without its sign bit.
    pub open spec fn magnitude(self) -> nat {
        if self.bits >= SIGN_BIT {
            (self.bits - SIGN_BIT) as nat
        } else {
            self.bits as nat
        }
    }

    /// Not a number: unordered with everything, itself included.
    pub open spec fn nan(self) -> bool {
        self.magnitude() > INFINITY_BITS
    }

    /// Neither infinite nor a NaN.
    pub open spec fn finite(self) -> bool {
        self.magnitude() < INFINITY_BITS
    }

    /// The number that the pattern stands for, in units of `2^-149`. Means
    /// nothing for a NaN.
    pub open spec fn value(self) -> int {
        if self.bits >= SIGN_BIT {
            -(magnitude_value(self.magnitude()) as int)
        } else {
            magnitude_value(self.magnitude()) as int
        }
    }

    /// The number is in `[-1.0, 1.0]`.
    pub open spec fn in_unit_range(self) -> bool {
        self.finite() && -unit() <= self.value() <= unit()
    }

    /// `self > other` in the IEEE order, false when either is a NaN.
    pub open spec fn gt(self, other: Single) -> bool {
        !self.nan() && !other.nan() && self.value() > other.value()
    }

    /// `self >= other` in the IEEE order, false when either is a NaN.
    pub open spec fn ge(self, other: Single) -> bool {
        !self.nan() && !other.nan() && self.value() >= other.value()
    }

    /// The single with the bit pattern `bits`.
    pub fn from_bits(bits: u32) -> (r: Single)
        ensures
            r.bits == bits,
    {
        Single { bits }
    }

    /// The bit pattern.
    pub fn to_bits(self) -> (r: u32)
        ensures
            r == self.bits,
    {
        self.bits
    }

    /// Whether the number is a NaN.
    pub fn is_nan(self) -> (r: bool)
        ensures
            r == self.nan(),
    {
        (if self.bits >= SIGN_BIT { self.bits - SIGN_BIT } else { self.bits }) > INFINITY_BITS
    }

    /// Whether the number is neither infinite nor a NaN.
    pub fn is_finite(self) -> (r: bool)
        ensures
            r == self.finite(),
    {
        (if self.bits >= SIGN_BIT { self.bits - SIGN_BIT } else { self.bits }) < INFINITY_BITS
    }

    /// The sign-magnitude pattern as a signed integer: it orders the non-NaN
    /// numbers as their values do, and gives both zeros the same place.
    fn rank(self) -> (r: i64)
        ensures
            r == self.spec_rank(),
    {
        if self.bits >= SIGN_BIT {
            -((self.bits - SIGN_BIT) as i64)
        } else {
            self.bits as i64
        }
    }

    /// See [`Single::rank`].
    pub closed spec fn spec_rank(self) -> int {
        if self.bits >= SIGN_BIT {
            -(self.magnitude() as int)
        } else {
            self.magnitude() as int
        }
    }

    /// `self > other`; false when either is a NaN.
    pub fn greater_than(self, other: Single) -> (r: bool)
        ensures
            r == self.gt(other),
    {
        proof {
            lemma_rank_orders(self, other);
        }
        !self.is_nan() && !other.is_nan() && self.rank() > other.rank()
    }

    /// `self >= other`; false when either is a NaN.
    pub fn at_least(self, other: Single) -> (r: bool)
        ensures
            r == self.ge(other),
    {
        proof {
            lemma_rank_orders(self, other);
        }
        !self.is_nan() && !other.is_nan() && self.rank() >= other.rank()
    }

    /// Silence for a number that is not finite, the nearest end of `[-1.0, 1.0]`
    /// for one outside it, the number itself otherwise.
    pub open spec fn sanitized(self) -> Single {
        if !self.finite() {
            Single { bits: 0 }
        } else if self.value() > unit() {
            Single { bits: ONE_BITS }
        } else if self.value() < -unit() {
            Single { bits: (SIGN_BIT + ONE_BITS) as u32 }
        } else {
            self
        }
    }

    /// Bring the number into `[-1.0, 1.0]`: see [`Single::sanitized`].
    pub fn sanitize(self) -> (r: Single)
        ensures
            r == self.sanitized(),
    {
        let one = Single { bits: ONE_BITS };
        let minus_one = Single { bits: SIGN_BIT + ONE_BITS };
        proof {
            lemma_unit_values();
        }
        if !self.is_finite() {
            Single { bits: 0 }
        } else if self.greater_than(one) {
            one
        } else if minus_one.greater_than(self) {
            minus_one
        } else {
            self
        }
    }
}

/// The values of `1.0`, `-1.0` and `0.0`.
pub proof fn lemma_unit_values()
    ensures
        (Single { bits: ONE_BITS }).value() == unit(),
        (Single { bits: (SIGN_BIT + ONE_BITS) as u32 }).value() == -unit(),
        (Single { bits: 0 }).value() == 0,
        unit() > 0,
{
    assert(pow2(23) == 0x80_0000) by {
        vstd::arithmetic::power2::lemma2_to64();
    }
    lemma_pow2_adds(23, 126);
    lemma_pow2_pos(149);
}

proof fn lemma_magnitude_step(magnitude: nat)
    ensures
        magnitude_value(magnitude) < magnitude_value(magnitude + 1),
{
    if magnitude < 0x80_0000 - 1 {
    } else if magnitude == 0x80_0000 - 1 {
        vstd::arithmetic::power2::lemma2_to64();
    } else {
        let e: nat = magnitude / 0x80_0000;
        let f: nat = magnitude % 0x80_0000;
        lemma_pow2_pos((e - 1) as nat);
        if f == 0x80_0000 - 1 {
            assert((magnitude + 1) / 0x80_0000 == e + 1);
            assert((magnitude + 1) % 0x80_0000 == 0);
            lemma_pow2_unfold(e);
            let p = pow2((e - 1) as nat);
            assert((0x80_0000 + f) * p < 0x80_0000 * (2 * p)) by (nonlinear_arith)
                requires
                    f == 0x80_0000 - 1,
                    p > 0,
            ;
        } else {
            assert((magnitude + 1) / 0x80_0000 == e);
            assert((magnitude + 1) % 0x80_0000 == f + 1);
            let p = pow2((e - 1) as nat);
            assert((0x80_0000 + f) * p < (0x80_0000 + (f + 1)) * p) by (nonlinear_arith)
                requires
                    p > 0,
            ;
        }
    }
}

proof fn lemma_magnitude_monotone(a: nat, b: nat)
    requires
        a < b,
    ensures
        magnitude_value(a) < magnitude_value(b),
    decreases b - a,
{
    lemma_magnitude_step(a);
    if a + 1 < b {
        lemma_magnitude_monotone(a + 1, b);
    }
}

/// The rank orders numbers as their values do.
proof fn lemma_rank_orders(a: Single, b: Single)
    ensures
        a.spec_rank() < b.spec_rank() <==> a.value() < b.value(),
        a.spec_rank() == b.spec_rank() <==> a.value() == b.value(),
{
    let ma = a.magnitude();
    let mb = b.magnitude();
    if ma < mb {
        lemma_magnitude_monotone(ma, mb);
    }
    if mb < ma {
        lemma_magnitude_monotone(mb, ma);
    }
    if ma > 0 {
        lemma_magnitude_monotone(0, ma);
    }
    if mb > 0 {
        lemma_magnitude_monotone(0, mb);
    }
}

/// Sanitizing yields a finite number in `[-1.0, 1.0]`, leaves a number that is
/// one already alone, and so has nothing left to do the second time.
pub proof fn law_sanitized_is_in_range(s: Single)
    ensures
        s.sanitized().in_unit_range(),
        s.in_unit_range() ==> s.sanitized() == s,
        s.sanitized().sanitized() == s.sanitized(),
{
    lemma_unit_values();
}

/// Sanitizing moves a number no further than it has to: a finite one goes to the nearest
/// number of `[-1.0, 1.0]`, and one that is not finite becomes silence. It never turns
/// the order of two finite numbers round.
pub proof fn law_sanitized_is_nearest(s: Single, x: Single)
    requires
        x.in_unit_range(),
    ensures
        !s.finite() ==> s.sanitized().value() == 0,
        s.finite() && s.value() <= x.value() ==> s.sanitized().value() <= x.value()
            && s.sanitized().value() >= s.value(),
        s.finite() && s.value() >= x.value() ==> s.sanitized().value() >= x.value()
            && s.sanitized().value() <= s.value(),
        s.finite() && -unit() <= s.value() <= unit() ==> s.sanitized().value() == s.value(),
{
    lemma_unit_values();
}

/// `i` is where the first of the greatest numbers of `values` stands; a NaN is
/// passed over.
pub open spec fn peak(values: Seq<Single>, i: int) -> bool {
    &&& 0 <= i < values.len()
    &&& !values[i].nan()
    &&& forall|j: int| 0 <= j < values.len() ==> !(#[trigger] values[j]).gt(values[i])
    &&& forall|j: int| 0 <= j < i ==> !(#[trigger] values[j]).ge(values[i])
}

/// Where the greatest of `values` stands when they are read from the first to the
/// last and only a greater one takes the place of the one found. A leading NaN is
/// never exceeded, so it keeps the first place.
pub open spec fn best_of(values: Seq<Single>) -> int
    decreases values.len(),
{
    if values.len() <= 1 {
        0
    } else {
        let best = best_of(values.drop_last());
        if values.last().gt(values[best]) {
            values.len() - 1
        } else {
            best
        }
    }
}

/// Where the first value is a number, the best one is the peak.
pub proof fn law_best_is_peak(values: Seq<Single>)
    requires
        values.len() > 0,
    ensures
        0 <= best_of(values) < values.len(),
        values[0].nan() ==> best_of(values) == 0,
        !values[0].nan() ==> peak(values, best_of(values)),
    decreases values.len(),
{
    if values.len() > 1 {
        let rest = values.drop_last();
        law_best_is_peak(rest);
        assert(forall|j: int| 0 <= j < rest.len() ==> #[trigger] rest[j] == values[j]);
        if !values[0].nan() {
            let b = best_of(rest);
            assert(values[b] == rest[b]);
            assert forall|j: int| 0 <= j < values.len() implies !(#[trigger] values[j]).gt(
                values[best_of(values)],
            ) by {
                if j < rest.len() {
                    assert(!rest[j].gt(rest[b]));
                }
            }
            assert forall|j: int| 0 <= j < best_of(values) implies !(#[trigger] values[j]).ge(
                values[best_of(values)],
            ) by {
                assert(!rest[j].gt(rest[b]));
                if best_of(values) == b {
                    assert(!rest[j].ge(rest[b]));
                }
            }
        }
    }
}

/// The index of the greatest of `values`, the first one on ties: see [`best_of`].
pub fn first_peak(values: &[Single]) -> (r: usize)
    requires
        values@.len() > 0,
    ensures
        r == best_of(values@),
        r < values@.len(),
        values@[0].nan() ==> r == 0,
        !values@[0].nan() ==> peak(values@, r as int),
{
    let n: usize = values.len();
    let mut best: usize = 0;
    let mut i: usize = 1;
    while i < n
        invariant
            n == values@.len(),
            1 <= i <= n,
            best < i,
            best == best_of(values@.take(i as int)),
        decreases n - i,
    {
        assert(values@.take(i + 1).drop_last() =~= values@.take(i as int));
        if values[i].greater_than(values[best]) {
            best = i;
        }
        i += 1;
    }
    assert(values@.take(n as int) =~= values@);
    proof {
        law_best_is_peak(values@);
    }
    best
}

/// There is one peak at most.
pub proof fn law_peak_is_unique(values: Seq<Single>, i: int, j: int)
    requires
        peak(values, i),
        peak(values, j),
    ensures
        i == j,
{
}

} // verus!
