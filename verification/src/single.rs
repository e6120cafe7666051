//! Single-precision numbers as bit patterns: what can be decided about them without arithmetic.
use vstd::arithmetic::div_mod::{lemma_div_by_multiple, lemma_div_denominator};
use vstd::arithmetic::power2::{
    lemma2_to64, lemma_pow2_adds, lemma_pow2_pos, lemma_pow2_strictly_increases, pow2,
};
use vstd::prelude::*;

verus! {

/// A single-precision number (IEEE 754 binary32), held as its bit pattern.
#[derive(Clone, Copy, Debug, PartialEq, Eq, Structural)]
pub struct Single {
    pub bits: u32,
}

/// The sign bit.
pub const SIGN_BIT: u32 = 0x8000_0000;

/// The magnitude bits of an infinity. Above them lie the NaNs, below them the finite numbers.
pub const INFINITY_BITS: u32 = 0x7F80_0000;

impl Single {
    /// Whether the sign bit is set.
    pub open spec fn negative(self) -> bool {
        self.bits >= SIGN_BIT
    }

    /// The bit pattern without its sign: exponent, then fraction.
    pub open spec fn magnitude(self) -> int {
        if self.negative() {
            self.bits - SIGN_BIT
        } else {
            self.bits as int
        }
    }

    /// Whether this is not a number.
    pub open spec fn nan(self) -> bool {
        self.magnitude() > INFINITY_BITS
    }

    /// Whether this is a number and not an infinity.
    pub open spec fn finite(self) -> bool {
        self.magnitude() < INFINITY_BITS
    }

    /// Where the number stands among all that are not NaN. Both zeros stand at 0, and a larger
    /// number stands higher (see `law_rank_orders_values`).
    pub open spec fn rank(self) -> int {
        if self.negative() {
            -self.magnitude()
        } else {
            self.magnitude()
        }
    }

    /// Where the number stands in the total order of IEEE 754, which has a place for each bit
    /// pattern: negative NaNs first, then the numbers with -0 before +0, then positive NaNs.
    pub open spec fn total_rank(self) -> int {
        if self.negative() {
            -self.magnitude() - 1
        } else {
            self.magnitude()
        }
    }

    /// The comparison `self < other`, which no NaN satisfies.
    pub open spec fn lt(self, other: Single) -> bool {
        !self.nan() && !other.nan() && self.rank() < other.rank()
    }

    /// The comparison `self <= other`, which no NaN satisfies.
    pub open spec fn le(self, other: Single) -> bool {
        !self.nan() && !other.nan() && self.rank() <= other.rank()
    }

    /// The number with its sign bit cleared.
    pub open spec fn absolute(self) -> Single {
        Single { bits: self.magnitude() as u32 }
    }

    /// The value of a finite number, in units of the smallest positive one (2 to the -149).
    pub open spec fn value(self) -> int {
        let exponent = self.magnitude() / 0x80_0000;
        let fraction = self.magnitude() % 0x80_0000;
        let size = if exponent == 0 {
            fraction
        } else {
            (0x80_0000 + fraction) * pow2((exponent - 1) as nat)
        };
        if self.negative() {
            -size
        } else {
            size
        }
    }

    /// The number rounded down to a whole one from 0 to the largest `u32`: 0 for what is negative
    /// or not a number.
    pub open spec fn whole_part(self) -> int {
        if self.nan() || self.negative() {
            0
        } else if !self.finite() {
            u32::MAX as int
        } else {
            at_most_u32(self.value() / pow2(149) as int)
        }
    }

    /// The number rounded to the nearest whole one, halves up, from 0 to the largest `u32`: 0 for
    /// what is negative or not a number.
    pub open spec fn nearest_whole(self) -> int {
        if self.nan() || self.negative() {
            0
        } else if !self.finite() {
            u32::MAX as int
        } else {
            at_most_u32((self.value() + pow2(148)) / pow2(149) as int)
        }
    }

    /// The lesser of two numbers; the other one where one is not a number.
    pub open spec fn lesser_of(self, other: Single) -> Single {
        if other.nan() || self.le(other) {
            self
        } else {
            other
        }
    }

    /// The greater of two numbers; the other one where one is not a number.
    pub open spec fn greater_of(self, other: Single) -> Single {
        if other.nan() || other.le(self) {
            self
        } else {
            other
        }
    }

    /// The number with this bit pattern.
    pub fn from_bits(bits: u32) -> (number: Single)
        ensures
            number == (Single { bits }),
    {
        Single { bits }
    }

    fn exec_magnitude(&self) -> (magnitude: u32)
        ensures
            magnitude == self.magnitude(),
    {
        if self.bits >= SIGN_BIT {
            self.bits - SIGN_BIT
        } else {
            self.bits
        }
    }

    fn exec_rank(&self) -> (rank: i64)
        ensures
            rank == self.rank(),
    {
        let magnitude = self.exec_magnitude() as i64;
        if self.bits >= SIGN_BIT {
            -magnitude
        } else {
            magnitude
        }
    }

    /// Whether this is not a number.
    pub fn is_nan(&self) -> (answer: bool)
        ensures
            answer == self.nan(),
    {
        self.exec_magnitude() > INFINITY_BITS
    }

    /// Whether this is a number and not an infinity.
    pub fn is_finite(&self) -> (answer: bool)
        ensures
            answer == self.finite(),
    {
        self.exec_magnitude() < INFINITY_BITS
    }

    /// Whether the number is below another.
    pub fn less_than(&self, other: &Single) -> (answer: bool)
        ensures
            answer == self.lt(*other),
    {
        !self.is_nan() && !other.is_nan() && self.exec_rank() < other.exec_rank()
    }

    /// Whether the number is below another or equal to it.
    pub fn at_most(&self, other: &Single) -> (answer: bool)
        ensures
            answer == self.le(*other),
    {
        !self.is_nan() && !other.is_nan() && self.exec_rank() <= other.exec_rank()
    }

    /// The number without its sign.
    pub fn abs(&self) -> (number: Single)
        ensures
            number == self.absolute(),
    {
        Single { bits: self.exec_magnitude() }
    }

    /// The lesser of two numbers; the other one where one is not a number.
    pub fn lesser(&self, other: &Single) -> (number: Single)
        ensures
            number == self.lesser_of(*other),
    {
        if other.is_nan() || self.at_most(other) {
            *self
        } else {
            *other
        }
    }

    /// The greater of two numbers; the other one where one is not a number.
    pub fn greater(&self, other: &Single) -> (number: Single)
        ensures
            number == self.greater_of(*other),
    {
        if other.is_nan() || other.at_most(self) {
            *self
        } else {
            *other
        }
    }

    /// The number rounded down to a whole one.
    pub fn whole(&self) -> (number: u32)
        ensures
            number == self.whole_part(),
    {
        if self.is_nan() || self.bits >= SIGN_BIT {
            return 0;
        }
        let exponent = self.bits / 0x80_0000;
        let fraction = self.bits % 0x80_0000;
        if exponent < 127 {
            proof {
                lemma_small(*self);
            }
            0
        } else if exponent < 150 {
            let divisor = power_of_two(150 - exponent);
            proof {
                lemma_split(*self);
            }
            ((0x80_0000 + fraction) as u64 / divisor) as u32
        } else {
            self.large_whole()
        }
    }

    /// The number rounded to the nearest whole one, halves up.
    pub fn rounded(&self) -> (number: u32)
        ensures
            number == self.nearest_whole(),
    {
        if self.is_nan() || self.bits >= SIGN_BIT {
            return 0;
        }
        let exponent = self.bits / 0x80_0000;
        let fraction = self.bits % 0x80_0000;
        if exponent < 126 {
            proof {
                lemma_small(*self);
            }
            0
        } else if exponent < 150 {
            let divisor = power_of_two(150 - exponent);
            proof {
                lemma_split(*self);
            }
            ((0x80_0000 + fraction) as u64 + divisor / 2) as u32 / divisor as u32
        } else {
            proof {
                lemma_large(*self);
            }
            self.large_whole()
        }
    }

    /// A number from 2 to the 23 on, which is whole already.
    fn large_whole(&self) -> (number: u32)
        requires
            !self.nan(),
            !self.negative(),
            self.magnitude() / 0x80_0000 >= 150,
        ensures
            number == self.whole_part(),
    {
        let exponent = self.bits / 0x80_0000;
        let fraction = self.bits % 0x80_0000;
        proof {
            lemma_large(*self);
        }
        if exponent < 159 {
            let factor = power_of_two(exponent - 150);
            ((0x80_0000 + fraction) as u64 * factor) as u32
        } else {
            u32::MAX
        }
    }

    /// The place in the total order, as an integer.
    pub fn total_order(&self) -> (rank: i64)
        ensures
            rank == self.total_rank(),
    {
        let magnitude = self.exec_magnitude() as i64;
        if self.bits >= SIGN_BIT {
            -magnitude - 1
        } else {
            magnitude
        }
    }
}

/// A whole number, or the largest `u32` where it is above that.
pub open spec fn at_most_u32(number: int) -> int {
    if number <= u32::MAX {
        number
    } else {
        u32::MAX as int
    }
}

fn power_of_two(exponent: u32) -> (power: u64)
    requires
        exponent <= 24,
    ensures
        power == pow2(exponent as nat),
        1 <= power <= 0x100_0000,
        exponent > 0 ==> power % 2 == 0,
        exponent <= 8 ==> power <= 256,
{
    let mut power: u64 = 1;
    let mut k: u32 = 0;
    proof {
        lemma2_to64();
    }
    while k < exponent
        invariant
            0 <= k <= exponent <= 24,
            power == pow2(k as nat),
            k > 0 ==> power % 2 == 0,
        decreases exponent - k,
    {
        proof {
            lemma2_to64();
            lemma_pow2_adds(1, k as nat);
            if k < 24 {
                lemma_pow2_strictly_increases(k as nat, 24);
            }
        }
        power = 2 * power;
        k += 1;
    }
    proof {
        lemma2_to64();
        if exponent < 24 {
            lemma_pow2_strictly_increases(exponent as nat, 24);
        }
        if exponent < 8 {
            lemma_pow2_strictly_increases(exponent as nat, 8);
        }
    }
    power
}

/// The rank orders finite numbers as their values do: comparing ranks is comparing numbers.
pub proof fn law_rank_orders_values(a: Single, b: Single)
    requires
        a.finite(),
        b.finite(),
    ensures
        a.rank() < b.rank() <==> a.value() < b.value(),
        a.rank() == b.rank() <==> a.value() == b.value(),
        a.lt(b) <==> a.value() < b.value(),
        a.le(b) <==> a.value() <= b.value(),
{
    let pa = a.absolute();
    let pb = b.absolute();
    lemma_size_positive(pa);
    lemma_size_positive(pb);
    lemma_size_increases(pa, pb);
    lemma_size_increases(pb, pa);
}

proof fn lemma_size_positive(a: Single)
    requires
        !a.negative(),
    ensures
        a.value() >= 0,
        a.value() == 0 <==> a.magnitude() == 0,
{
    let exponent = a.magnitude() / 0x80_0000;
    let fraction = a.magnitude() % 0x80_0000;
    if exponent > 0 {
        lemma_pow2_pos((exponent - 1) as nat);
        let p = pow2((exponent - 1) as nat) as int;
        assert((0x80_0000 + fraction) * p > 0) by (nonlinear_arith)
            requires
                p > 0,
                fraction >= 0,
        ;
    }
}

proof fn lemma_size_increases(a: Single, b: Single)
    requires
        !a.negative(),
        !b.negative(),
    ensures
        a.magnitude() < b.magnitude() ==> a.value() < b.value(),
{
    if a.magnitude() < b.magnitude() {
        let (ea, fa) = (a.magnitude() / 0x80_0000, a.magnitude() % 0x80_0000);
        let (eb, fb) = (b.magnitude() / 0x80_0000, b.magnitude() % 0x80_0000);
        assert(ea <= eb);
        if ea == eb {
            if ea > 0 {
                lemma_pow2_pos((ea - 1) as nat);
                let p = pow2((ea - 1) as nat) as int;
                assert((0x80_0000 + fa) * p < (0x80_0000 + fb) * p) by (nonlinear_arith)
                    requires
                        p > 0,
                        fa < fb,
                ;
            }
        } else {
            lemma2_to64();
            lemma_pow2_pos((eb - 1) as nat);
            let q = pow2((eb - 1) as nat) as int;
            assert((0x80_0000 + fb) * q >= 0x80_0000 * q) by (nonlinear_arith)
                requires
                    q > 0,
                    fb >= 0,
            ;
            if ea > 0 {
                lemma_pow2_pos((ea - 1) as nat);
                let p = pow2((ea - 1) as nat) as int;
                lemma_pow2_adds(1, (ea - 1) as nat);
                if ea < eb - 1 {
                    lemma_pow2_strictly_increases(ea as nat, (eb - 1) as nat);
                }
                assert((0x80_0000 + fa) * p < 0x80_0000 * q) by (nonlinear_arith)
                    requires
                        p > 0,
                        fa < 0x80_0000,
                        q >= 2 * p,
                ;
            }
        }
    }
}

/// A finite number with an exponent below that of 1 is below 1, and below 1/2 with the next lower
/// one.
proof fn lemma_small(a: Single)
    requires
        !a.negative(),
        a.magnitude() / 0x80_0000 < 127,
    ensures
        a.value() / pow2(149) as int == 0,
        a.magnitude() / 0x80_0000 < 126 ==> (a.value() + pow2(148)) / pow2(149) as int == 0,
{
    let e = a.magnitude() / 0x80_0000;
    let f = a.magnitude() % 0x80_0000;
    lemma2_to64();
    lemma_pow2_adds(1, 148);
    lemma_pow2_adds(24, 125);
    lemma_pow2_adds(24, 124);
    lemma_pow2_pos(149);
    lemma_pow2_pos(148);
    lemma_size_positive(a);
    let whole = pow2(149) as int;
    let half = pow2(148) as int;
    if e == 0 {
        lemma_pow2_strictly_increases(23, 148);
    } else {
        let p = pow2((e - 1) as nat) as int;
        lemma_pow2_pos((e - 1) as nat);
        let q = pow2(125) as int;
        let r = pow2(124) as int;
        if e < 126 {
            lemma_pow2_strictly_increases((e - 1) as nat, 125);
        }
        if e < 125 {
            lemma_pow2_strictly_increases((e - 1) as nat, 124);
        }
        assert((0x80_0000 + f) * p < whole) by (nonlinear_arith)
            requires
                0 <= f < 0x80_0000,
                0 < p <= q,
                whole == 0x100_0000 * q,
        ;
        if e < 126 {
            assert((0x80_0000 + f) * p < half) by (nonlinear_arith)
                requires
                    0 <= f < 0x80_0000,
                    0 < p <= r,
                    half == 0x100_0000 * r,
            ;
        }
    }
    vstd::arithmetic::div_mod::lemma_basic_div(a.value(), whole);
    if e < 126 {
        vstd::arithmetic::div_mod::lemma_basic_div(a.value() + half, whole);
    }
}

/// The whole part of a number whose lowest bits lie behind the point.
proof fn lemma_split(a: Single)
    requires
        !a.negative(),
        126 <= a.magnitude() / 0x80_0000 < 150,
    ensures
        ({
            let m = 0x80_0000 + a.magnitude() % 0x80_0000;
            let d = pow2((150 - a.magnitude() / 0x80_0000) as nat) as int;
            &&& a.value() / pow2(149) as int == m / d
            &&& (a.value() + pow2(148)) / pow2(149) as int == (m + d / 2) / d
        }),
{
    let e = a.magnitude() / 0x80_0000;
    let m = 0x80_0000 + a.magnitude() % 0x80_0000;
    let p = pow2((e - 1) as nat) as int;
    let d = pow2((150 - e) as nat) as int;
    let c = pow2((149 - e) as nat) as int;
    lemma2_to64();
    lemma_pow2_adds((e - 1) as nat, (150 - e) as nat);
    lemma_pow2_adds((e - 1) as nat, (149 - e) as nat);
    lemma_pow2_adds(1, (149 - e) as nat);
    lemma_pow2_pos((e - 1) as nat);
    lemma_pow2_pos((150 - e) as nat);
    assert(d == 2 * c);
    assert(a.value() == m * p);
    assert(m * p + p * c == (m + c) * p) by (nonlinear_arith);
    lemma_div_by_multiple(m, p);
    lemma_div_by_multiple(m + c, p);
    lemma_div_denominator(m * p, p, d);
    lemma_div_denominator((m + c) * p, p, d);
}

/// A finite number from 2 to the 23 on is whole.
proof fn lemma_large(a: Single)
    requires
        !a.negative(),
        150 <= a.magnitude() / 0x80_0000,
    ensures
        ({
            let e = a.magnitude() / 0x80_0000;
            let m = 0x80_0000 + a.magnitude() % 0x80_0000;
            &&& a.value() / pow2(149) as int == m * pow2((e - 150) as nat)
            &&& (a.value() + pow2(148)) / pow2(149) as int == m * pow2((e - 150) as nat)
            &&& e >= 159 ==> m * pow2((e - 150) as nat) > u32::MAX
            &&& e < 159 ==> 0 <= m * pow2((e - 150) as nat) <= u32::MAX
        }),
{
    let e = a.magnitude() / 0x80_0000;
    let m = 0x80_0000 + a.magnitude() % 0x80_0000;
    let k = pow2((e - 150) as nat) as int;
    let whole = pow2(149) as int;
    let half = pow2(148) as int;
    lemma2_to64();
    lemma_pow2_adds(149, (e - 150) as nat);
    lemma_pow2_adds(1, 148);
    lemma_pow2_pos(149);
    lemma_pow2_pos(148);
    lemma_pow2_pos((e - 150) as nat);
    assert(a.value() == (m * k) * whole) by (nonlinear_arith)
        requires
            a.value() == m * (whole * k),
    ;
    vstd::arithmetic::div_mod::lemma_fundamental_div_mod_converse(a.value(), whole, m * k, 0);
    vstd::arithmetic::div_mod::lemma_fundamental_div_mod_converse(
        a.value() + half,
        whole,
        m * k,
        half,
    );
    if e >= 159 {
        if e > 159 {
            lemma_pow2_strictly_increases(9, (e - 150) as nat);
        }
        assert(m * k > u32::MAX) by (nonlinear_arith)
            requires
                m >= 0x80_0000,
                k >= 512,
        ;
    } else {
        if e < 158 {
            lemma_pow2_strictly_increases((e - 150) as nat, 8);
        }
        assert(0 <= m * k <= 0xFFFF_FFFF) by (nonlinear_arith)
            requires
                0x80_0000 <= m < 0x100_0000,
                0 < k <= 256,
        ;
    }
}

/// Different bit patterns have different places in the total order.
pub proof fn law_total_order_separates(a: Single, b: Single)
    ensures
        a.total_rank() == b.total_rank() <==> a == b,
{
}

/// Among numbers that are not NaN, the total order agrees with `<` and only adds that -0 comes
/// before +0.
pub proof fn law_total_order_extends(a: Single, b: Single)
    requires
        !a.nan(),
        !b.nan(),
    ensures
        a.lt(b) ==> a.total_rank() < b.total_rank(),
        a.total_rank() < b.total_rank() ==> a.le(b),
{
}

/// Rounding keeps order: of two numbers, the smaller one does not round to the larger whole.
pub proof fn law_rounding_keeps_order(a: Single, b: Single)
    requires
        a.le(b),
    ensures
        a.whole_part() <= b.whole_part(),
        a.nearest_whole() <= b.nearest_whole(),
{
    lemma_pow2_pos(149);
    lemma_pow2_pos(148);
    let whole = pow2(149) as int;
    let half = pow2(148) as int;
    lemma2_to64();
    lemma_pow2_adds(1, 148);
    vstd::arithmetic::div_mod::lemma_basic_div(half, whole);
    if !b.negative() {
        lemma_size_positive(b);
        vstd::arithmetic::div_mod::lemma_div_pos_is_pos(b.value(), whole);
        vstd::arithmetic::div_mod::lemma_div_pos_is_pos(b.value() + half, whole);
    }
    if a.finite() && b.finite() {
        law_rank_orders_values(a, b);
        vstd::arithmetic::div_mod::lemma_div_is_ordered(a.value(), b.value(), whole);
        vstd::arithmetic::div_mod::lemma_div_is_ordered(a.value() + half, b.value() + half, whole);
    }
}

/// The nearest whole number is the whole part or the next number after it.
pub proof fn law_nearest_next_to_whole(a: Single)
    ensures
        a.whole_part() <= a.nearest_whole() <= a.whole_part() + 1,
{
    lemma_pow2_pos(149);
    lemma_pow2_pos(148);
    lemma2_to64();
    lemma_pow2_adds(1, 148);
    let whole = pow2(149) as int;
    let half = pow2(148) as int;
    vstd::arithmetic::div_mod::lemma_div_is_ordered(a.value(), a.value() + half, whole);
    vstd::arithmetic::div_mod::lemma_div_is_ordered(a.value() + half, a.value() + whole, whole);
    vstd::arithmetic::div_mod::lemma_div_plus_one(a.value(), whole);
}

/// Which bit patterns are numbers: those up to an infinity of either sign.
pub proof fn law_numbers_by_pattern(a: Single)
    ensures
        a.nan() <==> 0x7F80_0000 < a.bits < 0x8000_0000 || 0xFF80_0000 < a.bits,
        a.finite() <==> a.bits < 0x7F80_0000 || 0x8000_0000 <= a.bits < 0xFF80_0000,
        a.negative() <==> a.bits >= 0x8000_0000,
        a.absolute().bits == a.bits || a.absolute().bits == a.bits - 0x8000_0000,
        a.absolute().bits < 0x8000_0000,
{
}

/// Numbers are ordered by their patterns: without a sign the larger pattern is the larger number,
/// with one it is the smaller. What has a sign is below what has none, but for the two zeros. What
/// is not a number is neither below anything nor equal to it.
pub proof fn law_order_by_pattern(a: Single, b: Single)
    ensures
        a.nan() || b.nan() ==> !a.lt(b) && !a.le(b),
        !a.nan() && !b.nan() ==> {
            &&& a.le(b) <==> !b.lt(a)
            &&& a.bits < 0x8000_0000 && b.bits < 0x8000_0000 ==> (a.lt(b) <==> a.bits < b.bits)
            &&& a.bits >= 0x8000_0000 && b.bits >= 0x8000_0000 ==> (a.lt(b) <==> a.bits > b.bits)
            &&& a.bits >= 0x8000_0000 && b.bits < 0x8000_0000 ==> (a.lt(b) <==> !(a.bits
                == 0x8000_0000 && b.bits == 0))
            &&& a.bits < 0x8000_0000 && b.bits >= 0x8000_0000 ==> !a.lt(b)
        },
{
}

/// The total order has all patterns: without a sign by rising pattern, with one by falling pattern,
/// and those with a sign first.
pub proof fn law_total_order_by_pattern(a: Single, b: Single)
    ensures
        a.bits < 0x8000_0000 && b.bits < 0x8000_0000 ==> (a.total_rank() < b.total_rank() <==> a.bits
            < b.bits),
        a.bits >= 0x8000_0000 && b.bits >= 0x8000_0000 ==> (a.total_rank() < b.total_rank()
            <==> a.bits > b.bits),
        a.bits >= 0x8000_0000 && b.bits < 0x8000_0000 ==> a.total_rank() < b.total_rank(),
{
}

/// What the patterns stand for: 0 for the first one, from each to the next a step that is a power of
/// two and doubles whenever the exponent goes up, and the negated value where the sign bit is set.
pub proof fn law_values_by_pattern(a: Single)
    requires
        a.bits < 0x7F80_0000,
    ensures
        (Single { bits: 0 }).value() == 0,
        a.bits + 1 < 0x7F80_0000 ==> (Single { bits: (a.bits + 1) as u32 }).value() - a.value()
            == pow2(
            if a.bits < 0x80_0000 {
                0
            } else {
                (a.bits / 0x80_0000 - 1) as nat
            },
        ),
        (Single { bits: (a.bits + 0x8000_0000) as u32 }).value() == -a.value(),
{
    lemma2_to64();
    let e = a.bits as int / 0x80_0000;
    let f = a.bits as int % 0x80_0000;
    let next = Single { bits: (a.bits + 1) as u32 };
    assert(a.magnitude() / 0x80_0000 == e && a.magnitude() % 0x80_0000 == f);
    if a.bits + 1 < 0x7F80_0000 {
        if f + 1 < 0x80_0000 {
            assert(next.magnitude() / 0x80_0000 == e && next.magnitude() % 0x80_0000 == f + 1);
        } else {
            assert(next.magnitude() / 0x80_0000 == e + 1 && next.magnitude() % 0x80_0000 == 0);
            assert(next.value() == (0x80_0000 + 0) * pow2(e as nat));
        }
        if e > 0 {
            let p = pow2((e - 1) as nat) as int;
            lemma_pow2_adds(1, (e - 1) as nat);
            assert(pow2(e as nat) == 2 * p);
            assert(a.value() == (0x80_0000 + f) * p);
            assert((0x80_0000 + f + 1) * p == (0x80_0000 + f) * p + p) by (nonlinear_arith);
            assert((0x80_0000 + 0) * (2 * p) == (0x80_0000 + 0x7F_FFFF + 1) * p) by (
            nonlinear_arith);
            if f + 1 < 0x80_0000 {
                assert(next.value() == (0x80_0000 + (f + 1)) * p);
            } else {
                assert(f == 0x7F_FFFF);
            }
            assert(next.value() - a.value() == p);
            assert((a.bits / 0x80_0000 - 1) as nat == (e - 1) as nat);
        } else {
            assert(a.value() == f);
            assert(e == 0);
            assert(pow2(e as nat) == 1);
            if f + 1 < 0x80_0000 {
                assert(next.value() == f + 1);
            } else {
                assert(next.value() == 0x80_0000);
            }
        }
    }
}

/// The whole part of a number is the whole number at or just below it, as far as there is one from 0
/// to the largest `u32`.
pub proof fn law_whole_part_is_floor(a: Single)
    ensures
        a.nan() || a.negative() ==> a.whole_part() == 0,
        0 <= a.whole_part() <= u32::MAX,
        a.finite() && !a.negative() && a.value() < 0x1_0000_0000 * pow2(149) ==> a.whole_part()
            * pow2(149) <= a.value() < (a.whole_part() + 1) * pow2(149),
        !a.nan() && !a.negative() && (a.finite() ==> a.value() >= 0x1_0000_0000 * pow2(149))
            ==> a.whole_part() == u32::MAX,
{
    if !a.negative() {
        lemma_size_positive(a);
        lemma_floor(a.value());
    }
}

/// A number is rounded to the whole number that is at most one half away, the upper one of two that
/// are, as far as there is one from 0 to the largest `u32`.
pub proof fn law_nearest_whole_is_near(a: Single)
    ensures
        a.nan() || a.negative() ==> a.nearest_whole() == 0,
        0 <= a.nearest_whole() <= u32::MAX,
        a.finite() && !a.negative() && a.value() + pow2(148) < 0x1_0000_0000 * pow2(149)
            ==> a.nearest_whole() * pow2(149) <= a.value() + pow2(148) < (a.nearest_whole() + 1)
            * pow2(149),
        !a.nan() && !a.negative() && (a.finite() ==> a.value() + pow2(148) >= 0x1_0000_0000
            * pow2(149)) ==> a.nearest_whole() == u32::MAX,
        2 * pow2(148) == pow2(149),
{
    lemma2_to64();
    lemma_pow2_adds(1, 148);
    if !a.negative() {
        lemma_size_positive(a);
        lemma_floor(a.value() + pow2(148));
    }
}

proof fn lemma_floor(value: int)
    requires
        value >= 0,
    ensures
        0 <= value / pow2(149) as int,
        (value / pow2(149) as int) * pow2(149) <= value < (value / pow2(149) as int + 1) * pow2(149),
        value < 0x1_0000_0000 * pow2(149) <==> value / pow2(149) as int <= u32::MAX,
{
    lemma_pow2_pos(149);
    let p = pow2(149) as int;
    vstd::arithmetic::div_mod::lemma_fundamental_div_mod(value, p);
    let q = value / p;
    let r = value % p;
    vstd::arithmetic::div_mod::lemma_mod_bound(value, p);
    vstd::arithmetic::div_mod::lemma_div_pos_is_pos(value, p);
    assert(q * p <= value < (q + 1) * p) by (nonlinear_arith)
        requires
            value == p * q + r,
            0 <= r < p,
    ;
    assert(value < 0x1_0000_0000 * p <==> q <= 0xFFFF_FFFF) by (nonlinear_arith)
        requires
            q * p <= value < (q + 1) * p,
            p > 0,
    ;
}

/// The lesser of two numbers is one of them and above neither, the greater one of them and below
/// neither; where only one is a number, it is both.
pub proof fn law_lesser_and_greater(a: Single, b: Single)
    ensures
        a.lesser_of(b) == a || a.lesser_of(b) == b,
        a.greater_of(b) == a || a.greater_of(b) == b,
        !a.nan() && !b.nan() ==> a.lesser_of(b).le(a) && a.lesser_of(b).le(b),
        !a.nan() && !b.nan() ==> a.le(a.greater_of(b)) && b.le(a.greater_of(b)),
        a.nan() ==> a.lesser_of(b) == b || b.nan(),
        a.nan() ==> a.greater_of(b) == b || b.nan(),
        b.nan() ==> a.lesser_of(b) == a && a.greater_of(b) == a,
{
}

} // verus!
