//! Weight algebra. Weights are fixed-point decimals held in an `i64`
//! (`WEIGHT_SCALE` units per 1.0), so every operation is exact integer work.
use vstd::prelude::*;

verus! {

/// Number of units in the weight value 1.0 (four decimal digits).
pub const WEIGHT_SCALE: i64 = 10000;

/// Default quantization step: 0.001.
pub const KDELTA: i64 = 10;

/// Raw value standing for +infinity.
pub const INFINITY: i64 = 9223372036854775807;

/// Failure of a semiring operation.
#[derive(Clone, Copy, Debug, PartialEq, Eq, Structural)]
pub enum SemiringError {
    /// The exact result does not fit the representation.
    Overflow,
    /// The operation has no value in the semiring for these operands.
    Invalid,
    /// Division by an element that has no inverse.
    NotDivisible,
}

/// A partial result of the model turned into the result of the executable operation.
pub open spec fn lift<W>(o: Option<W>) -> Result<W, SemiringError> {
    match o {
        Some(w) => Ok(w),
        None => Err(SemiringError::Overflow),
    }
}

/// `(S, plus, times, zero, one)`: plus and times are given by their models, which
/// are an error where the exact result does not fit the representation or has no
/// meaning in the semiring.
pub trait Semiring: Sized + Copy {
    spec fn zero_spec() -> Self;

    spec fn one_spec() -> Self;

    spec fn new_spec(value: i64) -> Self;

    spec fn value_spec(self) -> i64;

    spec fn plus_spec(self, rhs: Self) -> Result<Self, SemiringError>;

    spec fn times_spec(self, rhs: Self) -> Result<Self, SemiringError>;

    /// Whether the value is an element of the semiring.
    spec fn valid(self) -> bool;

    /// Zero and one are elements; they differ.
    proof fn lemma_zero_one_valid()
        ensures
            Self::zero_spec().valid(),
            Self::one_spec().valid(),
    ;

    /// A weight is the weight built from its raw value.
    proof fn lemma_new_of_value(w: Self)
        ensures
            Self::new_spec(w.value_spec()) == w,
    ;

    /// `plus` is commutative and associative (where the sums fit), with
    /// identity zero.
    proof fn lemma_plus_laws(a: Self, b: Self, c: Self)
        requires
            a.valid(),
            b.valid(),
            c.valid(),
        ensures
            a.plus_spec(b) == b.plus_spec(a),
            a.plus_spec(Self::zero_spec()) == Ok::<Self, SemiringError>(a),
            (a.plus_spec(b) is Ok && b.plus_spec(c) is Ok) ==> a.plus_spec(b)->Ok_0.plus_spec(c) == a.plus_spec(
                b.plus_spec(c)->Ok_0,
            ),
    ;

    /// One is the identity of `times` and zero annihilates.
    proof fn lemma_times_laws(a: Self)
        requires
            a.valid(),
        ensures
            a.times_spec(Self::one_spec()) == Ok::<Self, SemiringError>(a),
            Self::one_spec().times_spec(a) == Ok::<Self, SemiringError>(a),
            a.times_spec(Self::zero_spec()) == Ok::<Self, SemiringError>(Self::zero_spec()),
            Self::zero_spec().times_spec(a) == Ok::<Self, SemiringError>(Self::zero_spec()),
    ;

    /// The semiring is not trivial.
    proof fn lemma_one_ne_zero()
        ensures
            Self::one_spec() != Self::zero_spec(),
    ;

    /// A weight built from a raw value holds that value.
    proof fn lemma_value_of_new(value: i64)
        ensures
            Self::new_spec(value).value_spec() == value,
    ;

    fn zero() -> (r: Self)
        ensures
            r == Self::zero_spec(),
    ;

    fn one() -> (r: Self)
        ensures
            r == Self::one_spec(),
    ;

    fn new(value: i64) -> (r: Self)
        ensures
            r == Self::new_spec(value),
            r.value_spec() == value,
    ;

    fn value(&self) -> (r: i64)
        ensures
            r == self.value_spec(),
    ;

    fn plus(&self, rhs: &Self) -> (r: Result<Self, SemiringError>)
        ensures
            r == self.plus_spec(*rhs),
    ;

    fn times(&self, rhs: &Self) -> (r: Result<Self, SemiringError>)
        ensures
            r == self.times_spec(*rhs),
    ;

    fn is_zero(&self) -> (r: bool)
        ensures
            r == (*self == Self::zero_spec()),
    ;

    fn is_one(&self) -> (r: bool)
        ensures
            r == (*self == Self::one_spec()),
    ;
}

/// A semiring in which `times` can be undone by `divide` on non-zero elements.
pub trait WeaklyDivisibleSemiring: Semiring {
    spec fn divide_spec(self, rhs: Self) -> Result<Self, SemiringError>;

    spec fn inverse_spec(self) -> Result<Self, SemiringError>;

    fn divide(&self, rhs: &Self) -> (r: Result<Self, SemiringError>)
        ensures
            r == self.divide_spec(*rhs),
    ;

    fn inverse(&self) -> (r: Result<Self, SemiringError>)
        ensures
            r == self.inverse_spec(),
    ;
}

/// A semiring where infinite sums are well defined.
pub trait CompleteSemiring: Semiring {
}

/// A semiring with the closure `a* = one + a + a^2 + ...`.
pub trait StarSemiring: Semiring {
    spec fn closure_spec(self) -> Result<Self, SemiringError>;

    fn closure(&self) -> (r: Result<Self, SemiringError>)
        ensures
            r == self.closure_spec(),
    ;
}

/// `v` rounded to the nearest multiple of `delta`, halves rounded up.
pub open spec fn quantize_int(v: int, delta: int) -> int {
    ((2 * v + delta) / (2 * delta)) * delta
}

/// Quantized value of a raw weight: infinity stays, any other value is rounded
/// to the nearest multiple of `delta`; `None` where that does not fit.
pub open spec fn quantize_raw(v: i64, delta: i64) -> Option<i64> {
    if v == INFINITY {
        Some(v)
    } else {
        let q = quantize_int(v as int, delta as int);
        if i64::MIN <= q && q < INFINITY {
            Some(q as i64)
        } else {
            None
        }
    }
}

/// `w` with its value rounded to the grid of step `delta`.
pub open spec fn quantized<W: Semiring>(w: W, delta: i64) -> Result<W, SemiringError> {
    lift(
        match quantize_raw(w.value_spec(), delta) {
            Some(q) => Some(W::new_spec(q)),
            None => None,
        },
    )
}

/// Weights over real values that can be rounded to a grid of step `delta`.
pub trait WeightQuantize: Semiring {
    fn quantize(&self, delta: i64) -> (r: Result<Self, SemiringError>)
        requires
            delta > 0,
        ensures
            r == quantized(*self, delta),
    ;
}

/// Quantizing a weight twice with the same step gives what quantizing once gives.
pub proof fn lemma_quantized_idempotent<W: Semiring>(w: W, delta: i64)
    requires
        delta > 0,
    ensures
        quantized(w, delta) matches Ok(u) ==> quantized(u, delta) == Ok::<W, SemiringError>(u),
{
    lemma_quantize_raw_idempotent(w.value_spec(), delta);
    if let Some(q) = quantize_raw(w.value_spec(), delta) {
        W::lemma_value_of_new(q);
    }
}

proof fn lemma_floor_div(x: int, m: int, k: int)
    requires
        m > 0,
        m * k <= x,
        x < m * k + m,
    ensures
        k == x / m,
{
    vstd::arithmetic::div_mod::lemma_fundamental_div_mod_converse(x, m, k, x - k * m);
}

/// Executable form of `quantize_raw`.
pub fn quantize_value(v: i64, delta: i64) -> (r: Option<i64>)
    requires
        delta > 0,
    ensures
        r == quantize_raw(v, delta),
{
    if v == INFINITY {
        return Some(v);
    }
    let d: i128 = delta as i128;
    let m: i128 = 2 * d;
    let x: i128 = 2 * (v as i128) + d;
    let k: i128;
    if x >= 0 {
        let t: u128 = (x as u128) / (m as u128);
        assert(m * t <= x < m * t + m) by {
            vstd::arithmetic::div_mod::lemma_fundamental_div_mod(x as int, m as int);
        }
        k = t as i128;
    } else {
        let y: u128 = (-x) as u128;
        let t: u128 = (y + (m as u128) - 1) / (m as u128);
        assert(m * t >= y && m * t - m < y) by {
            vstd::arithmetic::div_mod::lemma_fundamental_div_mod(
                (y + m - 1) as int,
                m as int,
            );
        }
        assert(t <= y) by (nonlinear_arith)
            requires
                m * t - m < y,
                m >= 2,
                y >= 1,
        ;
        k = -(t as i128);
        assert(m * k <= x < m * k + m) by (nonlinear_arith)
            requires
                m * t >= y,
                m * t - m < y,
                k == -t,
                x == -y,
        ;
    }
    proof {
        lemma_floor_div(x as int, m as int, k as int);
    }
    assert(m * k == 2 * (k * d)) by (nonlinear_arith)
        requires
            m == 2 * d,
    ;
    let q: i128 = k * d;
    if q >= i64::MIN as i128 && q < INFINITY as i128 {
        Some(q as i64)
    } else {
        None
    }
}

/// Quantizing a value that is already on the grid leaves it unchanged.
pub proof fn lemma_quantize_int_on_grid(k: int, delta: int)
    requires
        delta > 0,
    ensures
        quantize_int(k * delta, delta) == k * delta,
{
    assert(2 * (k * delta) + delta == k * (2 * delta) + delta) by (nonlinear_arith);
    vstd::arithmetic::div_mod::lemma_fundamental_div_mod_converse(
        2 * (k * delta) + delta,
        2 * delta,
        k,
        delta,
    );
}

/// Quantizing twice with the same step gives what quantizing once gives.
pub proof fn lemma_quantize_raw_idempotent(v: i64, delta: i64)
    requires
        delta > 0,
    ensures
        quantize_raw(v, delta) matches Some(q) ==> quantize_raw(q, delta) == Some(q),
{
    if v != INFINITY {
        let k = (2 * v + delta) / (2 * (delta as int));
        lemma_quantize_int_on_grid(k, delta as int);
    }
}

/// The tropical semiring `(R u {+inf}, min, +, +inf, 0)` on fixed-point values;
/// the raw value `INFINITY` is +inf.
#[derive(Clone, Copy, Debug, PartialEq, Eq, Structural)]
pub struct TropicalWeight {
    pub value: i64,
}

/// Exact sum of two finite raw values, `None` where it leaves the finite range.
pub open spec fn checked_sum(a: i64, b: i64) -> Option<i64> {
    let s = a + b;
    if i64::MIN <= s && s < INFINITY {
        Some(s as i64)
    } else {
        None
    }
}

impl Semiring for TropicalWeight {
    open spec fn valid(self) -> bool {
        true
    }

    proof fn lemma_zero_one_valid() {
    }

    proof fn lemma_new_of_value(w: Self) {
    }

    proof fn lemma_plus_laws(a: Self, b: Self, c: Self) {
    }

    proof fn lemma_times_laws(a: Self) {
    }

    proof fn lemma_one_ne_zero() {
    }

    proof fn lemma_value_of_new(value: i64) {
    }

    open spec fn zero_spec() -> Self {
        TropicalWeight { value: INFINITY }
    }

    open spec fn one_spec() -> Self {
        TropicalWeight { value: 0 }
    }

    open spec fn new_spec(value: i64) -> Self {
        TropicalWeight { value }
    }

    open spec fn value_spec(self) -> i64 {
        self.value
    }

    open spec fn plus_spec(self, rhs: Self) -> Result<Self, SemiringError> {
        if self.value <= rhs.value {
            Ok(self)
        } else {
            Ok(rhs)
        }
    }

    open spec fn times_spec(self, rhs: Self) -> Result<Self, SemiringError> {
        if self.value == INFINITY || rhs.value == INFINITY {
            Ok(TropicalWeight { value: INFINITY })
        } else {
            match checked_sum(self.value, rhs.value) {
                Some(s) => Ok(TropicalWeight { value: s }),
                None => Err(SemiringError::Overflow),
            }
        }
    }

    fn zero() -> (r: Self) {
        TropicalWeight { value: INFINITY }
    }

    fn one() -> (r: Self) {
        TropicalWeight { value: 0 }
    }

    fn new(value: i64) -> (r: Self) {
        TropicalWeight { value }
    }

    fn value(&self) -> (r: i64) {
        self.value
    }

    fn plus(&self, rhs: &Self) -> (r: Result<Self, SemiringError>) {
        if self.value <= rhs.value {
            Ok(*self)
        } else {
            Ok(*rhs)
        }
    }

    fn times(&self, rhs: &Self) -> (r: Result<Self, SemiringError>) {
        if self.value == INFINITY || rhs.value == INFINITY {
            return Ok(TropicalWeight { value: INFINITY });
        }
        let s: i128 = self.value as i128 + rhs.value as i128;
        if s >= i64::MIN as i128 && s < INFINITY as i128 {
            Ok(TropicalWeight { value: s as i64 })
        } else {
            Err(SemiringError::Overflow)
        }
    }

    fn is_zero(&self) -> (r: bool) {
        self.value == INFINITY
    }

    fn is_one(&self) -> (r: bool) {
        self.value == 0
    }
}

impl WeaklyDivisibleSemiring for TropicalWeight {
    /// `a / b = a - b`; dividing by zero (+inf) is refused, zero divided stays zero.
    open spec fn divide_spec(self, rhs: Self) -> Result<Self, SemiringError> {
        if rhs.value == INFINITY {
            Err(SemiringError::NotDivisible)
        } else if self.value == INFINITY {
            Ok(self)
        } else {
            let s = self.value - rhs.value;
            if i64::MIN <= s && s < INFINITY {
                Ok(TropicalWeight { value: s as i64 })
            } else {
                Err(SemiringError::Overflow)
            }
        }
    }

    open spec fn inverse_spec(self) -> Result<Self, SemiringError> {
        TropicalWeight { value: 0 }.divide_spec(self)
    }

    fn divide(&self, rhs: &Self) -> (r: Result<Self, SemiringError>) {
        if rhs.value == INFINITY {
            return Err(SemiringError::NotDivisible);
        }
        if self.value == INFINITY {
            return Ok(*self);
        }
        let s: i128 = self.value as i128 - rhs.value as i128;
        if s >= i64::MIN as i128 && s < INFINITY as i128 {
            Ok(TropicalWeight { value: s as i64 })
        } else {
            Err(SemiringError::Overflow)
        }
    }

    fn inverse(&self) -> (r: Result<Self, SemiringError>) {
        TropicalWeight { value: 0 }.divide(self)
    }
}

impl CompleteSemiring for TropicalWeight {
}

impl StarSemiring for TropicalWeight {
    /// `a* = min(0, a, 2a, ...)`: zero for a non-negative `a`; a negative one has
    /// no closure in this representation.
    open spec fn closure_spec(self) -> Result<Self, SemiringError> {
        if self.value >= 0 {
            Ok(TropicalWeight { value: 0 })
        } else {
            Err(SemiringError::Invalid)
        }
    }

    fn closure(&self) -> (r: Result<Self, SemiringError>) {
        if self.value >= 0 {
            Ok(TropicalWeight { value: 0 })
        } else {
            Err(SemiringError::Invalid)
        }
    }
}

impl WeightQuantize for TropicalWeight {
    fn quantize(&self, delta: i64) -> (r: Result<Self, SemiringError>) {
        match quantize_value(self.value, delta) {
            Some(q) => Ok(TropicalWeight { value: q }),
            None => Err(SemiringError::Overflow),
        }
    }
}

/// In the tropical semiring `times` is also commutative, and associative
/// wherever the products fit (fixed-point rounding keeps the probability
/// semiring from both this and distributivity).
pub proof fn lemma_tropical_times_monoid(a: TropicalWeight, b: TropicalWeight, c: TropicalWeight)
    ensures
        a.times_spec(TropicalWeight::one_spec()) == Ok::<TropicalWeight, SemiringError>(a),
        a.times_spec(TropicalWeight::zero_spec()) == Ok::<TropicalWeight, SemiringError>(TropicalWeight::zero_spec()),
        a.times_spec(b) == b.times_spec(a),
        (a.times_spec(b) matches Ok(ab) && b.times_spec(c) matches Ok(bc) && ab.times_spec(c) is Ok && a.times_spec(
            bc,
        ) is Ok) ==> a.times_spec(b)->Ok_0.times_spec(c) == a.times_spec(b.times_spec(c)->Ok_0),
{
}

/// In the tropical semiring `times` distributes over `plus` wherever the
/// products fit.
pub proof fn lemma_tropical_distributive(a: TropicalWeight, b: TropicalWeight, c: TropicalWeight)
    ensures
        (a.times_spec(b) is Ok && a.times_spec(c) is Ok) ==> a.times_spec(b.plus_spec(c)->Ok_0) == a.times_spec(
            b,
        )->Ok_0.plus_spec(a.times_spec(c)->Ok_0),
{
}

/// The probability semiring `(R+, +, *, 0, 1)` on fixed-point values; products
/// are rounded down to the representation's precision. Negative operands are
/// not weights of this semiring.
#[derive(Clone, Copy, Debug, PartialEq, Eq, Structural)]
pub struct ProbabilityWeight {
    pub value: i64,
}

impl Semiring for ProbabilityWeight {
    /// Probabilities are not negative.
    open spec fn valid(self) -> bool {
        self.value >= 0
    }

    proof fn lemma_zero_one_valid() {
    }

    proof fn lemma_new_of_value(w: Self) {
    }

    proof fn lemma_plus_laws(a: Self, b: Self, c: Self) {
    }

    proof fn lemma_times_laws(a: Self) {
        assert((a.value * WEIGHT_SCALE) / (WEIGHT_SCALE as int) == a.value) by {
            vstd::arithmetic::div_mod::lemma_div_multiples_vanish(a.value as int, WEIGHT_SCALE as int);
        }
        assert((WEIGHT_SCALE * a.value) / (WEIGHT_SCALE as int) == a.value) by {
            vstd::arithmetic::div_mod::lemma_div_multiples_vanish(a.value as int, WEIGHT_SCALE as int);
        }
    }

    proof fn lemma_one_ne_zero() {
    }

    proof fn lemma_value_of_new(value: i64) {
    }

    open spec fn zero_spec() -> Self {
        ProbabilityWeight { value: 0 }
    }

    open spec fn one_spec() -> Self {
        ProbabilityWeight { value: WEIGHT_SCALE }
    }

    open spec fn new_spec(value: i64) -> Self {
        ProbabilityWeight { value }
    }

    open spec fn value_spec(self) -> i64 {
        self.value
    }

    open spec fn plus_spec(self, rhs: Self) -> Result<Self, SemiringError> {
        if self.value < 0 || rhs.value < 0 {
            Err(SemiringError::Invalid)
        } else if self.value + rhs.value > i64::MAX {
            Err(SemiringError::Overflow)
        } else {
            Ok(ProbabilityWeight { value: (self.value + rhs.value) as i64 })
        }
    }

    open spec fn times_spec(self, rhs: Self) -> Result<Self, SemiringError> {
        if self.value < 0 || rhs.value < 0 {
            Err(SemiringError::Invalid)
        } else {
            let p = (self.value * rhs.value) / (WEIGHT_SCALE as int);
            if p > i64::MAX {
                Err(SemiringError::Overflow)
            } else {
                Ok(ProbabilityWeight { value: p as i64 })
            }
        }
    }

    fn zero() -> (r: Self) {
        ProbabilityWeight { value: 0 }
    }

    fn one() -> (r: Self) {
        ProbabilityWeight { value: WEIGHT_SCALE }
    }

    fn new(value: i64) -> (r: Self) {
        ProbabilityWeight { value }
    }

    fn value(&self) -> (r: i64) {
        self.value
    }

    fn plus(&self, rhs: &Self) -> (r: Result<Self, SemiringError>) {
        if self.value < 0 || rhs.value < 0 {
            return Err(SemiringError::Invalid);
        }
        let s: i128 = self.value as i128 + rhs.value as i128;
        if s > i64::MAX as i128 {
            Err(SemiringError::Overflow)
        } else {
            Ok(ProbabilityWeight { value: s as i64 })
        }
    }

    fn times(&self, rhs: &Self) -> (r: Result<Self, SemiringError>) {
        if self.value < 0 || rhs.value < 0 {
            return Err(SemiringError::Invalid);
        }
        let a: u128 = self.value as u128;
        let b: u128 = rhs.value as u128;
        assert(a * b <= (i64::MAX as int) * (i64::MAX as int)) by (nonlinear_arith)
            requires
                0 <= a <= i64::MAX,
                0 <= b <= i64::MAX,
        ;
        let p: u128 = (a * b) / (WEIGHT_SCALE as u128);
        if p > i64::MAX as u128 {
            Err(SemiringError::Overflow)
        } else {
            Ok(ProbabilityWeight { value: p as i64 })
        }
    }

    fn is_zero(&self) -> (r: bool) {
        self.value == 0
    }

    fn is_one(&self) -> (r: bool) {
        self.value == WEIGHT_SCALE
    }
}

impl WeightQuantize for ProbabilityWeight {
    fn quantize(&self, delta: i64) -> (r: Result<Self, SemiringError>) {
        match quantize_value(self.value, delta) {
            Some(q) => Ok(ProbabilityWeight { value: q }),
            None => Err(SemiringError::Overflow),
        }
    }
}

} // verus!
