//! The scalar that the continuous kernels compute with.
//!
//! A kernel is stated operation by operation over [`Scalar`], so that what it
//! returns is fixed down to the last bit once the models of the scalar are.
//! [`Thousandths`] is the scalar of this library: exact, and the same on every
//! machine.
use vstd::prelude::*;

verus! {

/// A number with the operations that the kernels need.
///
/// No law of arithmetic is asked of them: rounding and overflow are the
/// scalar's own. Each is a function of its operands, and the model beside it
/// names that function. A scalar inside the verified code gives each model its
/// meaning, and its methods are proved against it. A scalar from outside, such
/// as a machine float, cannot name the models and keeps the defaults below: one
/// fixed but unknown value for every operand. What a contract says of the
/// values of such a scalar is then not a fact about it; what the contract says
/// of lengths, spins, energies and the order of draws is.
pub trait Scalar: Copy {
    /// The value of `m` thousandths.
    open spec fn of_milli(m: int) -> Self {
        arbitrary()
    }

    /// The value of `num / den`.
    open spec fn fraction(num: nat, den: nat) -> Self {
        arbitrary()
    }

    /// The sum.
    open spec fn plus(self, other: Self) -> Self {
        arbitrary()
    }

    /// The difference.
    open spec fn minus(self, other: Self) -> Self {
        arbitrary()
    }

    /// The product.
    open spec fn times(self, other: Self) -> Self {
        arbitrary()
    }

    /// The quotient.
    open spec fn over(self, other: Self) -> Self {
        arbitrary()
    }

    /// The square root.
    open spec fn root(self) -> Self {
        arbitrary()
    }

    /// Less than.
    open spec fn under(self, other: Self) -> bool {
        arbitrary()
    }

    /// Greater than or equal to.
    open spec fn reaches(self, other: Self) -> bool {
        arbitrary()
    }

    /// The value of `m` thousandths.
    fn from_milli(m: i32) -> (r: Self)
        ensures
            r == Self::of_milli(m as int),
    ;

    /// The value of `num / den`.
    fn ratio(num: usize, den: usize) -> (r: Self)
        ensures
            r == Self::fraction(num as nat, den as nat),
    ;

    /// `self + other`.
    fn sum(self, other: Self) -> (r: Self)
        ensures
            r == self.plus(other),
    ;

    /// `self - other`.
    fn difference(self, other: Self) -> (r: Self)
        ensures
            r == self.minus(other),
    ;

    /// `self * other`.
    fn product(self, other: Self) -> (r: Self)
        ensures
            r == self.times(other),
    ;

    /// `self / other`.
    fn quotient(self, other: Self) -> (r: Self)
        ensures
            r == self.over(other),
    ;

    /// The square root of `self`.
    fn square_root(self) -> (r: Self)
        ensures
            r == self.root(),
    ;

    /// `self < other`.
    fn less(self, other: Self) -> (r: bool)
        ensures
            r == self.under(other),
    ;

    /// `self >= other`.
    fn at_least(self, other: Self) -> (r: bool)
        ensures
            r == self.reaches(other),
    ;
}

/// Zero.
pub open spec fn nil<R: Scalar>() -> R {
    R::of_milli(0)
}

/// One.
pub open spec fn unit<R: Scalar>() -> R {
    R::of_milli(1000)
}

/// The operations compute without rounding: `val` says which real number a
/// scalar stands for. Laws of the continuous kernels are stated for such a
/// scalar; a machine float meets them up to its rounding.
pub open spec fn exact<R: Scalar>(val: spec_fn(R) -> real) -> bool {
    &&& forall|m: int| val(#[trigger] R::of_milli(m)) == m as real / 1000int as real
    &&& forall|num: nat, den: nat|
        den > 0 ==> val(#[trigger] R::fraction(num, den)) == num as real / den as real
    &&& forall|a: R, b: R| val(#[trigger] a.plus(b)) == val(a) + val(b)
    &&& forall|a: R, b: R| val(#[trigger] a.minus(b)) == val(a) - val(b)
    &&& forall|a: R, b: R| val(#[trigger] a.times(b)) == val(a) * val(b)
    &&& forall|a: R, b: R|
        val(b) != 0int as real ==> val(#[trigger] a.over(b)) == val(a) / val(b)
    &&& forall|a: R, b: R| #[trigger] a.under(b) <==> val(a) < val(b)
    &&& forall|a: R, b: R| #[trigger] a.reaches(b) <==> val(a) >= val(b)
    &&& forall|a: R|
        val(a) >= 0int as real ==> val(#[trigger] a.root()) >= 0int as real && val(a.root()) * val(
            a.root(),
        ) == val(a)
}

/// `-x`, as `-1 * x`.
pub open spec fn opposite<R: Scalar>(x: R) -> R {
    R::of_milli(-1000).times(x)
}

/// Zero.
pub fn zero<R: Scalar>() -> (r: R)
    ensures
        r == nil::<R>(),
{
    R::from_milli(0)
}

/// One.
pub fn one<R: Scalar>() -> (r: R)
    ensures
        r == unit::<R>(),
{
    R::from_milli(1000)
}

/// The distance of `x` from 0.
pub open spec fn distance<R: Scalar>(x: R) -> R {
    if x.under(nil()) {
        opposite(x)
    } else {
        x
    }
}

/// The distance of `x` from 0.
pub fn absolute<R: Scalar>(x: R) -> (r: R)
    ensures
        r == distance(x),
{
    if x.less(zero()) {
        R::from_milli(-1000).product(x)
    } else {
        x
    }
}

/// `x` is neither above nor below 0.
pub open spec fn vanishes<R: Scalar>(x: R) -> bool {
    x.reaches(nil()) && nil::<R>().reaches(x)
}

/// Whether `x` is neither above nor below 0.
pub fn is_zero<R: Scalar>(x: R) -> (r: bool)
    ensures
        r == vanishes(x),
{
    x.at_least(zero()) && zero::<R>().at_least(x)
}

/// `x` has an ordinary value: the difference with itself is 0.
pub open spec fn ordinary<R: Scalar>(x: R) -> bool {
    vanishes(x.minus(x))
}

/// Whether `x` has an ordinary value.
pub fn is_ordinary<R: Scalar>(x: R) -> (r: bool)
    ensures
        r == ordinary(x),
{
    is_zero(x.difference(x))
}

/// Sum of the first `k` products.
pub open spec fn pair_sum<R: Scalar>(a: Seq<R>, b: Seq<R>, k: int) -> R
    decreases k,
{
    if k <= 0 {
        nil()
    } else {
        pair_sum(a, b, k - 1).plus(a[k - 1].times(b[k - 1]))
    }
}

/// Sum of the products of two vectors.
pub fn sum_pairs<R: Scalar>(a: &Vec<R>, b: &Vec<R>) -> (r: R)
    requires
        a@.len() == b@.len(),
    ensures
        r == pair_sum(a@, b@, a@.len() as int),
{
    let mut r: R = zero();
    let mut i: usize = 0;
    while i < a.len()
        invariant
            a@.len() == b@.len(),
            i <= a@.len(),
            r == pair_sum(a@, b@, i as int),
        decreases a@.len() - i,
    {
        r = r.sum(a[i].product(b[i]));
        i = i + 1;
    }
    r
}

/// `m` zeros.
pub(crate) fn zeros<R: Scalar>(m: usize) -> (v: Vec<R>)
    ensures
        v@.len() == m,
        forall|i: int| 0 <= i < m ==> #[trigger] v@[i] == nil::<R>(),
{
    let mut v: Vec<R> = Vec::with_capacity(m);
    while v.len() < m
        invariant
            v@.len() <= m,
            forall|i: int| 0 <= i < v@.len() ==> #[trigger] v@[i] == nil::<R>(),
        decreases m - v@.len(),
    {
        v.push(zero());
    }
    v
}

/// A copy of a vector of scalars.
pub(crate) fn copy_scalars<R: Scalar>(v: &Vec<R>) -> (c: Vec<R>)
    ensures
        c@ == v@,
{
    let mut c: Vec<R> = Vec::with_capacity(v.len());
    let mut i: usize = 0;
    while i < v.len()
        invariant
            i <= v@.len(),
            c@ == v@.take(i as int),
        decreases v@.len() - i,
    {
        c.push(v[i]);
        i = i + 1;
        assert(c@ =~= v@.take(i as int));
    }
    assert(v@.take(v@.len() as int) =~= v@);
    c
}

/// A whole number of thousandths, stopped at the range of `i64`.
#[derive(Debug, Clone, Copy, PartialEq, Eq, Structural)]
pub struct Thousandths(
    /// The number of thousandths.
    pub i64,
);

/// `x` stopped at the range of `i64`.
pub open spec fn stopped(x: int) -> i64 {
    if x > i64::MAX {
        i64::MAX
    } else if x < i64::MIN {
        i64::MIN
    } else {
        x as i64
    }
}

fn stop(x: i128) -> (r: i64)
    ensures
        r == stopped(x as int),
{
    if x > i64::MAX as i128 {
        i64::MAX
    } else if x < i64::MIN as i128 {
        i64::MIN
    } else {
        x as i64
    }
}

/// The distance from zero.
pub open spec fn magnitude(x: int) -> int {
    if x < 0 {
        -x
    } else {
        x
    }
}

fn size_of(x: i64) -> (r: u128)
    ensures
        r == magnitude(x as int),
        r <= 0x8000_0000_0000_0000,
{
    if x < 0 {
        (-(x as i128)) as u128
    } else {
        x as u128
    }
}

/// `size` with a sign, stopped at the range of `i64`.
pub open spec fn with_sign(negative: bool, size: int) -> i64 {
    stopped(
        if negative {
            -size
        } else {
            size
        },
    )
}

fn signed(negative: bool, size: u128) -> (r: i64)
    ensures
        r == with_sign(negative, size as int),
{
    let kept: i128 = if size > 0xFFFF_FFFF_FFFF_FFFF {
        0xFFFF_FFFF_FFFF_FFFF
    } else {
        size as i128
    };
    if negative {
        stop(-kept)
    } else {
        stop(kept)
    }
}

/// The largest number whose square is at most `x`, sought below `bound`.
pub open spec fn floor_root(x: int, bound: int) -> int
    decreases bound,
{
    if bound <= 0 {
        0
    } else if bound * bound <= x {
        bound
    } else {
        floor_root(x, bound - 1)
    }
}

/// Above every square root of a value in range.
pub open spec fn root_bound() -> int {
    0x1_0000_0000_0000
}

proof fn lemma_floor_root(x: int, bound: int, r: int)
    requires
        0 <= r <= bound,
        r * r <= x,
        x < (r + 1) * (r + 1),
    ensures
        floor_root(x, bound) == r,
    decreases bound,
{
    if bound > r {
        assert(bound * bound >= (r + 1) * (r + 1)) by (nonlinear_arith)
            requires
                bound >= r + 1,
                r >= 0,
        ;
        lemma_floor_root(x, bound - 1, r);
    } else if bound > 0 {
        assert(bound * bound <= x);
    }
}

/// The largest number whose square is at most `x`.
fn whole_root(x: u128) -> (r: u128)
    requires
        x < 0x1_0000_0000_0000 * 0x1_0000_0000_0000,
    ensures
        r == floor_root(x as int, root_bound()),
        r < 0x1_0000_0000_0000,
{
    let mut low: u128 = 0;
    let mut high: u128 = 0x1_0000_0000_0000;
    while high - low > 1
        invariant
            low < high <= 0x1_0000_0000_0000,
            low * low <= x,
            x < high * high,
        decreases high - low,
    {
        let mid: u128 = low + (high - low) / 2;
        assert(mid * mid <= 0x1_0000_0000_0000 * 0x1_0000_0000_0000) by (nonlinear_arith)
            requires
                0 <= mid <= 0x1_0000_0000_0000,
        ;
        if mid * mid <= x {
            low = mid;
        } else {
            high = mid;
        }
    }
    proof {
        assert(high == low + 1);
        lemma_floor_root(x as int, root_bound(), low as int);
    }
    low
}

impl Scalar for Thousandths {
    open spec fn of_milli(m: int) -> Self {
        Thousandths(stopped(m))
    }

    open spec fn fraction(num: nat, den: nat) -> Self {
        Thousandths(
            if den == 0 {
                0
            } else {
                stopped((num * 1000) as int / den as int)
            },
        )
    }

    open spec fn plus(self, other: Self) -> Self {
        Thousandths(stopped(self.0 + other.0))
    }

    open spec fn minus(self, other: Self) -> Self {
        Thousandths(stopped(self.0 - other.0))
    }

    open spec fn times(self, other: Self) -> Self {
        Thousandths(
            with_sign(
                (self.0 < 0) != (other.0 < 0),
                (magnitude(self.0 as int) * magnitude(other.0 as int)) / 1000,
            ),
        )
    }

    open spec fn over(self, other: Self) -> Self {
        Thousandths(
            if other.0 == 0 {
                0
            } else {
                with_sign(
                    (self.0 < 0) != (other.0 < 0),
                    (magnitude(self.0 as int) * 1000) / magnitude(other.0 as int),
                )
            },
        )
    }

    open spec fn root(self) -> Self {
        Thousandths(
            if self.0 <= 0 {
                0
            } else {
                floor_root(self.0 * 1000, root_bound()) as i64
            },
        )
    }

    open spec fn under(self, other: Self) -> bool {
        self.0 < other.0
    }

    open spec fn reaches(self, other: Self) -> bool {
        self.0 >= other.0
    }

    fn from_milli(m: i32) -> (r: Self) {
        Thousandths(m as i64)
    }

    fn ratio(num: usize, den: usize) -> (r: Self) {
        if den == 0 {
            Thousandths(0)
        } else {
            let q: u128 = (num as u128 * 1000) / (den as u128);
            proof {
                assert(q <= num * 1000) by (nonlinear_arith)
                    requires
                        q == (num * 1000) as int / den as int,
                        den > 0,
                ;
            }
            Thousandths(stop(q as i128))
        }
    }

    fn sum(self, other: Self) -> (r: Self) {
        Thousandths(stop(self.0 as i128 + other.0 as i128))
    }

    fn difference(self, other: Self) -> (r: Self) {
        Thousandths(stop(self.0 as i128 - other.0 as i128))
    }

    fn product(self, other: Self) -> (r: Self) {
        let a: u128 = size_of(self.0);
        let b: u128 = size_of(other.0);
        assert(a * b <= 0x8000_0000_0000_0000 * 0x8000_0000_0000_0000) by (nonlinear_arith)
            requires
                0 <= a <= 0x8000_0000_0000_0000,
                0 <= b <= 0x8000_0000_0000_0000,
        ;
        Thousandths(signed((self.0 < 0) != (other.0 < 0), (a * b) / 1000))
    }

    fn quotient(self, other: Self) -> (r: Self) {
        if other.0 == 0 {
            Thousandths(0)
        } else {
            let a: u128 = size_of(self.0);
            let b: u128 = size_of(other.0);
            Thousandths(signed((self.0 < 0) != (other.0 < 0), (a * 1000) / b))
        }
    }

    fn square_root(self) -> (r: Self) {
        if self.0 <= 0 {
            Thousandths(0)
        } else {
            Thousandths(whole_root(self.0 as u128 * 1000) as i64)
        }
    }

    fn less(self, other: Self) -> (r: bool) {
        self.0 < other.0
    }

    fn at_least(self, other: Self) -> (r: bool) {
        self.0 >= other.0
    }
}

/// The value of a whole number. One past 32 bits is put together from digits of
/// 32 bits.
pub open spec fn whole_of<R: Scalar>(m: nat) -> R
    decreases m,
{
    if m <= u32::MAX {
        R::fraction(m, 1)
    } else {
        whole_of::<R>(m / 0x1_0000_0000).times(R::fraction(0x1_0000, 1)).times(
            R::fraction(0x1_0000, 1),
        ).plus(R::fraction(m % 0x1_0000_0000, 1))
    }
}

/// The value of a whole number.
pub fn whole<R: Scalar>(m: u128) -> (r: R)
    ensures
        r == whole_of::<R>(m as nat),
    decreases m,
{
    if m <= u32::MAX as u128 {
        R::ratio(m as usize, 1)
    } else {
        let high: R = whole(m / 0x1_0000_0000);
        let low: R = R::ratio((m % 0x1_0000_0000) as usize, 1);
        high.product(R::ratio(0x1_0000, 1)).product(R::ratio(0x1_0000, 1)).sum(low)
    }
}

/// The value of `m` thousandths, which are not negative.
pub open spec fn milli_of<R: Scalar>(m: nat) -> R {
    if m <= u32::MAX {
        R::fraction(m, 1000)
    } else {
        whole_of::<R>(m).over(R::fraction(1000, 1))
    }
}

/// The value of `m` thousandths, which are not negative.
pub fn thousandths<R: Scalar>(m: u128) -> (r: R)
    ensures
        r == milli_of::<R>(m as nat),
{
    if m <= u32::MAX as u128 {
        R::ratio(m as usize, 1000)
    } else {
        whole::<R>(m).quotient(R::ratio(1000, 1))
    }
}

/// The value of `m` thousandths.
pub open spec fn weight_of<R: Scalar>(m: int) -> R {
    if m < 0 {
        opposite(milli_of((-m) as nat))
    } else {
        milli_of(m as nat)
    }
}

/// The value of `m` thousandths.
pub fn weight<R: Scalar>(m: i128) -> (r: R)
    requires
        m > i128::MIN,
    ensures
        r == weight_of::<R>(m as int),
{
    let size: u128 = if m < 0 {
        (-m) as u128
    } else {
        m as u128
    };
    let value: R = thousandths(size);
    if m < 0 {
        R::from_milli(-1000).product(value)
    } else {
        value
    }
}

/// `exp` computes a true exponential `e`: sums become products, and it rises from
/// above 0.
pub open spec fn exponential<R: Scalar, E: Fn(R) -> R>(
    val: spec_fn(R) -> real,
    exp: E,
    e: spec_fn(real) -> real,
) -> bool {
    &&& forall|x: R, y: R| #[trigger] call_ensures(exp, (x,), y) ==> val(y) == e(val(x))
    &&& forall|a: real| #[trigger] e(a) > 0int as real
    &&& forall|a: real, b: real, c: real|
        #![trigger e(a), e(b), e(c)]
        c == a + b ==> e(c) == e(a) * e(b)
    &&& forall|a: real, b: real| #![trigger e(a), e(b)] a < b ==> e(a) < e(b)
}

/// In exact arithmetic the value of the whole number `m` is `m`.
pub proof fn lemma_whole_value<R: Scalar>(val: spec_fn(R) -> real, m: nat)
    requires
        exact(val),
    ensures
        val(whole_of::<R>(m)) == m as real,
    decreases m,
{
    if m <= u32::MAX {
        assert(val(R::fraction(m, 1)) == m as real / 1nat as real);
    } else {
        let (q, r) = (m / 0x1_0000_0000, m % 0x1_0000_0000);
        lemma_whole_value::<R>(val, q);
        assert(val(R::fraction(0x1_0000, 1)) == 0x1_0000nat as real / 1nat as real);
        assert(val(R::fraction(r, 1)) == r as real / 1nat as real);
        assert(m == 0x1_0000_0000 * q + r) by {
            vstd::arithmetic::div_mod::lemma_fundamental_div_mod(m as int, 0x1_0000_0000);
        }
        assert(q as real * 0x1_0000nat as real * 0x1_0000nat as real + r as real == m as real)
            by (nonlinear_arith)
            requires
                m == 0x1_0000_0000 * q + r,
        ;
    }
}

/// In exact arithmetic the value of `m` thousandths is `m / 1000`.
pub proof fn lemma_weight_value<R: Scalar>(val: spec_fn(R) -> real, m: int)
    requires
        exact(val),
    ensures
        val(weight_of::<R>(m)) == m as real / 1000int as real,
{
    let size: nat = if m < 0 {
        (-m) as nat
    } else {
        m as nat
    };
    lemma_whole_value::<R>(val, size);
    lemma_whole_value::<R>(val, 1000);
    assert(val(R::of_milli(-1000)) == -1000int as real / 1000int as real);
}

/// In exact arithmetic every value is ordinary, 0 is 0 and 1 is 1.
pub proof fn lemma_exact_values<R: Scalar>(val: spec_fn(R) -> real, x: R)
    requires
        exact(val),
    ensures
        ordinary(x),
        val(nil::<R>()) == 0int as real,
        val(unit::<R>()) == 1int as real,
        val(opposite(x)) == -val(x),
        val(distance(x)) == if val(x) < 0int as real {
            -val(x)
        } else {
            val(x)
        },
        vanishes(x) <==> val(x) == 0int as real,
{
    assert(val(nil::<R>()) == 0int as real / 1000int as real);
    assert(val(unit::<R>()) == 1000int as real / 1000int as real);
    assert(val(R::of_milli(-1000)) == -1000int as real / 1000int as real);
    let v = val(x);
    assert(-1int as real * v == -v) by (nonlinear_arith);
}

} // verus!
