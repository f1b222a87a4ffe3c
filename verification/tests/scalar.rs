use quip_miner_cpu::scalar::{Scalar, Thousandths};

#[derive(Clone, Copy, Debug, PartialEq)]
struct Single(f32);

impl Scalar for Single {
    fn from_milli(m: i32) -> Self {
        Single((m as f64 / 1000.0) as f32)
    }
    fn ratio(num: usize, den: usize) -> Self {
        Single(num as f32 / den as f32)
    }
    fn sum(self, other: Self) -> Self {
        Single(self.0 + other.0)
    }
    fn difference(self, other: Self) -> Self {
        Single(self.0 - other.0)
    }
    fn product(self, other: Self) -> Self {
        Single(self.0 * other.0)
    }
    fn quotient(self, other: Self) -> Self {
        Single(self.0 / other.0)
    }
    fn square_root(self) -> Self {
        Single(self.0.sqrt())
    }
    fn less(self, other: Self) -> bool {
        self.0 < other.0
    }
    fn at_least(self, other: Self) -> bool {
        self.0 >= other.0
    }
}

#[test]
fn a_float_is_a_scalar() {
    let half = Single::from_milli(500);
    assert_eq!(half.sum(half), Single(1.0));
    assert_eq!(Single::ratio(1, 100_000_000), Single(1e-8));
    assert_eq!(Single::from_milli(900), Single(0.9));
}

#[test]
fn thousandths_are_exact() {
    let a = Thousandths(1500);
    let b = Thousandths(-250);
    assert_eq!(a.sum(b), Thousandths(1250));
    assert_eq!(a.difference(b), Thousandths(1750));
    assert_eq!(a.product(b), Thousandths(-375));
    assert_eq!(a.quotient(b), Thousandths(-6000));
    assert_eq!(a.quotient(Thousandths(0)), Thousandths(0));
    assert_eq!(Thousandths(2_250).square_root(), Thousandths(1500));
    assert_eq!(Thousandths(-4).square_root(), Thousandths(0));
    assert_eq!(Thousandths::ratio(1, 3), Thousandths(333));
    assert_eq!(Thousandths::ratio(1, 0), Thousandths(0));
    assert_eq!(Thousandths::from_milli(-7), Thousandths(-7));
    assert!(b.less(a) && !a.less(a));
    assert!(a.at_least(a) && !b.at_least(a));
}

#[test]
fn thousandths_stop_at_their_range() {
    let top = Thousandths(i64::MAX);
    let bottom = Thousandths(i64::MIN);
    assert_eq!(top.sum(Thousandths(1)), top);
    assert_eq!(bottom.difference(Thousandths(1)), bottom);
    assert_eq!(top.product(top), top);
    assert_eq!(top.product(bottom), bottom);
    assert_eq!(bottom.quotient(Thousandths(1)), bottom);
}
