use num::BigInt;
use stack_computable::prescaled_value::PrescaledValue;
use stack_computable::rational::Rational;
use stack_computable::stack_computable::StackComputable;

#[test]
fn operator_indices() {
    let a = StackComputable::rational(Rational::fraction(1, 2).unwrap());
    let b = StackComputable::rational(Rational::fraction(1, 3).unwrap());
    let c = a.add(&b);
    assert_eq!(c.operator_argument_indices(2), (Some(0), Some(1)));
    let d = c.clone().add(&c);
    assert_eq!(d.operator_argument_indices(5), (Some(3), Some(4)));
    assert_eq!(d.operator_argument_indices(6), (Some(2), Some(5)));
}

#[test]
fn can_approximate_rationals() {
    let a = StackComputable::rational(Rational::fraction(1, 2).unwrap());
    let x = a.approximate(-1).unwrap();
    assert_eq!(x, BigInt::from(1u64));

    let x = a.approximate(-2).unwrap();
    assert_eq!(x, BigInt::from(2u64));

    let x = a.approximate(-3).unwrap();
    assert_eq!(x, BigInt::from(4u64));

    let a = StackComputable::rational(Rational::fraction(4, 3).unwrap());
    let x = a.approximate(-10).unwrap();
    assert_eq!(x, BigInt::from(0b10101010101_u64));
    let x = a.approximate(0).unwrap();
    assert_eq!(x, BigInt::from(1_u64));
}

#[test]
fn can_approximate_ints() {
    // 0b101011 == 43
    let a = StackComputable::integer(BigInt::from(0b101011_u64));
    let x = a.approximate(0).unwrap();
    assert_eq!(x, BigInt::from(0b101011_u64));

    let x = a.approximate(2).unwrap();
    assert_eq!(x, BigInt::from(0b1011_u64));

    let x = a.approximate(-2).unwrap();
    assert_eq!(x, BigInt::from(0b101011_00_u64));
}

#[test]
fn addition() {
    let a = StackComputable::rational(Rational::fraction(1, 2).unwrap());
    let b = StackComputable::rational(Rational::fraction(1, 3).unwrap());
    let c = a.add(&b);
    assert_eq!(c.approximate(-5).unwrap(), BigInt::from(0b11011_u64));
    assert_eq!(c.approximate(-10).unwrap(), BigInt::from(0b1101010101_u64));

    let d = c.clone().add(&c);
    assert_eq!(d.approximate(-5).unwrap(), BigInt::from(0b110110_u64));
    assert_eq!(d.approximate(-10).unwrap(), BigInt::from(0b11010101011_u64));
}

#[test]
fn multiplication() {
    let a = StackComputable::rational(Rational::fraction(1, 2).unwrap());
    let b = StackComputable::rational(Rational::fraction(1, 3).unwrap());
    let c = a.mul(&b);
    assert_eq!(c.approximate(-5).unwrap(), BigInt::from(0b00101_u64));
    assert_eq!(c.approximate(-10).unwrap(), BigInt::from(0b0010101011_u64));

    let d = c.clone().mul(&c);
    assert_eq!(d.approximate(-5).unwrap(), BigInt::from(0b00001_u64));
    assert_eq!(d.approximate(-10).unwrap(), BigInt::from(0b0000011100_u64));

    let a = StackComputable::rational(Rational::fraction(5, 1).unwrap());
    let b = StackComputable::rational(Rational::fraction(1, 3).unwrap());
    let c = a.mul(&b);
    assert_eq!(c.approximate(-5).unwrap(), BigInt::from(0b1_10101_u64));
}

#[test]
fn square_root() {
    let a = StackComputable::rational(Rational::fraction(1, 4).unwrap());
    let b = a.sqrt();
    assert_eq!(b.approximate(-4).unwrap(), BigInt::from(8u64));

    let a = StackComputable::rational(Rational::fraction(2, 1).unwrap());
    let b = a.sqrt();
    assert_eq!(b.approximate(-13).unwrap(), BigInt::from(0b1_0110101000001_u64));
}

#[test]
fn invert() {
    let a = StackComputable::rational(Rational::fraction(1, 4).unwrap());
    let b = a.inverse();
    assert_eq!(b.approximate(0).unwrap(), BigInt::from(0b100_u64));

    let a = StackComputable::rational(Rational::fraction(5, 3).unwrap());
    let b = a.inverse();
    assert_eq!(b.approximate(0).unwrap(), BigInt::from(0b1_u64));
    assert_eq!(b.approximate(-6).unwrap(), BigInt::from(0b0_100110_u64));
}

#[test]
fn invert_big_number() {
    let a = StackComputable::rational(Rational::fraction(0b1_000_000_000_000, 1).unwrap());
    let b = a.inverse();
    assert_eq!(b.approximate(0).unwrap(), BigInt::from(0b0_u64));
    assert_eq!(b.approximate(-20).unwrap(), BigInt::from(0b100000000_u64));
}

#[test]
fn exponential() {
    // exp only works on numbers between 0 and 0.5.
    let a = StackComputable::rational(Rational::fraction(1, 4).unwrap());
    let b = a.exp();
    // 1.010010001011010111100011110000111110100000011000011001100111..._2
    assert_eq!(b.approximate(-5).unwrap(), BigInt::from(0b1_01001_u64));
    assert_eq!(b.approximate(-10).unwrap(), BigInt::from(0b1_0100100011_u64));
    assert_eq!(
        b.approximate(-60).unwrap(),
        BigInt::from(0b1_010010001011010111100011110000111110100000011000011001100111_u64)
    );
}

#[test]
fn ln_one_plus_x() {
    let a = StackComputable::rational(Rational::fraction(1, 4).unwrap());
    let b = a.ln_one_plus_x();
    // 0.0011100100011111111011111000111100110101001101000100001101011..._2
    assert_eq!(b.approximate(-5).unwrap(), BigInt::from(0b0_00111_u64));
    assert_eq!(b.approximate(-10).unwrap(), BigInt::from(0b0_0011100100_u64));
    assert_eq!(
        b.approximate(-60).unwrap(),
        BigInt::from(0b0_001110010001111111101111100011110011010100110100010000110110_u64)
    );
}

#[test]
fn cos() {
    // cos only works on numbers with |x| < 1.
    let a = StackComputable::rational(Rational::fraction(1, 4).unwrap());
    let b = a.cos();
    //  0.11111000000010101010010011111011111011110111010100001011101001..._2
    assert_eq!(b.approximate(-5).unwrap(), BigInt::from(0b0_11111_u64));
    assert_eq!(b.approximate(-10).unwrap(), BigInt::from(0b0_1111100000_u64));
    assert_eq!(
        b.approximate(-60).unwrap(),
        BigInt::from(0b0_111110000000101010100100111110111110111101110101000010111010_u64)
    );
}

#[test]
fn rescale_value() {
    // The value 1
    let a = PrescaledValue(BigInt::from(0b1_00_u64), -2);
    let b = a.clone().rescale(-1).unwrap();
    assert_eq!(b, PrescaledValue(BigInt::from(0b1_0_u64), -1));
}
