use lights_out::bit::Bit;

#[test]
fn addition_is_exclusive_or() {
    assert_eq!(Bit::Off + Bit::Off, Bit::Off);
    assert_eq!(Bit::Off + Bit::On, Bit::On);
    assert_eq!(Bit::On + Bit::Off, Bit::On);
    assert_eq!(Bit::On + Bit::On, Bit::Off);
}

#[test]
fn multiplication_is_conjunction() {
    assert_eq!(Bit::Off * Bit::Off, Bit::Off);
    assert_eq!(Bit::Off * Bit::On, Bit::Off);
    assert_eq!(Bit::On * Bit::Off, Bit::Off);
    assert_eq!(Bit::On * Bit::On, Bit::On);
}

#[test]
fn off_is_the_additive_identity() {
    for b in [Bit::Off, Bit::On] {
        assert_eq!(b + Bit::Off, b);
        assert_eq!(Bit::Off + b, b);
    }
}

#[test]
fn on_is_the_multiplicative_identity() {
    for b in [Bit::Off, Bit::On] {
        assert_eq!(b * Bit::On, b);
        assert_eq!(Bit::On * b, b);
    }
}

#[test]
fn accumulating_addition() {
    let mut b = Bit::On;
    b += Bit::On;
    assert_eq!(b, Bit::Off);
    b += Bit::On;
    assert_eq!(b, Bit::On);
    b += Bit::Off;
    assert_eq!(b, Bit::On);
}

#[test]
fn accumulating_multiplication() {
    let mut b = Bit::On;
    b *= Bit::On;
    assert_eq!(b, Bit::On);
    b *= Bit::Off;
    assert_eq!(b, Bit::Off);
    b *= Bit::On;
    assert_eq!(b, Bit::Off);
}

#[test]
fn bits_render_as_binary_digits() {
    assert_eq!(Bit::Off.to_char(), '0');
    assert_eq!(Bit::On.to_char(), '1');
    assert_eq!(Bit::Off.to_string(), "0");
    assert_eq!(Bit::On.to_string(), "1");
    assert_eq!(Bit::Off.digit_text(), "0");
    assert_eq!(Bit::On.digit_text(), "1");
}
