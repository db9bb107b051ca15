use humanoid::{Cb32u128, Cb32u128ParseError};

#[test]
fn formatting_works() {
    assert_eq!(Cb32u128(0).to_string(), "0");
    assert_eq!(Cb32u128(32).to_string(), "10");
    assert_eq!(Cb32u128(0b11111_00000).to_string(), "Z0");
    assert_eq!(
        Cb32u128(u128::MAX).to_string(),
        "7ZZZZZZZZZZZZZZZZZZZZZZZZZ"
    );
}

#[test]
fn parsing_works() {
    assert_eq!("0".parse(), Ok(Cb32u128(0)));
    assert_eq!("10".parse(), Ok(Cb32u128(32)));
    assert_eq!("Z0".parse(), Ok(Cb32u128(0b11111_00000)));
    assert_eq!(
        "7ZZZZZZZZZZZZZZZZZZZZZZZZZ".parse(),
        Ok(Cb32u128(u128::MAX))
    );

    assert_eq!(
        "/".parse::<Cb32u128>(),
        Err(Cb32u128ParseError::InvalidDigit('/'))
    );
    assert_eq!(
        "ą".parse::<Cb32u128>(),
        Err(Cb32u128ParseError::InvalidDigit('ą'))
    );
    assert_eq!(
        "2137💀".parse::<Cb32u128>(),
        Err(Cb32u128ParseError::InvalidDigit('💀'))
    );

    assert_eq!(
        "42069*".parse::<Cb32u128>(),
        Err(Cb32u128ParseError::UnsupportedCheckDigit('*'))
    );
}

#[test]
fn render_then_parse_gives_value_back() {
    for v in [0u128, 1, 31, 32, 992, 123_456_789, u128::MAX / 3, u128::MAX - 1, u128::MAX] {
        let s = Cb32u128(v).to_string();
        assert_eq!(Cb32u128::parse(&s), Ok(Cb32u128(v)));
    }
}

#[test]
fn rendered_length_and_leading_digit() {
    assert_eq!(Cb32u128(31).to_string(), "Z");
    assert_eq!(Cb32u128(u128::MAX).to_string().len(), 26);
    assert_eq!(Cb32u128(1u128 << 125).to_string(), "10000000000000000000000000");
    for v in [1u128, 33, 1 << 64, u128::MAX] {
        let s = Cb32u128(v).to_string();
        assert!(!s.starts_with('0'));
        assert!(!s.is_empty() && s.len() <= 26);
    }
}

#[test]
fn aliases_and_case() {
    assert_eq!(Cb32u128::parse("O"), Ok(Cb32u128(0)));
    assert_eq!(Cb32u128::parse("o"), Ok(Cb32u128(0)));
    assert_eq!(Cb32u128::parse("0"), Ok(Cb32u128(0)));
    for s in ["l", "L", "I", "i", "1"] {
        assert_eq!(Cb32u128::parse(s), Ok(Cb32u128(1)));
    }
    assert_eq!(Cb32u128::parse("z0"), Ok(Cb32u128(992)));
    assert_eq!(Cb32u128::parse("2137papa"), Cb32u128::parse("2137PAPA"));
}

#[test]
fn empty_parses_to_zero() {
    assert_eq!(Cb32u128::parse(""), Ok(Cb32u128(0)));
}

#[test]
fn overlong_input_wraps() {
    assert_eq!(Cb32u128::parse("100000000000000000000000000"), Ok(Cb32u128(0)));
    assert_eq!(Cb32u128::parse("1000000000000000000000000001"), Ok(Cb32u128(1)));
}

#[test]
fn check_digits_are_rejected() {
    for c in ['*', '~', '$', '=', 'U', 'u'] {
        let s = format!("12{}", c);
        assert_eq!(Cb32u128::parse(&s), Err(Cb32u128ParseError::UnsupportedCheckDigit(c)));
    }
    assert_eq!(Cb32u128::parse("1/*"), Err(Cb32u128ParseError::InvalidDigit('/')));
    assert_eq!(Cb32u128::parse("*/"), Err(Cb32u128ParseError::UnsupportedCheckDigit('*')));
    assert_eq!(Cb32u128::parse("1 2"), Err(Cb32u128ParseError::InvalidDigit(' ')));
}

#[test]
fn rendered_length_is_five_bits_per_digit() {
    for v in [1u128, 31, 32, 1023, 1024, 1 << 100, u128::MAX] {
        let bits = 128 - v.leading_zeros() as usize;
        assert_eq!(Cb32u128(v).to_string().len(), (bits + 4) / 5);
    }
    assert_eq!(Cb32u128(0).to_string().len(), 1);
}
