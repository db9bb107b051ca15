use humanoid::{Cuid2, Cuid2ParseError};

#[test]
fn parse_accepts_24_digits() {
    let c = Cuid2::parse("123456789012345678901234").unwrap();
    assert_eq!(c.value(), 659821450991580967160193750008251600);
    assert_eq!(c.to_string(), "123456789012345678901234");
}

#[test]
fn parse_accepts_uppercase() {
    assert_eq!(
        Cuid2::parse("ABCDEFGHIJKLMNOPQRSTUVWX"),
        Cuid2::parse("abcdefghijklmnopqrstuvwx")
    );
}

#[test]
fn parse_wrong_length() {
    assert_eq!(Cuid2::parse(""), Err(Cuid2ParseError::WrongLength));
    assert_eq!(Cuid2::parse("abc"), Err(Cuid2ParseError::WrongLength));
    assert_eq!(Cuid2::parse("1234567890123456789012345"), Err(Cuid2ParseError::WrongLength));
    assert_eq!(Cuid2::parse("12345678901234567890123ą"), Err(Cuid2ParseError::WrongLength));
}

#[test]
fn parse_illegal_character() {
    assert_eq!(Cuid2::parse("12345678901234567890123-"), Err(Cuid2ParseError::IllegalCharacter));
    assert_eq!(Cuid2::parse("+23456789012345678901234"), Err(Cuid2ParseError::IllegalCharacter));
    assert_eq!(Cuid2::parse("1234567890123456789012ą"), Err(Cuid2ParseError::IllegalCharacter));
}

#[test]
fn render_pads_with_zeros() {
    let c = Cuid2::parse("00000000000000000000000z").unwrap();
    assert_eq!(c.value(), 35);
    assert_eq!(c.to_string(), "00000000000000000000000z");
    let z = Cuid2::parse("000000000000000000000000").unwrap();
    assert_eq!(z.to_string(), "000000000000000000000000");
}

#[test]
fn from_entropy_zero() {
    let c = Cuid2::from_entropy(0, 0, 0);
    assert_eq!(c.to_string(), "a00000000000000000000000");
}

#[test]
fn from_entropy_truncates() {
    let c = Cuid2::from_entropy(25, u64::MAX, u64::MAX);
    assert_eq!(c.to_string(), "zf5lxx1zz5pnorynqglhzmsp");
    assert_eq!(c.value(), 22091147436873210328683071468680971049);
}

#[test]
fn from_entropy_halves() {
    let c = Cuid2::from_entropy(2, 7, 5);
    assert_eq!(c.to_string(), "c0000000000jgqy55aunybyf");
    assert_eq!(c.value(), 7484085902451519172262790743145316359);
}

#[test]
fn from_entropy_form() {
    for (letter, hi, lo) in [(0u8, 1u64, 2u64), (13, 99, 0), (25, 12345, 67890), (7, u64::MAX, 0)] {
        let s = Cuid2::from_entropy(letter, hi, lo).to_string();
        assert_eq!(s.len(), 24);
        assert!(s.chars().next().unwrap().is_ascii_lowercase());
        assert!(s.chars().all(|c| c.is_ascii_digit() || c.is_ascii_lowercase()));
    }
}
