use humanoid::{
    encode_bytes, Cb32u128, Cb32u128ParseError, Cuid2, Prefix, PrefixedId, PrefixedIdParseError,
    ShortPrefix,
};
use std::any::TypeId;
use std::collections::hash_map::DefaultHasher;
use std::hash::{Hash, Hasher};

const CUS: u128 = 0x7375_6303;
const USR: u128 = 0x7273_7503;

type CustomerId = PrefixedId<ShortPrefix<CUS>, String>;

#[test]
fn display() {
    let cid = CustomerId::from_id("1234".into());
    assert_eq!(cid.to_string(), "cus_1234")
}

#[test]
fn parse_required() {
    let cid = CustomerId::from_str("cus_1234");
    assert_eq!(cid, Ok(CustomerId::from_id("1234".into())))
}

#[test]
fn parse_optional_some() {
    let cid = CustomerId::from_str_optional_prefix("cus_1234");
    assert_eq!(cid, Ok(CustomerId::from_id("1234".into())))
}

#[test]
fn parse_optional_none() {
    let cid = CustomerId::from_str_optional_prefix("1234");
    assert_eq!(cid, Ok(CustomerId::from_id("1234".into())))
}

#[test]
fn parse_prefixed_cuid() {
    type CustomerId = PrefixedId<ShortPrefix<CUS>, Cuid2>;
    let cid = CustomerId::from_str_required_prefix("cus_123456789012345678901234");
    assert_eq!(
        cid,
        Ok(CustomerId::from_id(
            "123456789012345678901234".parse().unwrap()
        ))
    )
}

#[test]
fn parse_prefixed_cb32u128() {
    type CustomerId = PrefixedId<ShortPrefix<CUS>, Cb32u128>;
    let cid = CustomerId::from_str_required_prefix("cus_2137PAPA");
    assert_eq!(cid, Ok(CustomerId::from_id("2137PAPA".parse().unwrap())))
}

#[test]
fn packed_prefix_reads_back() {
    assert_eq!(encode_bytes("cus"), CUS);
    assert_eq!(encode_bytes("usr"), USR);
    assert_eq!(encode_bytes(""), 0);
    assert_eq!(<ShortPrefix<CUS> as Prefix>::value(), "cus");
    assert_eq!(<ShortPrefix<0> as Prefix>::value(), "");
    let long = encode_bytes("abcdefghijklmno");
    assert_eq!(long & 0xff, 15);
}

#[test]
fn prefixed_cb32u128_round_trip() {
    type CustomerId = PrefixedId<ShortPrefix<CUS>, Cb32u128>;
    let cid = CustomerId::from_str_required_prefix("cus_2137PAPA").unwrap();
    assert_eq!(cid.to_string(), "cus_2137PAPA");
    assert_eq!(CustomerId::from_id(Cb32u128(992)).to_string(), "cus_Z0");
}

#[test]
fn prefixed_cuid_round_trip() {
    type CustomerId = PrefixedId<ShortPrefix<CUS>, Cuid2>;
    let cid = CustomerId::from_str_required_prefix("cus_123456789012345678901234").unwrap();
    assert_eq!(cid.to_string(), "cus_123456789012345678901234");
}

#[test]
fn required_prefix_errors() {
    assert_eq!(
        CustomerId::from_str_required_prefix("other_xyz"),
        Err(PrefixedIdParseError::NoPrefix("cus".to_string()))
    );
    assert_eq!(
        CustomerId::from_str_required_prefix("cusxyz"),
        Err(PrefixedIdParseError::NoUnderscore)
    );
    assert_eq!(
        CustomerId::from_str_required_prefix("cus"),
        Err(PrefixedIdParseError::NoUnderscore)
    );
    assert_eq!(
        CustomerId::from_str_required_prefix("cus_"),
        Ok(CustomerId::from_id(String::new()))
    );
    type Cb = PrefixedId<ShortPrefix<CUS>, Cb32u128>;
    assert_eq!(
        Cb::from_str_required_prefix("cus_12U"),
        Err(PrefixedIdParseError::Other(Cb32u128ParseError::UnsupportedCheckDigit('U')))
    );
}

#[test]
fn optional_prefix_same_value() {
    assert_eq!(
        CustomerId::from_str_optional_prefix("cus_xyz"),
        CustomerId::from_str_optional_prefix("xyz")
    );
    assert_eq!(
        CustomerId::from_str_optional_prefix("_xyz"),
        Ok(CustomerId::from_id("xyz".into()))
    );
    type Cb = PrefixedId<ShortPrefix<CUS>, Cb32u128>;
    assert_eq!(Cb::from_str_optional_prefix("cus_/"), Err(Cb32u128ParseError::InvalidDigit('/')));
}

#[test]
fn prefix_is_part_of_the_type() {
    type UserId = PrefixedId<ShortPrefix<USR>, String>;
    assert_ne!(TypeId::of::<CustomerId>(), TypeId::of::<UserId>());
}

#[test]
fn hash_depends_on_prefix() {
    type UserId = PrefixedId<ShortPrefix<USR>, String>;
    let mut a = DefaultHasher::new();
    CustomerId::from_id("1234".into()).hash(&mut a);
    let mut b = DefaultHasher::new();
    UserId::from_id("1234".into()).hash(&mut b);
    assert_ne!(a.finish(), b.finish());
}

#[test]
fn generated_cb32u128_id_has_prefix() {
    type Cb = PrefixedId<ShortPrefix<CUS>, Cb32u128>;
    let cid = Cb::from_id(Cb32u128(rand::random()));
    assert!(cid.to_string().starts_with("cus_"));
}

#[test]
fn try_value_reads_valid_tags_only() {
    assert_eq!(<ShortPrefix<CUS> as Prefix>::try_value(), Some("cus".to_string()));
    assert_eq!(<ShortPrefix<0xFF01> as Prefix>::try_value(), None);
    assert_eq!(<ShortPrefix<0x10> as Prefix>::try_value(), None);
}

#[test]
fn unreadable_tag_hashes_without_panic() {
    type Odd = PrefixedId<ShortPrefix<0xFF01>, String>;
    let mut a = DefaultHasher::new();
    Odd::from_id("1234".into()).hash(&mut a);
    let mut b = DefaultHasher::new();
    ShortPrefix::<0x10>.hash(&mut b);
    let _ = (a.finish(), b.finish());
}

#[test]
fn short_prefix_hash_depends_on_text() {
    let mut a = DefaultHasher::new();
    ShortPrefix::<CUS>.hash(&mut a);
    let mut b = DefaultHasher::new();
    ShortPrefix::<USR>.hash(&mut b);
    assert_ne!(a.finish(), b.finish());
}
