use rand::distributions::Alphanumeric;
use rand::Rng;
use rer::version::{AlphanumericVersionToken, RerVersion, SubToken};

#[test]
fn test_subtoken_new() {
    let a = SubToken::new("1");
    assert_eq!(a.s(), "1");
    assert_eq!(a.n(), Some(1));
    let a = SubToken::new("a");
    assert_eq!(a.s(), "a");
    assert_eq!(a.n(), None);
    let a = SubToken::new("a1");
    assert_eq!(a.s(), "a1");
}

#[test]
fn test_bump_alpha_num() {
    let a = AlphanumericVersionToken::new("1").unwrap();
    assert_eq!(a.subtokens()[0].n(), Some(1));
    let b = AlphanumericVersionToken::new("1_").unwrap();
    assert_eq!(b.subtokens()[0].n(), Some(1));
    assert_eq!(b.subtokens()[1].s(), "_");
    assert_eq!(b.subtokens()[1].n(), None);
    assert_eq!(a.bump(), b);
}

#[test]
fn test_from() {
    let v: RerVersion = "1.2.3-alpha+beta".try_into().unwrap();
    assert_eq!(v.to_string(), "1.2.3-alpha+beta");
}

#[test]
fn test_display() {
    let v = RerVersion::parse_from_string("1.2.3-alpha+beta").unwrap();
    assert_eq!(v.to_string(), "1.2.3-alpha+beta");
}

#[test]
fn test_from_str() {
    let v = RerVersion::parse_from_string("1.2.3").unwrap();
    assert_eq!(v.tokens().len(), 3);
    assert_eq!(v.seps().len(), 2);
    let v = RerVersion::parse_from_string("1.2.3-alpha").unwrap();
    assert_eq!(v.tokens().len(), 4);
    assert_eq!(v.seps().len(), 3);
    let v = RerVersion::parse_from_string("1.2.3-alpha+beta").unwrap();
    assert_eq!(v.tokens().len(), 5);
    assert_eq!(v.seps().len(), 4);
    let v: RerVersion = "2.0.0_".try_into().unwrap();
    assert_eq!(v.tokens()[2], AlphanumericVersionToken::new("0_").unwrap());
    assert_eq!(v.seps(), &['.', '.']);
}

#[test]
fn test_order() {
    let a = RerVersion::parse_from_string("1.2.3").unwrap();
    let b = RerVersion::parse_from_string("1.2.4").unwrap();
    assert!(a < b);
    let a = RerVersion::parse_from_string("1.2.3").unwrap();
    let b = RerVersion::parse_from_string("1.2.3-alpha").unwrap();
    assert!(a < b);
    let a = RerVersion::parse_from_string("2.0.0").unwrap();
    let b = RerVersion::parse_from_string("2.0.0_").unwrap();
    assert!(a < b);
}

#[test]
fn test_bump_rez_version() {
    let a: RerVersion = "1.2.3".try_into().unwrap();
    let b: RerVersion = "1.2.3_".try_into().unwrap();
    assert_eq!(a.bump(), b);
}

#[test]
fn test_compare_subtoken() {
    let a = SubToken::new("1");
    let b = SubToken::new("2");
    assert!(a < b);
    let a = SubToken::new("1");
    let b = SubToken::new("1");
    assert!(a == b);
    let a = SubToken::new("1");
    let b = SubToken::new("1a");
    assert!(a >= b);
    let a = SubToken::new("a");
    let b = SubToken::new("1");
    assert!(a < b);
    let a = SubToken::new("a");
    let b = SubToken::new("a");
    assert!(a == b);
    let a = SubToken::new("a");
    let b = SubToken::new("A");
    assert!(a < b);
}

#[test]
fn test_alphanumeric_version_token_compare() {
    let a = AlphanumericVersionToken::new("3").unwrap();
    let b = AlphanumericVersionToken::new("4").unwrap();
    assert!(a < b);
    let a = AlphanumericVersionToken::new("01").unwrap();
    let b = AlphanumericVersionToken::new("1").unwrap();
    assert!(a < b);
    let a = AlphanumericVersionToken::new("beta").unwrap();
    let b = AlphanumericVersionToken::new("1").unwrap();
    assert!(a < b);
    let a = AlphanumericVersionToken::new("a").unwrap();
    let b = AlphanumericVersionToken::new("A").unwrap();
    assert!(a < b);
    let a = AlphanumericVersionToken::new("alpha3").unwrap();
    let b = AlphanumericVersionToken::new("alpha4").unwrap();
    assert!(a < b);
    let a = AlphanumericVersionToken::new("alpha").unwrap();
    let b = AlphanumericVersionToken::new("alpha3").unwrap();
    assert!(a < b);
    let a = AlphanumericVersionToken::new("gamma33").unwrap();
    let b = AlphanumericVersionToken::new("33gamma").unwrap();
    assert!(a < b);
}

#[test]
fn test_compare_version() {
    let v1: RerVersion = "1.0.0".try_into().unwrap();
    let v2: RerVersion = "1.1.0".try_into().unwrap();
    assert!(v1 < v2);
    assert!(v1 < v1.bump());
    let v1: RerVersion = "baker-1".try_into().unwrap();
    let v2: RerVersion = "baker-2".try_into().unwrap();
    assert!(v1 < v2);
    assert!(v1 < v1.bump());
    assert!(v1.bump() < v2.bump());
    let v1: RerVersion = "0".try_into().unwrap();
    let v2: RerVersion = "1".try_into().unwrap();
    assert!(v1 < v2);
    let v1: RerVersion = "a".try_into().unwrap();
    let v2: RerVersion = "A".try_into().unwrap();
    assert!(v1 < v2);
    let v1: RerVersion = "_5".try_into().unwrap();
    let v2: RerVersion = "2".try_into().unwrap();
    assert!(v1 < v2);
    let v1: RerVersion = "beta3".try_into().unwrap();
    let v2: RerVersion = "3beta".try_into().unwrap();
    assert!(v1 < v2);
    let v1: RerVersion = "1.0.0a".try_into().unwrap();
    let v2: RerVersion = "1.0.0A".try_into().unwrap();
    assert!(v1 < v2);
    let v1: RerVersion = "1.0.0".try_into().unwrap();
    let v2: RerVersion = "1.0.0_".try_into().unwrap();
    assert!(v1 < v2);
    let v1: RerVersion = "1.0.0_".try_into().unwrap();
    let v2: RerVersion = "1.0.0a".try_into().unwrap();
    assert!(v1 < v2);
    let v1: RerVersion = "1.0.0a".try_into().unwrap();
    let v2: RerVersion = "1.0.0a".try_into().unwrap();
    assert!(v1 == v2);
}

#[test]
fn test_generate_random_version() {
    let s: String = rand::thread_rng()
        .sample_iter(&Alphanumeric)
        .take(7)
        .map(char::from)
        .collect();
    AlphanumericVersionToken::new(&s).unwrap();
}

#[test]
fn lowest_sorts_before_every_version() {
    let low = RerVersion::lowest();
    assert_eq!(low.to_string(), "_");
    for s in ["_", "0", "a", "_5", "1.0.0", "A.b"] {
        let v: RerVersion = s.try_into().unwrap();
        assert!(low <= v, "{}", s);
    }
}

#[test]
fn bump_is_above_every_extension() {
    let v: RerVersion = "3".try_into().unwrap();
    let b = v.bump();
    assert_eq!(b.to_string(), "3_");
    for s in ["3.0", "3.1.4", "3.a"] {
        let w: RerVersion = s.try_into().unwrap();
        assert!(v < w && w < b, "{}", s);
    }
    let v: RerVersion = "1.alpha".try_into().unwrap();
    assert_eq!(v.bump().to_string(), "1.alpha_");
}

#[test]
fn parse_rejects_text_without_token_characters() {
    assert!(RerVersion::parse_from_string("").is_err());
    assert!(RerVersion::parse_from_string("..-").is_err());
    assert!(AlphanumericVersionToken::new("").is_err());
}

#[test]
fn separators_follow_their_tokens() {
    // the leading text is kept as the first separator, the trailing text dropped
    let v = RerVersion::parse_from_string("-1.2").unwrap();
    assert_eq!(v.seps(), &['-', '.']);
    assert_eq!(v.to_string(), "1-2.");
    let v = RerVersion::parse_from_string("1..2-").unwrap();
    assert_eq!(v.seps(), &['.']);
    assert_eq!(v.to_string(), "1.2");
}

#[test]
fn numeric_subtokens_compare_by_value_then_text() {
    assert!(SubToken::new("9") < SubToken::new("10"));
    let a: RerVersion = "1.9".try_into().unwrap();
    let b: RerVersion = "1.10".try_into().unwrap();
    assert!(a < b);
    // leading zeros: same value, the text decides
    let a = SubToken::new("007");
    let b = SubToken::new("7");
    assert!(a < b);
    assert_eq!(a.n(), Some(7));
    // too large for an i64: alphabetic
    let big = SubToken::new("99999999999999999999");
    assert_eq!(big.n(), None);
    assert!(big < SubToken::new("0"));
}

#[test]
fn conversions_from_text_parse_or_refuse() {
    let v = RerVersion::try_from(String::from("1.2.3")).unwrap();
    assert_eq!(v.to_string(), "1.2.3");
    let w = RerVersion::try_from("1.2.3").unwrap();
    assert!(v == w);
    assert!(RerVersion::try_from("...").is_err());
    assert!(RerVersion::try_from(String::from("")).is_err());
}

#[test]
fn version_text_with_white_space_is_refused() {
    assert!(RerVersion::try_from("1 2").is_err());
    assert!(RerVersion::try_from("1.0\t").is_err());
    assert!(RerVersion::try_from(String::from(" 1.0")).is_err());
    assert!(RerVersion::try_from("1.0-beta").is_ok());
}

#[test]
fn token_of_other_characters_is_refused() {
    assert_eq!(AlphanumericVersionToken::new(""), Err("Invalid version token"));
    assert_eq!(AlphanumericVersionToken::new("a-b"), Err("Invalid version token"));
    assert!(AlphanumericVersionToken::new("a_1").is_ok());
}

#[test]
fn lowest_version_sorts_first() {
    let low = RerVersion::lowest();
    for s in ["0", "_a", "a", "1.2.3", "__"] {
        assert!(low < RerVersion::try_from(s).unwrap(), "{s}");
    }
    assert!(low == RerVersion::try_from("_").unwrap());
}

#[test]
fn bump_sorts_after_the_version() {
    for s in ["1.2", "1.2a", "0", "a"] {
        let v = RerVersion::try_from(s).unwrap();
        assert!(v < v.bump(), "{s}");
    }
}
