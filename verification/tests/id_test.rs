use shadow::id::{Id, ParseIdError};

#[test]
fn test_parse() {
    let s = "00000000000000000000000000000000";
    assert_eq!(s.parse::<Id>().unwrap().to_string(), s);
    let s = "0000000000000000000000000000000z";
    assert!(s.parse::<Id>().is_err());
}

#[test]
fn test_parse_reads_every_digit() {
    let s = "0123456789abcdef0123456789ABCDEF";
    let id = Id::parse(s).unwrap();
    assert_eq!(id.to_u128(), 0x0123456789abcdef0123456789abcdef_u128);
    assert_eq!(id.to_string(), "0123456789abcdef0123456789abcdef");
}

#[test]
fn test_parse_rejects_other_lengths() {
    assert!(Id::parse("").is_err());
    assert!(Id::parse("0000000000000000000000000000000").is_err());
    assert!(Id::parse("000000000000000000000000000000000").is_err());
}

#[test]
fn test_parse_accepts_a_leading_plus() {
    let id = Id::parse("+00000000000000000000000000000ff").unwrap();
    assert_eq!(id.to_u128(), 255);
    assert!(Id::parse("-00000000000000000000000000000ff").is_err());
    assert!(Id::parse("0+0000000000000000000000000000ff").is_err());
}

#[test]
fn test_to_string_pads_with_zeros() {
    assert_eq!(
        Id::from_u128(u128::MAX).to_string(),
        "ffffffffffffffffffffffffffffffff"
    );
    assert_eq!(
        Id::from_u128(0x1f).to_string(),
        "0000000000000000000000000000001f"
    );
}

#[test]
fn test_generate_round_trips() {
    let id = Id::generate();
    let text = id.to_string();
    assert_eq!(text.len(), 32);
    assert_eq!(Id::parse(&text).unwrap(), id);
}

#[test]
fn parse_error_says_what_went_wrong() {
    assert_eq!(ParseIdError.to_string(), "parse id error");
    match Id::parse("not an id") {
        Err(error) => assert_eq!(error.to_string(), "parse id error"),
        Ok(_) => panic!("the text is no identifier"),
    }
}
