use shadow::text::Tokenizer;

#[test]
fn test_tokenizer() {
    fn test(tokenizer: Tokenizer, left: &str, right: Vec<&str>) {
        assert!(tokenizer.tokenize(left).into_iter().eq(right));
    }
    test(
        Tokenizer {
            lowercase: false,
            ..Default::default()
        },
        "",
        vec![],
    );
    test(
        Tokenizer {
            lowercase: false,
            ..Default::default()
        },
        "   ",
        vec![],
    );
    test(
        Tokenizer {
            lowercase: false,
            ..Default::default()
        },
        " &*! ",
        vec!["&", "*", "!"],
    );
    test(
        Tokenizer {
            ..Default::default()
        },
        "iOS Developer",
        vec!["ios", "developer"],
    );
}

#[test]
fn tokenizer_keeps_case_where_asked() {
    let tokenizer = Tokenizer {
        lowercase: false,
        alphanumeric: true,
    };
    assert_eq!(
        tokenizer.tokenize("iOS Developer, v2!"),
        vec!["iOS", "Developer", ",", "v2", "!"]
    );
}

#[test]
fn tokenizer_joins_every_character_where_asked() {
    let tokenizer = Tokenizer {
        lowercase: true,
        alphanumeric: false,
    };
    assert_eq!(
        tokenizer.tokenize("  Don't STOP-now\tplease "),
        vec!["don't", "stop-now", "please"]
    );
    assert_eq!(tokenizer.tokenize("x"), vec!["x"]);
}

#[test]
fn white_space_is_what_the_standard_library_says() {
    for code in 0..=0x10_ffffu32 {
        if let Some(c) = char::from_u32(code) {
            assert_eq!(shadow::strings::is_whitespace(c), c.is_whitespace(), "{code:x}");
        }
    }
}
