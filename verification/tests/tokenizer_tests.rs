use tipping::pattern::{compile_into_regex, CompiledPattern};
use tipping::tokenizer::{PreToken, Tokenizer};
use tipping::token::Token;

fn pat(s: &str) -> CompiledPattern {
    CompiledPattern::new(s).unwrap()
}

#[test]
fn tokenizer_pre_tokenize() {
    let tokenizer = Tokenizer::new(vec![pat(r"\ba\b")], vec![pat(r"\d+\.\d+")], Vec::new());
    let expected = vec![
        PreToken::Unrefined("This ".to_owned()),
        PreToken::SpecialBlack("10001.2".to_owned()),
        PreToken::Unrefined(" is ".to_owned()),
        PreToken::SpecialBlack("1.323".to_owned()),
        PreToken::Unrefined(" ".to_owned()),
        PreToken::SpecialWhite("a".to_owned()),
        PreToken::Unrefined(" ".to_owned()),
        PreToken::SpecialBlack("1.4411".to_owned()),
        PreToken::Unrefined(" message".to_owned()),
    ];
    let computed = tokenizer.pre_tokenize("This 10001.2 is 1.323 a 1.4411 message");
    assert_eq!(expected, computed);
}

#[test]
fn tokenizer_tokenize() {
    let tokenizer = Tokenizer::new(vec![pat(r"fan_\d+")], vec![pat(r"\d+\.\d+")], vec!['.']);
    let computed = tokenizer
        .tokenize("Fan fan_2 speed is set to 12.3114 on machine sys.node.fan_3 on node 12");
    let expected = vec![
        Token::Alphabetic("Fan".to_owned()),
        Token::Whitespace(" ".to_owned()),
        Token::SpecialWhite("fan_2".to_owned()),
        Token::Whitespace(" ".to_owned()),
        Token::Alphabetic("speed".to_owned()),
        Token::Whitespace(" ".to_owned()),
        Token::Alphabetic("is".to_owned()),
        Token::Whitespace(" ".to_owned()),
        Token::Alphabetic("set".to_owned()),
        Token::Whitespace(" ".to_owned()),
        Token::Alphabetic("to".to_owned()),
        Token::Whitespace(" ".to_owned()),
        Token::SpecialBlack("12.3114".to_owned()),
        Token::Whitespace(" ".to_owned()),
        Token::Alphabetic("on".to_owned()),
        Token::Whitespace(" ".to_owned()),
        Token::Alphabetic("machine".to_owned()),
        Token::Whitespace(" ".to_owned()),
        Token::Alphabetic("sys".to_owned()),
        Token::Symbolic(".".to_owned()),
        Token::Alphabetic("node".to_owned()),
        Token::Symbolic(".".to_owned()),
        Token::SpecialWhite("fan_3".to_owned()),
        Token::Whitespace(" ".to_owned()),
        Token::Alphabetic("on".to_owned()),
        Token::Whitespace(" ".to_owned()),
        Token::Alphabetic("node".to_owned()),
        Token::Whitespace(" ".to_owned()),
        Token::Numeric("12".to_owned()),
    ];
    assert_eq!(expected, computed);
}

#[test]
fn test_name() {
    let r = compile_into_regex(&vec![r"\d+".to_owned(), "[a-zA-Z]+".to_owned()]).unwrap();
    assert!(r.is_match("123"));
    assert!(r.is_match("abc"));
    assert!(r.is_match("ABC"));

    assert!(!r.is_match("@"));
    assert!(!r.is_match("#"));
}

#[test]
fn tokenize_round_trip() {
    let tokenizer = Tokenizer::new(vec![pat(r"fan_\d+")], vec![pat(r"\d+\.\d+")], vec!['.', ':']);
    let inputs = [
        "Fan fan_2 speed is set to 12.3114 on machine sys.node.fan_3 on node 12",
        "",
        "   ",
        "no specials here",
        "unicode caf\u{e9} \u{3042} mixed: 1.5",
    ];
    for msg in inputs {
        let toks = tokenizer.tokenize(msg);
        let joined: String = toks.iter().map(|t| t.as_str()).collect::<Vec<_>>().concat();
        assert_eq!(joined, msg);
    }
}

#[test]
fn classification_rules() {
    let symbols = vec!['.', '-'];
    assert_eq!(Token::with("abc", &symbols), Token::Alphabetic("abc".to_owned()));
    assert_eq!(Token::with("42", &symbols), Token::Numeric("42".to_owned()));
    assert_eq!(Token::with(" ", &symbols), Token::Whitespace(" ".to_owned()));
    assert_eq!(Token::with(".", &symbols), Token::Symbolic(".".to_owned()));
    assert_eq!(Token::with("#", &symbols), Token::Impure("#".to_owned()));
    assert_eq!(Token::with("x1", &symbols), Token::Impure("x1".to_owned()));
}

#[test]
fn malformed_pattern_is_reported() {
    let r = CompiledPattern::new("(unclosed");
    assert!(r.is_err());
    let msg = r.err().unwrap();
    assert!(msg.contains("unclosed"));
}

#[test]
fn zero_width_matches_make_progress() {
    // A pattern that can match the empty string must not stall or consume
    // characters: zero-width matches are skipped.
    let tokenizer = Tokenizer::new(vec![pat(r"x*")], vec![], Vec::new());
    let toks = tokenizer.tokenize("axxb c");
    let joined: String = toks.iter().map(|t| t.as_str()).collect::<Vec<_>>().concat();
    assert_eq!(joined, "axxb c");
    assert!(toks.contains(&Token::SpecialWhite("xx".to_owned())));
}
