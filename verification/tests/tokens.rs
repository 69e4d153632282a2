use gauntlet::parser::Token;
use gauntlet::parser::Token::{Divide, Invalid, LParen, Minus, Number, Plus, RParen, Word};
use gauntlet::parser::Tokens;

fn collect(text: &str) -> Vec<Token> {
    let mut tokens = Tokens::from(text);
    let mut out = Vec::new();
    while let Some(t) = tokens.next() {
        out.push(t);
    }
    out
}

#[test]
fn single_character() {
    let c = Tokens::from("a").next().unwrap();
    assert_eq!(c, Word("a".to_string()));
}

#[test]
fn single_token() {
    let s = Tokens::from("abc").next().unwrap();
    assert_eq!(s, Word("abc".to_string()));
}

#[test]
fn two_tokens() {
    let s = collect("abc def");
    assert_eq!(s, vec![Word("abc".to_string()), Word("def".to_string())]);
}

#[test]
fn plus_tokens() {
    let s = collect("   abc  +def");
    assert_eq!(s,
               vec![Word("abc".to_string()), Plus, Word("def".to_string())]);
}

#[test]
fn bracket_tokens() {
    let s = collect(" ()  (abc  +)def");
    assert_eq!(s,
               vec![LParen,
                    RParen,
                    LParen,
                    Word("abc".to_string()),
                    Plus,
                    RParen,
                    Word("def".to_string())]);
}

#[test]
fn operators_and_numbers() {
    assert_eq!(collect("a-b/12"),
               vec![Word("a".to_string()), Minus, Word("b".to_string()), Divide, Number(12)]);
    assert_eq!(collect("007"), vec![Number(7)]);
    assert_eq!(collect("2147483647"), vec![Number(2147483647)]);
}

#[test]
fn number_too_large_is_invalid() {
    assert_eq!(collect("2147483648"), vec![Invalid("2147483648".to_string())]);
    assert_eq!(collect("99999999999999999999999"),
               vec![Invalid("99999999999999999999999".to_string())]);
}

#[test]
fn other_characters_are_invalid_one_by_one() {
    assert_eq!(collect("a*B"),
               vec![Word("a".to_string()), Invalid("*".to_string()), Invalid("B".to_string())]);
}

#[test]
fn blanks_separate_tokens() {
    assert_eq!(collect("a\t+\nb\r"),
               vec![Word("a".to_string()), Plus, Word("b".to_string())]);
    assert_eq!(collect("   "), vec![]);
    assert_eq!(collect(""), vec![]);
}

#[test]
fn peek_does_not_take() {
    let mut tokens = Tokens::from("a +");
    assert_eq!(tokens.peek(), Some(&Word("a".to_string())));
    assert_eq!(tokens.peek(), Some(&Word("a".to_string())));
    assert_eq!(tokens.next(), Some(Word("a".to_string())));
    assert_eq!(tokens.peek(), Some(&Plus));
    assert_eq!(tokens.next(), Some(Plus));
    assert_eq!(tokens.peek(), None);
    assert_eq!(tokens.next(), None);
    assert_eq!(tokens.next(), None);
}

#[test]
fn tokens_as_written() {
    assert_eq!(RParen.to_string(), ")");
    assert_eq!(LParen.to_string(), "(");
    assert_eq!(Plus.to_string(), "+");
    assert_eq!(Minus.to_string(), "-");
    assert_eq!(Divide.to_string(), "/");
    assert_eq!(Word("king".to_string()).to_string(), "king");
    assert_eq!(Invalid("?".to_string()).to_string(), "?");
    assert_eq!(Number(0).to_string(), "0");
    assert_eq!(Number(1205).to_string(), "1205");
    assert_eq!(Number(-34).to_string(), "-34");
    assert_eq!(Number(i32::MIN).to_string(), "-2147483648");
}
