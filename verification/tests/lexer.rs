use clux::lexer::{parse_decimal, Lexer};
use clux::token::Token;

fn all_tokens(src: &str) -> Vec<Token> {
    let mut l = Lexer::new(src);
    let mut out = Vec::new();
    loop {
        let t = l.next_token();
        let end = t == Token::Eof;
        out.push(t);
        if end {
            return out;
        }
    }
}

#[test]
fn every_kind_of_token() {
    assert_eq!(
        all_tokens("model training foo_1 42 3.14 \"s\" : , { }"),
        vec![
            Token::KwModel,
            Token::KwTraining,
            Token::Ident("foo_1".to_string()),
            Token::NumberInt(42),
            Token::NumberFloat("3.14".to_string()),
            Token::StringLit("s".to_string()),
            Token::Colon,
            Token::Comma,
            Token::BraceOpen,
            Token::BraceClose,
            Token::Eof,
        ]
    );
}

#[test]
fn eof_repeats() {
    let mut l = Lexer::new("  ");
    assert_eq!(l.next_token(), Token::Eof);
    assert_eq!(l.next_token(), Token::Eof);
}

#[test]
fn keywords_are_case_sensitive() {
    assert_eq!(all_tokens("Model"), vec![Token::Ident("Model".to_string()), Token::Eof]);
}

#[test]
fn number_then_identifier() {
    assert_eq!(all_tokens("9abc"), vec![Token::NumberInt(9), Token::Ident("abc".to_string()), Token::Eof]);
}

#[test]
fn several_dots_stay_one_decimal() {
    assert_eq!(all_tokens("1.2.3"), vec![Token::NumberFloat("1.2.3".to_string()), Token::Eof]);
}

#[test]
fn comment_runs_to_end_of_line() {
    assert_eq!(all_tokens("# model\n: # ,"), vec![Token::Colon, Token::Eof]);
}

#[test]
fn unknown_bytes_are_skipped() {
    assert_eq!(all_tokens("@ $ ; ,"), vec![Token::Comma, Token::Eof]);
}

#[test]
fn unterminated_string_ends_input() {
    assert_eq!(all_tokens("\"abc"), vec![Token::Eof]);
}

#[test]
fn strings_keep_non_ascii_text() {
    assert_eq!(all_tokens("\"வேகம் é\""), vec![Token::StringLit("வேகம் é".to_string()), Token::Eof]);
}

#[test]
fn decimal_values() {
    assert_eq!(parse_decimal(b"0"), 0);
    assert_eq!(parse_decimal(b"007"), 7);
    assert_eq!(parse_decimal(b"18446744073709551615"), usize::MAX);
    assert_eq!(parse_decimal(b"18446744073709551616"), 0);
}
