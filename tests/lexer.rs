use compiler::lexer::is_whitespace;
use compiler::{Lexer, Token};

fn ident(s: &str) -> Result<Token, String> {
    Ok(Token::Identifier(s.to_string()))
}

#[test]
fn lexer_test_lexer_basic() {
    let input = "section start: mov forward, 10".to_string();
    let mut lexer = Lexer::new(input);

    assert_eq!(lexer.next_token(), ident("section"));
    assert_eq!(lexer.next_token(), ident("start"));
    assert_eq!(lexer.next_token(), Ok(Token::Colon));
    assert_eq!(lexer.next_token(), ident("mov"));
    assert_eq!(lexer.next_token(), ident("forward"));
    assert_eq!(lexer.next_token(), Ok(Token::Comma));
    assert_eq!(lexer.next_token(), Ok(Token::Number(10)));
    assert_eq!(lexer.next_token(), Ok(Token::Eof));
}

#[test]
fn lexer_test_lexer_multiple_sections() {
    let input = r#"
        section one:
            mov forward, 5
        section two:
            mov backward, 3
        "#
    .to_string();
    let mut lexer = Lexer::new(input);

    assert_eq!(lexer.next_token(), ident("section"));
    assert_eq!(lexer.next_token(), ident("one"));
    assert_eq!(lexer.next_token(), Ok(Token::Colon));
    assert_eq!(lexer.next_token(), ident("mov"));
    assert_eq!(lexer.next_token(), ident("forward"));
    assert_eq!(lexer.next_token(), Ok(Token::Comma));
    assert_eq!(lexer.next_token(), Ok(Token::Number(5)));
    assert_eq!(lexer.next_token(), ident("section"));
    assert_eq!(lexer.next_token(), ident("two"));
    assert_eq!(lexer.next_token(), Ok(Token::Colon));
    assert_eq!(lexer.next_token(), ident("mov"));
    assert_eq!(lexer.next_token(), ident("backward"));
    assert_eq!(lexer.next_token(), Ok(Token::Comma));
    assert_eq!(lexer.next_token(), Ok(Token::Number(3)));
    assert_eq!(lexer.next_token(), Ok(Token::Eof));
}

#[test]
fn lexer_test_lexer_whitespace_handling() {
    let input = "  section  start  :  mov  forward  ,  10  ".to_string();
    let mut lexer = Lexer::new(input);

    assert_eq!(lexer.next_token(), ident("section"));
    assert_eq!(lexer.next_token(), ident("start"));
    assert_eq!(lexer.next_token(), Ok(Token::Colon));
    assert_eq!(lexer.next_token(), ident("mov"));
    assert_eq!(lexer.next_token(), ident("forward"));
    assert_eq!(lexer.next_token(), Ok(Token::Comma));
    assert_eq!(lexer.next_token(), Ok(Token::Number(10)));
    assert_eq!(lexer.next_token(), Ok(Token::Eof));
}

#[test]
fn lexer_test_lexer_unicode_identifiers() {
    let input = "section 你好: mov 世界, 10".to_string();
    let mut lexer = Lexer::new(input);

    assert_eq!(lexer.next_token(), ident("section"));
    assert_eq!(lexer.next_token(), ident("你好"));
    assert_eq!(lexer.next_token(), Ok(Token::Colon));
    assert_eq!(lexer.next_token(), ident("mov"));
    assert_eq!(lexer.next_token(), ident("世界"));
    assert_eq!(lexer.next_token(), Ok(Token::Comma));
    assert_eq!(lexer.next_token(), Ok(Token::Number(10)));
    assert_eq!(lexer.next_token(), Ok(Token::Eof));
}

#[test]
fn lexer_accepts_any_non_whitespace_character() {
    let mut lexer = Lexer::new("start: mov forward, @10".to_string());
    assert_eq!(lexer.next_token(), ident("start"));
    assert_eq!(lexer.next_token(), Ok(Token::Colon));
    assert_eq!(lexer.next_token(), ident("mov"));
    assert_eq!(lexer.next_token(), ident("forward"));
    assert_eq!(lexer.next_token(), Ok(Token::Comma));
    assert_eq!(lexer.next_token(), ident("@10"));
    assert_eq!(lexer.next_token(), Ok(Token::Eof));
}

#[test]
fn lexer_keeps_returning_eof() {
    let mut lexer = Lexer::new("  x \n".to_string());
    assert_eq!(lexer.next_token(), ident("x"));
    assert_eq!(lexer.next_token(), Ok(Token::Eof));
    assert_eq!(lexer.next_token(), Ok(Token::Eof));
    assert_eq!(lexer.next_token(), Ok(Token::Eof));
}

#[test]
fn lexer_empty_input_is_eof() {
    let mut lexer = Lexer::new(String::new());
    assert_eq!(lexer.peek_next_token(), Ok(Token::Eof));
    assert_eq!(lexer.next_token(), Ok(Token::Eof));
}

#[test]
fn lexer_peek_does_not_advance() {
    let mut lexer = Lexer::new("a: b".to_string());
    assert_eq!(lexer.peek_next_token(), ident("a"));
    assert_eq!(lexer.peek_next_token(), ident("a"));
    assert_eq!(lexer.next_token(), ident("a"));
    assert_eq!(lexer.peek_next_token(), Ok(Token::Colon));
    assert_eq!(lexer.next_token(), Ok(Token::Colon));
    assert_eq!(lexer.next_token(), ident("b"));
    assert_eq!(lexer.peek_next_token(), Ok(Token::Eof));
}

#[test]
fn lexer_digits_then_letters_split() {
    let mut lexer = Lexer::new("12ab x1".to_string());
    assert_eq!(lexer.next_token(), Ok(Token::Number(12)));
    assert_eq!(lexer.next_token(), ident("ab"));
    assert_eq!(lexer.next_token(), ident("x1"));
    assert_eq!(lexer.next_token(), Ok(Token::Eof));
}

#[test]
fn lexer_number_limits() {
    let mut lexer = Lexer::new("2147483647 2147483648 007".to_string());
    assert_eq!(lexer.next_token(), Ok(Token::Number(2147483647)));
    assert_eq!(
        lexer.next_token(),
        Err("Number out of range: 2147483648".to_string())
    );
    assert_eq!(lexer.next_token(), Ok(Token::Number(7)));
    assert_eq!(lexer.next_token(), Ok(Token::Eof));
}

#[test]
fn lexer_unicode_whitespace_separates() {
    let mut lexer = Lexer::new("a\u{3000}b\u{2028}c\u{85}:".to_string());
    assert_eq!(lexer.next_token(), ident("a"));
    assert_eq!(lexer.next_token(), ident("b"));
    assert_eq!(lexer.next_token(), ident("c"));
    assert_eq!(lexer.next_token(), Ok(Token::Colon));
    assert_eq!(lexer.next_token(), Ok(Token::Eof));
}

#[test]
fn whitespace_class_matches_std() {
    for n in 0u32..=0x10FFFF {
        if let Some(c) = char::from_u32(n) {
            assert_eq!(is_whitespace(c), c.is_whitespace(), "code point {:x}", n);
        }
    }
}
