use thegrep::tokenizer::{Token, Tokenizer};

#[test]
fn tokenizer_empty() {
    let mut tokens = Tokenizer::new("");
    assert_eq!(tokens.next(), None);
}

#[test]
fn next_lparen() {
    let mut tokens = Tokenizer::new("(");
    assert_eq!(tokens.next(), Some(Token::LParen));
    assert_eq!(tokens.next(), None);
}

#[test]
fn next_rparen() {
    let mut tokens = Tokenizer::new(")");
    assert_eq!(tokens.next(), Some(Token::RParen));
    assert_eq!(tokens.next(), None);
}

#[test]
fn next_union_bar() {
    let mut tokens = Tokenizer::new("|");
    assert_eq!(tokens.next(), Some(Token::UnionBar));
    assert_eq!(tokens.next(), None);
}

#[test]
fn next_kleene_star() {
    let mut tokens = Tokenizer::new("*");
    assert_eq!(tokens.next(), Some(Token::KleeneStar));
    assert_eq!(tokens.next(), None);
}

#[test]
fn next_any() {
    let mut tokens = Tokenizer::new(".");
    assert_eq!(tokens.next(), Some(Token::AnyChar));
    assert_eq!(tokens.next(), None);
}

#[test]
fn next_char() {
    let mut tokens = Tokenizer::new("a");
    assert_eq!(tokens.next(), Some(Token::Char('a')));
    assert_eq!(tokens.next(), None);
}

#[test]
fn next_stress_test() {
    let mut tokens = Tokenizer::new("ab|().*");
    assert_eq!(tokens.next(), Some(Token::Char('a')));
    assert_eq!(tokens.next(), Some(Token::Char('b')));
    assert_eq!(tokens.next(), Some(Token::UnionBar));
    assert_eq!(tokens.next(), Some(Token::LParen));
    assert_eq!(tokens.next(), Some(Token::RParen));
    assert_eq!(tokens.next(), Some(Token::AnyChar));
    assert_eq!(tokens.next(), Some(Token::KleeneStar));
    assert_eq!(tokens.next(), None);
}

#[test]
fn next_kleene_plus() {
    let mut tokens = Tokenizer::new("+");
    assert_eq!(tokens.next(), Some(Token::KleenePlus));
    assert_eq!(tokens.next(), None);
}

#[test]
fn peek_does_not_take() {
    let mut tokens = Tokenizer::new("a+");
    assert_eq!(tokens.peek(), Some(Token::Char('a')));
    assert_eq!(tokens.peek(), Some(Token::Char('a')));
    assert_eq!(tokens.next(), Some(Token::Char('a')));
    assert_eq!(tokens.peek(), Some(Token::KleenePlus));
    assert_eq!(tokens.next(), Some(Token::KleenePlus));
    assert_eq!(tokens.peek(), None);
}

#[test]
fn whitespace_and_unicode_are_literals() {
    let mut tokens = Tokenizer::new(" é\t");
    assert_eq!(tokens.next(), Some(Token::Char(' ')));
    assert_eq!(tokens.next(), Some(Token::Char('é')));
    assert_eq!(tokens.next(), Some(Token::Char('\t')));
    assert_eq!(tokens.next(), None);
}

#[test]
fn token_names() {
    assert_eq!(Token::LParen.name(), "LParen");
    assert_eq!(Token::KleenePlus.name(), "KleenePlus");
    assert_eq!(Token::Char('x').name(), "Char('x')");
}

#[test]
fn token_names_follow_debug() {
    for c in ['x', '\n', '\t', '\'', '"', '\\', '\0', 'é', '\u{7f}'] {
        assert_eq!(Token::Char(c).name(), format!("{:?}", Token::Char(c)));
    }
    for t in [Token::LParen, Token::RParen, Token::UnionBar, Token::KleeneStar, Token::KleenePlus, Token::AnyChar] {
        assert_eq!(t.name(), format!("{:?}", t));
    }
}
