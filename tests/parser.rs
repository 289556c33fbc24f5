use thegrep::parser::{
    ast_alternation, ast_any_char, ast_catenation, ast_char, ast_closure, ast_one_or_more,
    ParseError, Parser, AST,
};
use thegrep::tokenizer::{Token, Tokenizer};

#[test]
fn parse_atom() {
    let res = Parser::parse(Tokenizer::new("a")).unwrap();
    assert_eq!(ast_char('a'), res);
}

#[test]
fn parse_atom_parens() {
    let res = Parser::parse(Tokenizer::new("(a)")).unwrap();
    assert_eq!(ast_char('a'), res);
}

#[test]
fn parse_closure() {
    let res = Parser::parse(Tokenizer::new("a*")).unwrap();
    assert_eq!(ast_closure(ast_char('a')), res);
}

#[test]
fn parse_cat() {
    let res = Parser::parse(Tokenizer::new("ab")).unwrap();
    assert_eq!(ast_catenation(ast_char('a'), ast_char('b')), res);
}

#[test]
fn parse_alt() {
    let res = Parser::parse(Tokenizer::new("a|b")).unwrap();
    assert_eq!(ast_alternation(ast_char('a'), ast_char('b')), res);
}

#[test]
fn parse_plus() {
    let res = Parser::parse(Tokenizer::new("a+")).unwrap();
    assert_eq!(ast_one_or_more(ast_char('a')), res);
}

#[test]
fn parse_closure_hard() {
    let res = Parser::parse(Tokenizer::new("(a|.)c*")).unwrap();
    assert_eq!(
        ast_catenation(
            ast_alternation(ast_char('a'), ast_any_char()),
            ast_closure(ast_char('c'))
        ),
        res
    );
}

#[test]
fn parse_plus_hard() {
    let res = Parser::parse(Tokenizer::new("(a|.)c+")).unwrap();
    assert_eq!(
        ast_catenation(
            ast_alternation(ast_char('a'), ast_any_char()),
            ast_one_or_more(ast_char('c'))
        ),
        res
    );
}

#[test]
fn parse_stress() {
    let res = Parser::parse(Tokenizer::new("(a|bc*)+")).unwrap();
    assert_eq!(
        ast_one_or_more(ast_alternation(
            ast_char('a'),
            ast_catenation(ast_char('b'), ast_closure(ast_char('c')))
        )),
        res
    );
}

#[test]
fn parse_err() {
    let res = Parser::parse(Tokenizer::new("(a))"));
    assert_eq!(Err(format!("Expected end of input, found RParen")), res);
}

#[test]
fn atom_anychar() {
    assert_eq!(Parser::from(".").atom().unwrap(), AST::AnyChar);
}

#[test]
fn atom_char() {
    assert_eq!(Parser::from("a").atom().unwrap(), AST::Char('a'));
}

#[test]
fn atom_parens_anychar() {
    assert_eq!(Parser::from("(.)").atom().unwrap(), AST::AnyChar);
}

#[test]
fn atom_parens_char() {
    assert_eq!(Parser::from("(h)").atom().unwrap(), AST::Char('h'));
}

#[test]
fn atom_nested_parens() {
    assert_eq!(Parser::from("((.))").atom().unwrap(), AST::AnyChar);
}

#[test]
fn atom_parens_err() {
    assert_eq!(
        Parser::from("(").atom(),
        Err(format!("Unexpected end of input"))
    );
    assert_eq!(
        Parser::from("()").atom(),
        Err(format!("Unexpected token: {:?}", Token::RParen))
    );
}

#[test]
fn closure_atom() {
    assert_eq!(Parser::from("a").kleene().unwrap(), ast_char('a'));
}

#[test]
fn closure() {
    assert_eq!(
        Parser::from("b*").kleene().unwrap(),
        ast_closure(ast_char('b'))
    );
}

#[test]
fn closure_parents() {
    assert_eq!(
        Parser::from("(a)*").kleene().unwrap(),
        ast_closure(ast_char('a'))
    );
}

#[test]
fn catenation_atom() {
    assert_eq!(Parser::from("a").catenation().unwrap(), ast_char('a'));
}

#[test]
fn catenation_to_closure() {
    assert_eq!(
        Parser::from("a*").catenation().unwrap(),
        ast_closure(ast_char('a'))
    );
}

#[test]
fn catenation() {
    assert_eq!(
        Parser::from("ab").catenation().unwrap(),
        ast_catenation(ast_char('a'), ast_char('b'))
    );
}

#[test]
fn catenation_closure() {
    assert_eq!(
        Parser::from("ab*").catenation().unwrap(),
        ast_catenation(ast_char('a'), ast_closure(ast_char('b')))
    );
}

#[test]
fn catenation_parens() {
    assert_eq!(
        Parser::from("(ab)*").catenation().unwrap(),
        ast_closure(ast_catenation(ast_char('a'), ast_char('b')))
    );
}

#[test]
fn reg_expr_atom() {
    assert_eq!(Parser::from("a").reg_expr().unwrap(), ast_char('a'));
}

#[test]
fn reg_expr_cat() {
    assert_eq!(
        Parser::from("ab").reg_expr().unwrap(),
        ast_catenation(ast_char('a'), ast_char('b'))
    );
}

#[test]
fn reg_expr_cat_closure() {
    assert_eq!(
        Parser::from("ab*").reg_expr().unwrap(),
        ast_catenation(ast_char('a'), ast_closure(ast_char('b')))
    );
}

#[test]
fn reg_expr_cat_plus() {
    assert_eq!(
        Parser::from("ab+").reg_expr().unwrap(),
        ast_catenation(ast_char('a'), ast_one_or_more(ast_char('b')))
    );
}

#[test]
fn reg_expr_alternation() {
    assert_eq!(
        Parser::from("a|b").reg_expr().unwrap(),
        ast_alternation(ast_char('a'), ast_char('b'))
    );
}

#[test]
fn reg_expr_any_closure() {
    assert_eq!(
        Parser::from(".*").reg_expr().unwrap(),
        ast_closure(ast_any_char())
    );
}

#[test]
fn reg_expr_all() {
    assert_eq!(
        Parser::from("(a|b.)*").reg_expr().unwrap(),
        ast_closure(ast_alternation(
            ast_char('a'),
            ast_catenation(ast_char('b'), ast_any_char())
        ))
    );
}

#[test]
fn alternation_is_right_associative() {
    let res = Parser::parse(Tokenizer::new("a|b|c")).unwrap();
    assert_eq!(
        ast_alternation(ast_char('a'), ast_alternation(ast_char('b'), ast_char('c'))),
        res
    );
}

#[test]
fn catenation_is_right_nested() {
    let res = Parser::parse(Tokenizer::new("abc")).unwrap();
    assert_eq!(
        ast_catenation(ast_char('a'), ast_catenation(ast_char('b'), ast_char('c'))),
        res
    );
}

#[test]
fn catenation_binds_tighter_than_alternation() {
    let res = Parser::parse(Tokenizer::new("ab|c")).unwrap();
    assert_eq!(
        ast_alternation(ast_catenation(ast_char('a'), ast_char('b')), ast_char('c')),
        res
    );
}

#[test]
fn error_empty_pattern() {
    let res = Parser::parse(Tokenizer::new(""));
    assert_eq!(Err(String::from("Unexpected end of input")), res);
}

#[test]
fn error_unclosed_paren() {
    let res = Parser::parse(Tokenizer::new("(ab"));
    assert_eq!(Err(String::from("Unexpected end of input")), res);
}

#[test]
fn error_stray_tokens_where_atom_needed() {
    assert_eq!(
        Parser::parse(Tokenizer::new("*a")),
        Err(String::from("Unexpected token: KleeneStar"))
    );
    assert_eq!(
        Parser::parse(Tokenizer::new("|a")),
        Err(String::from("Unexpected token: UnionBar"))
    );
    assert_eq!(
        Parser::parse(Tokenizer::new("a|+")),
        Err(String::from("Unexpected token: KleenePlus"))
    );
    assert_eq!(
        Parser::parse(Tokenizer::new(")")),
        Err(String::from("Unexpected token: RParen"))
    );
}

#[test]
fn error_trailing_after_repetition() {
    assert_eq!(
        Parser::parse(Tokenizer::new("a**")),
        Err(String::from("Expected end of input, found KleeneStar"))
    );
}

#[test]
fn error_mismatched_close() {
    assert_eq!(
        Parser::parse(Tokenizer::new("(a*+)")),
        Err(String::from("Expected: RParen - Found KleenePlus"))
    );
}

#[test]
fn error_messages() {
    assert_eq!(ParseError::UnexpectedEnd.message(), "Unexpected end of input");
    assert_eq!(
        ParseError::UnexpectedToken(Token::UnionBar).message(),
        "Unexpected token: UnionBar"
    );
    assert_eq!(
        ParseError::Mismatch(Token::RParen, Token::KleeneStar).message(),
        "Expected: RParen - Found KleeneStar"
    );
    assert_eq!(
        ParseError::ExpectedEnd(Token::RParen).message(),
        "Expected end of input, found RParen"
    );
}

#[test]
fn error_messages_escape_characters() {
    for c in ['\n', '\'', '\\'] {
        assert_eq!(
            ParseError::Mismatch(Token::RParen, Token::Char(c)).message(),
            format!("Expected: {:?} - Found {:?}", Token::RParen, Token::Char(c))
        );
        assert_eq!(
            ParseError::ExpectedEnd(Token::Char(c)).message(),
            format!("Expected end of input, found {:?}", Token::Char(c))
        );
    }
}
