use crate::tokenizer::{tokens_of, Token, Tokenizer};
use vstd::prelude::*;

verus! {

/// The syntax tree of a pattern.
#[derive(Debug, PartialEq)]
pub enum AST {
    Alternation(Box<AST>, Box<AST>),
    Catenation(Box<AST>, Box<AST>),
    Closure(Box<AST>),
    Char(char),
    OneOrMore(Box<AST>),
    AnyChar,
}

pub fn ast_alternation(lhs: AST, rhs: AST) -> (r: AST)
    ensures
        r == AST::Alternation(Box::new(lhs), Box::new(rhs)),
{
    AST::Alternation(Box::new(lhs), Box::new(rhs))
}

pub fn ast_catenation(lhs: AST, rhs: AST) -> (r: AST)
    ensures
        r == AST::Catenation(Box::new(lhs), Box::new(rhs)),
{
    AST::Catenation(Box::new(lhs), Box::new(rhs))
}

pub fn ast_closure(val: AST) -> (r: AST)
    ensures
        r == AST::Closure(Box::new(val)),
{
    AST::Closure(Box::new(val))
}

pub fn ast_char(c: char) -> (r: AST)
    ensures
        r == AST::Char(c),
{
    AST::Char(c)
}

pub fn ast_any_char() -> (r: AST)
    ensures
        r == AST::AnyChar,
{
    AST::AnyChar
}

pub fn ast_one_or_more(val: AST) -> (r: AST)
    ensures
        r == AST::OneOrMore(Box::new(val)),
{
    AST::OneOrMore(Box::new(val))
}

/// Why a pattern is not well formed.
#[derive(Debug, PartialEq, Eq, Clone, Copy, Structural)]
pub enum ParseError {
    /// The pattern ended where an atom or a `)` was needed.
    UnexpectedEnd,
    /// A token that cannot begin an atom stood where an atom was needed.
    UnexpectedToken(Token),
    /// The first token was needed, the second was found.
    Mismatch(Token, Token),
    /// A complete expression was followed by more tokens.
    ExpectedEnd(Token),
}

impl ParseError {
    pub open spec fn spec_message(self) -> Seq<char> {
        match self {
            ParseError::UnexpectedEnd => "Unexpected end of input"@,
            ParseError::UnexpectedToken(t) => "Unexpected token: "@ + t.spec_name(),
            ParseError::Mismatch(e, f) => "Expected: "@ + e.spec_name() + " - Found "@
                + f.spec_name(),
            ParseError::ExpectedEnd(t) => "Expected end of input, found "@ + t.spec_name(),
        }
    }

    pub fn message(&self) -> (s: String)
        ensures
            s@ == self.spec_message(),
    {
        match self {
            ParseError::UnexpectedEnd => String::from_str("Unexpected end of input"),
            ParseError::UnexpectedToken(t) => {
                let mut s = String::from_str("Unexpected token: ");
                s.append(t.name().as_str());
                s
            },
            ParseError::Mismatch(e, f) => {
                let mut s = String::from_str("Expected: ");
                s.append(e.name().as_str());
                s.append(" - Found ");
                s.append(f.name().as_str());
                s
            },
            ParseError::ExpectedEnd(t) => {
                let mut s = String::from_str("Expected end of input, found ");
                s.append(t.name().as_str());
                s
            },
        }
    }
}

/// What parsing a prefix of a token sequence gives: the tree and the tokens left over.
pub type Parsed = Result<(AST, Seq<Token>), ParseError>;

/// `RegExpr ::= Catenation ('|' RegExpr)?`
pub open spec fn reg_expr_spec(toks: Seq<Token>) -> Parsed
    decreases toks.len(), 4nat,
{
    match catenation_spec(toks) {
        Err(e) => Err(e),
        Ok((lhs, rest)) => if rest.len() > 0 && rest[0] == Token::UnionBar && rest.len()
            < toks.len() {
            union_spec(lhs, reg_expr_spec(rest.drop_first()))
        } else {
            Ok((lhs, rest))
        },
    }
}

pub open spec fn union_spec(lhs: AST, rhs: Parsed) -> Parsed {
    match rhs {
        Err(e) => Err(e),
        Ok((rhs, rest)) => Ok((AST::Alternation(Box::new(lhs), Box::new(rhs)), rest)),
    }
}

/// `Catenation ::= Repetition Catenation?`, going on while the next token can begin an atom.
pub open spec fn catenation_spec(toks: Seq<Token>) -> Parsed
    decreases toks.len(), 2nat,
{
    match kleene_spec(toks) {
        Err(e) => Err(e),
        Ok((lhs, rest)) => if rest.len() > 0 && rest[0].starts_atom() && rest.len()
            < toks.len() {
            cat_spec(lhs, catenation_spec(rest))
        } else {
            Ok((lhs, rest))
        },
    }
}

pub open spec fn cat_spec(lhs: AST, rhs: Parsed) -> Parsed {
    match rhs {
        Err(e) => Err(e),
        Ok((rhs, rest)) => Ok((AST::Catenation(Box::new(lhs), Box::new(rhs)), rest)),
    }
}

/// `Repetition ::= Atom ('*' | '+')?`
pub open spec fn kleene_spec(toks: Seq<Token>) -> Parsed
    decreases toks.len(), 1nat,
{
    match atom_spec(toks) {
        Err(e) => Err(e),
        Ok((a, rest)) => if rest.len() > 0 && rest[0] == Token::KleeneStar {
            Ok((AST::Closure(Box::new(a)), rest.drop_first()))
        } else if rest.len() > 0 && rest[0] == Token::KleenePlus {
            Ok((AST::OneOrMore(Box::new(a)), rest.drop_first()))
        } else {
            Ok((a, rest))
        },
    }
}

/// `Atom ::= '(' RegExpr ')' | '.' | Literal`
pub open spec fn atom_spec(toks: Seq<Token>) -> Parsed
    decreases toks.len(), 0nat,
{
    if toks.len() == 0 {
        Err(ParseError::UnexpectedEnd)
    } else {
        match toks[0] {
            Token::AnyChar => Ok((AST::AnyChar, toks.drop_first())),
            Token::Char(c) => Ok((AST::Char(c), toks.drop_first())),
            Token::LParen => parens_spec(reg_expr_spec(toks.drop_first())),
            t => Err(ParseError::UnexpectedToken(t)),
        }
    }
}

/// The closing `)` after a parenthesised expression.
pub open spec fn parens_spec(inner: Parsed) -> Parsed {
    match inner {
        Err(e) => Err(e),
        Ok((a, rest)) => if rest.len() == 0 {
            Err(ParseError::UnexpectedEnd)
        } else if rest[0] == Token::RParen {
            Ok((a, rest.drop_first()))
        } else {
            Err(ParseError::Mismatch(Token::RParen, rest[0]))
        },
    }
}

/// Every production that succeeds takes at least one token. So the length guards in
/// the productions above always hold; they are there to show that the recursion ends.
pub proof fn lemma_progress(toks: Seq<Token>)
    ensures
        atom_spec(toks) is Ok ==> atom_spec(toks)->Ok_0.1.len() < toks.len(),
        kleene_spec(toks) is Ok ==> kleene_spec(toks)->Ok_0.1.len() < toks.len(),
        catenation_spec(toks) is Ok ==> catenation_spec(toks)->Ok_0.1.len() < toks.len(),
        reg_expr_spec(toks) is Ok ==> reg_expr_spec(toks)->Ok_0.1.len() < toks.len(),
    decreases toks.len(),
{
    if toks.len() > 0 {
        lemma_progress(toks.drop_first());
    }
    if let Ok((_, rest)) = kleene_spec(toks) {
        if rest.len() < toks.len() {
            lemma_progress(rest);
        }
    }
    if let Ok((_, rest)) = catenation_spec(toks) {
        if 0 < rest.len() < toks.len() {
            lemma_progress(rest.drop_first());
        }
    }
}

/// The tree of a whole token sequence, which must leave no token over.
pub open spec fn parse_spec(toks: Seq<Token>) -> Result<AST, ParseError> {
    match reg_expr_spec(toks) {
        Err(e) => Err(e),
        Ok((a, rest)) => if rest.len() == 0 {
            Ok(a)
        } else {
            Err(ParseError::ExpectedEnd(rest[0]))
        },
    }
}

/// The tree of a pattern.
pub open spec fn parse_pattern(p: Seq<char>) -> Result<AST, ParseError> {
    parse_spec(tokens_of(p))
}

/// An exec result `r`, with the tokens `after` left in the parser, agrees with `res`.
pub open spec fn agrees(res: Parsed, r: Result<AST, String>, after: Seq<Token>) -> bool {
    match res {
        Ok((a, rest)) => r == Ok::<AST, String>(a) && after == rest,
        Err(e) => r is Err && r->Err_0@ == e.spec_message(),
    }
}

/// A recursive-descent parser over a token stream.
pub struct Parser {
    tokens: Tokenizer,
}

impl View for Parser {
    type V = Seq<Token>;

    closed spec fn view(&self) -> Seq<Token> {
        self.tokens@
    }
}

impl Parser {
    pub closed spec fn wf(&self) -> bool {
        self.tokens.wf()
    }

    /// Parses a whole token stream.
    pub fn parse(tokenizer: Tokenizer) -> (r: Result<AST, String>)
        requires
            tokenizer.wf(),
        ensures
            match parse_spec(tokenizer@) {
                Ok(a) => r == Ok::<AST, String>(a),
                Err(e) => r is Err && r->Err_0@ == e.spec_message(),
            },
    {
        let mut parser = Parser { tokens: tokenizer };
        let result = parser.reg_expr();
        match result {
            Err(e) => Err(e),
            Ok(a) => match parser.tokens.next() {
                Some(t) => Err(ParseError::ExpectedEnd(t).message()),
                None => Ok(a),
            },
        }
    }

    /// A parser over the tokens of a pattern.
    pub fn from(input: &str) -> (p: Parser)
        ensures
            p.wf(),
            p@ == tokens_of(input@),
    {
        Parser { tokens: Tokenizer::new(input) }
    }

    pub fn reg_expr(&mut self) -> (r: Result<AST, String>)
        requires
            old(self).wf(),
        ensures
            final(self).wf(),
            agrees(reg_expr_spec(old(self)@), r, final(self)@),
            r is Ok ==> final(self)@.len() < old(self)@.len(),
        decreases old(self)@.len(), 4nat,
    {
        let lhs = match self.catenation() {
            Ok(a) => a,
            Err(e) => return Err(e),
        };
        match self.tokens.peek() {
            Some(Token::UnionBar) => self.handle_union_bar(lhs),
            _ => Ok(lhs),
        }
    }

    fn handle_union_bar(&mut self, lhs: AST) -> (r: Result<AST, String>)
        requires
            old(self).wf(),
            old(self)@.len() > 0,
        ensures
            final(self).wf(),
            agrees(union_spec(lhs, reg_expr_spec(old(self)@.drop_first())), r, final(self)@),
            r is Ok ==> final(self)@.len() < old(self)@.len(),
        decreases old(self)@.len(), 5nat,
    {
        let _ = self.take_next_token();
        let rhs = match self.reg_expr() {
            Ok(a) => a,
            Err(e) => return Err(e),
        };
        Ok(ast_alternation(lhs, rhs))
    }

    pub fn atom(&mut self) -> (r: Result<AST, String>)
        requires
            old(self).wf(),
        ensures
            final(self).wf(),
            agrees(atom_spec(old(self)@), r, final(self)@),
            r is Ok ==> final(self)@.len() < old(self)@.len(),
        decreases old(self)@.len(), 0nat,
    {
        let t = match self.take_next_token() {
            Ok(t) => t,
            Err(e) => return Err(e),
        };
        match t {
            Token::AnyChar => self.handle_any_char(),
            Token::Char(c) => self.handle_char(c),
            Token::LParen => self.handle_parens(),
            _ => Err(ParseError::UnexpectedToken(t).message()),
        }
    }

    fn handle_any_char(&mut self) -> (r: Result<AST, String>)
        ensures
            r == Ok::<AST, String>(AST::AnyChar),
            *final(self) == *old(self),
    {
        Ok(ast_any_char())
    }

    fn handle_char(&mut self, c: char) -> (r: Result<AST, String>)
        ensures
            r == Ok::<AST, String>(AST::Char(c)),
            *final(self) == *old(self),
    {
        Ok(ast_char(c))
    }

    fn handle_parens(&mut self) -> (r: Result<AST, String>)
        requires
            old(self).wf(),
        ensures
            final(self).wf(),
            agrees(parens_spec(reg_expr_spec(old(self)@)), r, final(self)@),
            r is Ok ==> final(self)@.len() < old(self)@.len(),
        decreases old(self)@.len(), 5nat,
    {
        let express = match self.reg_expr() {
            Ok(a) => a,
            Err(e) => return Err(e),
        };
        match self.consume_token(Token::RParen) {
            Ok(_) => Ok(express),
            Err(e) => Err(e),
        }
    }

    pub fn kleene(&mut self) -> (r: Result<AST, String>)
        requires
            old(self).wf(),
        ensures
            final(self).wf(),
            agrees(kleene_spec(old(self)@), r, final(self)@),
            r is Ok ==> final(self)@.len() < old(self)@.len(),
        decreases old(self)@.len(), 1nat,
    {
        let atm = match self.atom() {
            Ok(a) => a,
            Err(e) => return Err(e),
        };
        match self.tokens.peek() {
            Some(Token::KleeneStar) => self.handle_kleene_star(atm),
            Some(Token::KleenePlus) => self.handle_kleene_plus(atm),
            _ => Ok(atm),
        }
    }

    fn handle_kleene_star(&mut self, atom: AST) -> (r: Result<AST, String>)
        requires
            old(self).wf(),
            old(self)@.len() > 0,
        ensures
            final(self).wf(),
            r == Ok::<AST, String>(AST::Closure(Box::new(atom))),
            final(self)@ == old(self)@.drop_first(),
    {
        let _ = self.take_next_token();
        Ok(ast_closure(atom))
    }

    fn handle_kleene_plus(&mut self, atom: AST) -> (r: Result<AST, String>)
        requires
            old(self).wf(),
            old(self)@.len() > 0,
        ensures
            final(self).wf(),
            r == Ok::<AST, String>(AST::OneOrMore(Box::new(atom))),
            final(self)@ == old(self)@.drop_first(),
    {
        let _ = self.take_next_token();
        Ok(ast_one_or_more(atom))
    }

    pub fn catenation(&mut self) -> (r: Result<AST, String>)
        requires
            old(self).wf(),
        ensures
            final(self).wf(),
            agrees(catenation_spec(old(self)@), r, final(self)@),
            r is Ok ==> final(self)@.len() < old(self)@.len(),
        decreases old(self)@.len(), 2nat,
    {
        let closure = match self.kleene() {
            Ok(a) => a,
            Err(e) => return Err(e),
        };
        match self.tokens.peek() {
            Some(Token::LParen) | Some(Token::AnyChar) | Some(Token::Char(_)) => {
                self.handle_catenation(closure)
            },
            _ => Ok(closure),
        }
    }

    fn handle_catenation(&mut self, closure: AST) -> (r: Result<AST, String>)
        requires
            old(self).wf(),
        ensures
            final(self).wf(),
            agrees(cat_spec(closure, catenation_spec(old(self)@)), r, final(self)@),
            r is Ok ==> final(self)@.len() < old(self)@.len(),
        decreases old(self)@.len(), 3nat,
    {
        let rhs = match self.catenation() {
            Ok(a) => a,
            Err(e) => return Err(e),
        };
        Ok(ast_catenation(closure, rhs))
    }

    /// Takes the next token, which must be there.
    fn take_next_token(&mut self) -> (r: Result<Token, String>)
        requires
            old(self).wf(),
        ensures
            final(self).wf(),
            old(self)@.len() == 0 ==> r is Err && r->Err_0@
                == ParseError::UnexpectedEnd.spec_message(),
            old(self)@.len() > 0 ==> r == Ok::<Token, String>(old(self)@[0]) && final(self)@
                == old(self)@.drop_first(),
    {
        match self.tokens.next() {
            Some(token) => Ok(token),
            None => Err(ParseError::UnexpectedEnd.message()),
        }
    }

    /// Takes the next token, which must be `expected`.
    fn consume_token(&mut self, expected: Token) -> (r: Result<Token, String>)
        requires
            old(self).wf(),
        ensures
            final(self).wf(),
            old(self)@.len() == 0 ==> r is Err && r->Err_0@
                == ParseError::UnexpectedEnd.spec_message(),
            old(self)@.len() > 0 && old(self)@[0] == expected ==> r == Ok::<Token, String>(
                expected,
            ) && final(self)@ == old(self)@.drop_first(),
            old(self)@.len() > 0 && old(self)@[0] != expected ==> r is Err && r->Err_0@
                == ParseError::Mismatch(expected, old(self)@[0]).spec_message(),
    {
        match self.tokens.next() {
            Some(next) => if next != expected {
                Err(ParseError::Mismatch(expected, next).message())
            } else {
                Ok(next)
            },
            None => Err(ParseError::UnexpectedEnd.message()),
        }
    }
}

} // verus!
