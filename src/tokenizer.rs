use vstd::prelude::*;
use vstd::std_specs::iter::IteratorSpec;

verus! {

/// The tokens of a pattern: one for each character of it.
#[derive(Debug, PartialEq, Eq, Clone, Copy, Structural)]
pub enum Token {
    LParen,
    RParen,
    UnionBar,
    KleeneStar,
    KleenePlus,
    AnyChar,
    Char(char),
}

/// The token that a single pattern character stands for.
pub open spec fn token_of(c: char) -> Token {
    if c == '(' {
        Token::LParen
    } else if c == ')' {
        Token::RParen
    } else if c == '|' {
        Token::UnionBar
    } else if c == '*' {
        Token::KleeneStar
    } else if c == '+' {
        Token::KleenePlus
    } else if c == '.' {
        Token::AnyChar
    } else {
        Token::Char(c)
    }
}

impl Token {
    /// How the token is written in a parse error message: as `{:?}` writes it.
    pub open spec fn spec_name(self) -> Seq<char> {
        match self {
            Token::LParen => "LParen"@,
            Token::RParen => "RParen"@,
            Token::UnionBar => "UnionBar"@,
            Token::KleeneStar => "KleeneStar"@,
            Token::KleenePlus => "KleenePlus"@,
            Token::AnyChar => "AnyChar"@,
            Token::Char(c) => "Char("@ + char_debug(c) + ")"@,
        }
    }

    pub fn name(&self) -> (s: String)
        ensures
            s@ == self.spec_name(),
    {
        match self {
            Token::LParen => String::from_str("LParen"),
            Token::RParen => String::from_str("RParen"),
            Token::UnionBar => String::from_str("UnionBar"),
            Token::KleeneStar => String::from_str("KleeneStar"),
            Token::KleenePlus => String::from_str("KleenePlus"),
            Token::AnyChar => String::from_str("AnyChar"),
            Token::Char(c) => {
                let mut s = String::from_str("Char(");
                s.append(debug_char(*c).as_str());
                s.append(")");
                s
            },
        }
    }

    /// Whether the token can begin an atom.
    pub open spec fn starts_atom(self) -> bool {
        self is LParen || self is AnyChar || self is Char
    }
}

/// What `{:?}` writes for a character: the character between single quotes, with
/// the escapes of std's `Debug` for `char`.
pub uninterp spec fn char_debug(c: char) -> Seq<char>;

/// Relies on std's `Debug` for `char`, through `format!("{:?}")`: the text depends on
/// the character alone.
#[verifier::external_body]
fn debug_char(c: char) -> (r: String)
    ensures
        r@ == char_debug(c),
{
    format!("{:?}", c)
}

/// The whole token sequence of a pattern.
pub open spec fn tokens_of(p: Seq<char>) -> Seq<Token> {
    p.map_values(|c: char| token_of(c))
}

fn lex_char(c: char) -> (t: Token)
    ensures
        t == token_of(c),
{
    match c {
        '(' => Token::LParen,
        ')' => Token::RParen,
        '|' => Token::UnionBar,
        '*' => Token::KleeneStar,
        '+' => Token::KleenePlus,
        '.' => Token::AnyChar,
        _ => Token::Char(c),
    }
}

/// The characters of a string, in order.
pub(crate) fn chars_of(input: &str) -> (r: Vec<char>)
    ensures
        r@ == input@,
{
    let mut it = input.chars();
    let mut v: Vec<char> = Vec::new();
    loop
        invariant
            v@ + it.remaining() == input@,
            it.obeys_prophetic_iter_laws(),
            it.decrease() is Some,
        ensures
            v@ == input@,
        decreases it.decrease()->0,
    {
        match it.next() {
            Some(c) => {
                v.push(c);
            },
            None => {
                assert(v@ + it.remaining() =~= v@);
                break;
            },
        }
    }
    v
}

/// A lazy, single-pass stream of the tokens of a pattern.
pub struct Tokenizer {
    chars: Vec<char>,
    pos: usize,
}

impl View for Tokenizer {
    type V = Seq<Token>;

    /// The tokens that are still to come.
    closed spec fn view(&self) -> Seq<Token> {
        tokens_of(self.chars@.subrange(self.pos as int, self.chars@.len() as int))
    }
}

impl Tokenizer {
    pub closed spec fn wf(&self) -> bool {
        self.pos <= self.chars@.len()
    }

    pub fn new(input: &str) -> (t: Tokenizer)
        ensures
            t.wf(),
            t@ == tokens_of(input@),
    {
        let chars = chars_of(input);
        proof {
            assert(chars@.subrange(0, chars@.len() as int) =~= chars@);
        }
        Tokenizer { chars, pos: 0 }
    }

    /// The next token without taking it.
    pub fn peek(&self) -> (r: Option<Token>)
        requires
            self.wf(),
        ensures
            self@.len() == 0 ==> r is None,
            self@.len() > 0 ==> r == Some(self@[0]),
    {
        if self.pos < self.chars.len() {
            Some(lex_char(self.chars[self.pos]))
        } else {
            None
        }
    }

    /// Takes the next token; `None` once the pattern is used up.
    pub fn next(&mut self) -> (r: Option<Token>)
        requires
            old(self).wf(),
        ensures
            final(self).wf(),
            old(self)@.len() == 0 ==> r is None && final(self)@ == old(self)@,
            old(self)@.len() > 0 ==> r == Some(old(self)@[0]) && final(self)@ == old(self)@.drop_first(),
    {
        if self.pos < self.chars.len() {
            let c = self.chars[self.pos];
            self.pos = self.pos + 1;
            proof {
                assert(self@ =~= old(self)@.drop_first());
            }
            Some(lex_char(c))
        } else {
            None
        }
    }
}

} // verus!
