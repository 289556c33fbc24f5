use crate::language::{in_lang, lemma_split_elim, lemma_split_intro, split_lang, split_ok};
use crate::nfa::NFA;
use crate::parser::{
    atom_spec, catenation_spec, kleene_spec, parse_pattern, reg_expr_spec, ParseError, AST,
};
use crate::thompson::{compiled, lemma_compiled_language, lemma_compiled_unique};
use crate::tokenizer::{token_of, tokens_of, Token};
use vstd::prelude::*;

verus! {

/// Whether a tree can derive the empty string.
pub open spec fn nullable(a: AST) -> bool
    decreases a,
{
    match a {
        AST::AnyChar => false,
        AST::Char(_) => false,
        AST::Catenation(l, r) => nullable(*l) && nullable(*r),
        AST::Alternation(l, r) => nullable(*l) || nullable(*r),
        AST::Closure(_) => true,
        AST::OneOrMore(c) => nullable(*c),
    }
}

/// A pattern made only of plain characters, with no operator among them.
pub open spec fn is_literal(p: Seq<char>) -> bool {
    p.len() > 0 && forall|i: int| 0 <= i < p.len() ==> #[trigger] token_of(p[i]) is Char
}

/// The tree of a literal pattern: its characters in a right-nested catenation.
pub open spec fn literal_ast(p: Seq<char>) -> AST
    decreases p.len(),
{
    if p.len() <= 1 {
        AST::Char(p[0])
    } else {
        AST::Catenation(Box::new(AST::Char(p[0])), Box::new(literal_ast(p.drop_first())))
    }
}

/// `s` is the concatenation of `parts`, each in the language of `c`.
pub open spec fn pieces_of(c: AST, parts: Seq<Seq<char>>, s: Seq<char>) -> bool {
    &&& forall|i: int| 0 <= i < parts.len() ==> in_lang(c, #[trigger] parts[i])
    &&& parts.flatten() == s
}

proof fn lemma_nullable(a: AST)
    requires
        nullable(a),
    ensures
        in_lang(a, Seq::empty()),
    decreases a,
{
    let e = Seq::<char>::empty();
    match a {
        AST::Catenation(l, r) => {
            lemma_nullable(*l);
            lemma_nullable(*r);
            assert(e.subrange(0, 0) =~= e);
            assert(split_ok(a, e, 0));
            lemma_split_intro(a, e, 0, 0);
        },
        AST::Alternation(l, r) => {
            if nullable(*l) {
                lemma_nullable(*l);
            } else {
                lemma_nullable(*r);
            }
        },
        AST::OneOrMore(c) => {
            lemma_nullable(*c);
            assert(e.subrange(0, 0) =~= e);
            assert(split_ok(a, e, 0));
            lemma_split_intro(a, e, 0, 0);
        },
        _ => {},
    }
}

/// A string in the language of `Closure(c)` is cut into pieces in the language of `c`.
proof fn lemma_star_to_pieces(c: AST, s: Seq<char>) -> (parts: Seq<Seq<char>>)
    requires
        in_lang(AST::Closure(Box::new(c)), s),
    ensures
        pieces_of(c, parts, s),
    decreases s.len(),
{
    let a = AST::Closure(Box::new(c));
    if s.len() == 0 {
        let parts = Seq::<Seq<char>>::empty();
        assert(parts.flatten() =~= s);
        parts
    } else {
        let i = lemma_split_elim(a, s, s.len());
        let rest = lemma_star_to_pieces(c, s.subrange(i, s.len() as int));
        let parts = seq![s.subrange(0, i)] + rest;
        assert(parts.drop_first() =~= rest);
        assert(parts.flatten() =~= s);
        assert forall|k: int| 0 <= k < parts.len() implies in_lang(c, #[trigger] parts[k]) by {
            if k > 0 {
                assert(parts[k] == rest[k - 1]);
            }
        }
        parts
    }
}

/// Pieces in the language of `c` join into a string in the language of `Closure(c)`.
proof fn lemma_pieces_to_star(c: AST, parts: Seq<Seq<char>>, s: Seq<char>)
    requires
        pieces_of(c, parts, s),
    ensures
        in_lang(AST::Closure(Box::new(c)), s),
    decreases parts.len(),
{
    let a = AST::Closure(Box::new(c));
    if parts.len() > 0 {
        let rest = parts.drop_first();
        let first = parts[0];
        assert forall|k: int| 0 <= k < rest.len() implies in_lang(c, #[trigger] rest[k]) by {
            assert(rest[k] == parts[k + 1]);
        }
        lemma_pieces_to_star(c, rest, rest.flatten());
        if first.len() == 0 {
            assert(s =~= rest.flatten());
        } else {
            let i = first.len() as int;
            assert(s.subrange(0, i) =~= first);
            assert(s.subrange(i, s.len() as int) =~= rest.flatten());
            assert(split_ok(a, s, i));
            lemma_split_intro(a, s, i, s.len());
        }
    }
}

proof fn lemma_literal_parse(p: Seq<char>)
    requires
        is_literal(p),
    ensures
        catenation_spec(tokens_of(p)) == Ok::<(AST, Seq<Token>), ParseError>(
            (literal_ast(p), Seq::empty()),
        ),
    decreases p.len(),
{
    let toks = tokens_of(p);
    assert(token_of(p[0]) is Char);
    let rest = toks.drop_first();
    assert(rest =~= tokens_of(p.drop_first()));
    if p.len() > 1 {
        assert(token_of(p[1]) is Char);
        assert(is_literal(p.drop_first())) by {
            assert forall|i: int| 0 <= i < p.drop_first().len() implies #[trigger] token_of(
                p.drop_first()[i],
            ) is Char by {
                assert(token_of(p[i + 1]) is Char);
            }
        }
        lemma_literal_parse(p.drop_first());
        assert(rest[0] == token_of(p[1]));
        assert(rest[0].starts_atom());
    } else {
        assert(rest =~= Seq::<Token>::empty());
    }
    assert(atom_spec(toks) == Ok::<(AST, Seq<Token>), ParseError>((AST::Char(p[0]), rest)));
    assert(kleene_spec(toks) == Ok::<(AST, Seq<Token>), ParseError>((AST::Char(p[0]), rest)));
}

proof fn lemma_literal_lang(p: Seq<char>, q: Seq<char>)
    requires
        p.len() > 0,
    ensures
        in_lang(literal_ast(p), q) <==> q == p,
    decreases p.len(),
{
    if p.len() == 1 {
        if q == p {
            assert(q =~= seq![p[0]]);
        }
        if in_lang(literal_ast(p), q) {
            assert(q =~= p);
        }
    } else {
        let a = literal_ast(p);
        let tail = p.drop_first();
        if q == p {
            lemma_literal_lang(tail, q.subrange(1, q.len() as int));
            assert(q.subrange(0, 1) =~= seq![p[0]]);
            assert(q.subrange(1, q.len() as int) =~= tail);
            assert(split_ok(a, q, 1));
            lemma_split_intro(a, q, 1, q.len());
        }
        if in_lang(a, q) {
            let i = lemma_split_elim(a, q, q.len());
            assert(q.subrange(0, i) == seq![p[0]]);
            assert(q.subrange(0, i).len() == 1);
            lemma_literal_lang(tail, q.subrange(i, q.len() as int));
            assert(q =~= p) by {
                assert(q.subrange(0, 1)[0] == p[0]);
                assert forall|k: int| 0 <= k < q.len() implies q[k] == p[k] by {
                    if k > 0 {
                        assert(q.subrange(1, q.len() as int)[k - 1] == tail[k - 1]);
                    }
                }
            }
        }
    }
}

/// A pattern whose tree can derive the empty string accepts the empty input.
pub proof fn nullable_accepts_empty(nfa: NFA, a: AST)
    requires
        compiled(nfa@, a),
        nullable(a),
    ensures
        nfa.spec_accepts(Seq::empty()),
{
    lemma_nullable(a);
    lemma_compiled_language(nfa@, a, Seq::empty());
}

/// A pattern of plain characters parses to their catenation, and its automaton
/// accepts that exact string and nothing else.
pub proof fn literal_pattern_law(p: Seq<char>, nfa: NFA, q: Seq<char>)
    requires
        is_literal(p),
    ensures
        parse_pattern(p) == Ok::<AST, ParseError>(literal_ast(p)),
        compiled(nfa@, literal_ast(p)) ==> (nfa.spec_accepts(q) <==> q == p),
{
    lemma_literal_parse(p);
    assert(reg_expr_spec(tokens_of(p)) == Ok::<(AST, Seq<Token>), ParseError>(
        (literal_ast(p), Seq::empty()),
    ));
    lemma_literal_lang(p, q);
    if compiled(nfa@, literal_ast(p)) {
        lemma_compiled_language(nfa@, literal_ast(p), q);
    }
}

/// An alternation accepts exactly the strings of either branch.
pub proof fn alternation_law(nfa: NFA, l: AST, r: AST, s: Seq<char>)
    requires
        compiled(nfa@, AST::Alternation(Box::new(l), Box::new(r))),
    ensures
        nfa.spec_accepts(s) <==> in_lang(l, s) || in_lang(r, s),
{
    lemma_compiled_language(nfa@, AST::Alternation(Box::new(l), Box::new(r)), s);
}

/// A closure accepts exactly the concatenations of zero or more strings of its child.
pub proof fn closure_law(nfa: NFA, c: AST, s: Seq<char>)
    requires
        compiled(nfa@, AST::Closure(Box::new(c))),
    ensures
        nfa.spec_accepts(s) <==> exists|parts: Seq<Seq<char>>| pieces_of(c, parts, s),
{
    lemma_compiled_language(nfa@, AST::Closure(Box::new(c)), s);
    if nfa.spec_accepts(s) {
        let parts = lemma_star_to_pieces(c, s);
        assert(pieces_of(c, parts, s));
    }
    if exists|parts: Seq<Seq<char>>| pieces_of(c, parts, s) {
        let parts = choose|parts: Seq<Seq<char>>| pieces_of(c, parts, s);
        lemma_pieces_to_star(c, parts, s);
    }
}

/// A one-or-more repetition accepts exactly the concatenations of one or more
/// strings of its child.
pub proof fn one_or_more_law(nfa: NFA, c: AST, s: Seq<char>)
    requires
        compiled(nfa@, AST::OneOrMore(Box::new(c))),
    ensures
        nfa.spec_accepts(s) <==> exists|parts: Seq<Seq<char>>|
            parts.len() >= 1 && pieces_of(c, parts, s),
{
    let a = AST::OneOrMore(Box::new(c));
    lemma_compiled_language(nfa@, a, s);
    if nfa.spec_accepts(s) {
        let i = lemma_split_elim(a, s, s.len());
        let rest = lemma_star_to_pieces(c, s.subrange(i, s.len() as int));
        let parts = seq![s.subrange(0, i)] + rest;
        assert(parts.drop_first() =~= rest);
        assert(parts.flatten() =~= s);
        assert forall|k: int| 0 <= k < parts.len() implies in_lang(c, #[trigger] parts[k]) by {
            if k > 0 {
                assert(parts[k] == rest[k - 1]);
            }
        }
        assert(parts.len() >= 1 && pieces_of(c, parts, s));
    }
    if exists|parts: Seq<Seq<char>>| parts.len() >= 1 && pieces_of(c, parts, s) {
        let parts = choose|parts: Seq<Seq<char>>| parts.len() >= 1 && pieces_of(c, parts, s);
        let rest = parts.drop_first();
        assert forall|k: int| 0 <= k < rest.len() implies in_lang(c, #[trigger] rest[k]) by {
            assert(rest[k] == parts[k + 1]);
        }
        lemma_pieces_to_star(c, rest, rest.flatten());
        let i = parts[0].len() as int;
        assert(s.subrange(0, i) =~= parts[0]);
        assert(s.subrange(i, s.len() as int) =~= rest.flatten());
        assert(split_ok(a, s, i));
        lemma_split_intro(a, s, i, s.len());
    }
}

/// `x+` on a single character rejects the empty input.
pub proof fn one_or_more_char_rejects_empty(nfa: NFA, x: char)
    requires
        compiled(nfa@, AST::OneOrMore(Box::new(AST::Char(x)))),
    ensures
        !nfa.spec_accepts(Seq::empty()),
{
    let a = AST::OneOrMore(Box::new(AST::Char(x)));
    let e = Seq::<char>::empty();
    lemma_compiled_language(nfa@, a, e);
    assert(e.subrange(0, 0).len() == 0);
    assert(!split_ok(a, e, 0));
    assert(!split_lang(a, e, 0));
}

/// "Any character" accepts exactly the strings of one character, whatever it is.
pub proof fn any_char_law(nfa: NFA, s: Seq<char>)
    requires
        compiled(nfa@, AST::AnyChar),
    ensures
        nfa.spec_accepts(s) <==> s.len() == 1,
{
    lemma_compiled_language(nfa@, AST::AnyChar, s);
}

/// Two automata compiled from the same tree have the same arena, and so accept
/// the same strings.
pub proof fn compile_deterministic(n1: NFA, n2: NFA, a: AST, s: Seq<char>)
    requires
        compiled(n1@, a),
        compiled(n2@, a),
    ensures
        n1@ == n2@,
        n1.spec_accepts(s) == n2.spec_accepts(s),
{
    lemma_compiled_unique(n1@, n2@, a);
    lemma_compiled_language(n1@, a, s);
    lemma_compiled_language(n2@, a, s);
}

} // verus!
