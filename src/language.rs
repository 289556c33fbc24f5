use crate::parser::AST;
use vstd::prelude::*;

verus! {

/// A measure that falls from `OneOrMore(c)` to `Closure(c)` to `c`.
pub open spec fn rank(a: AST) -> nat
    decreases a,
{
    match a {
        AST::AnyChar => 1,
        AST::Char(_) => 1,
        AST::Catenation(l, r) => rank(*l) + rank(*r) + 1,
        AST::Alternation(l, r) => rank(*l) + rank(*r) + 1,
        AST::Closure(c) => rank(*c) + 1,
        AST::OneOrMore(c) => rank(*c) + 2,
    }
}

/// The language of a tree: whether it matches the whole of `s`.
pub open spec fn in_lang(a: AST, s: Seq<char>) -> bool
    decreases rank(a), s.len(), s.len() + 2,
{
    match a {
        AST::AnyChar => s.len() == 1,
        AST::Char(c) => s == seq![c],
        AST::Alternation(l, r) => in_lang(*l, s) || in_lang(*r, s),
        AST::Closure(_) => s.len() == 0 || split_lang(a, s, s.len()),
        _ => split_lang(a, s, s.len()),
    }
}

/// Some split point `i <= k` of `s` fits the compound tree `a` (see `split_ok`).
pub open spec fn split_lang(a: AST, s: Seq<char>, k: nat) -> bool
    decreases rank(a), s.len(), k + 1,
{
    split_ok(a, s, k as int) || (k > 0 && split_lang(a, s, (k - 1) as nat))
}

/// Splitting `s` at `i` fits the compound tree `a`:
/// - `Catenation(l, r)`: `l` matches `s[..i]` and `r` matches `s[i..]`;
/// - `Closure(c)`: `c` matches a non-empty `s[..i]` and `a` matches `s[i..]`;
/// - `OneOrMore(c)`: `c` matches `s[..i]` and `Closure(c)` matches `s[i..]`.
pub open spec fn split_ok(a: AST, s: Seq<char>, i: int) -> bool
    decreases rank(a), s.len(), 0nat,
{
    if 0 <= i <= s.len() {
        match a {
            AST::Catenation(l, r) => in_lang(*l, s.subrange(0, i)) && in_lang(
                *r,
                s.subrange(i, s.len() as int),
            ),
            AST::Closure(c) => i > 0 && in_lang(*c, s.subrange(0, i)) && in_lang(
                a,
                s.subrange(i, s.len() as int),
            ),
            AST::OneOrMore(c) => in_lang(*c, s.subrange(0, i)) && in_lang(
                AST::Closure(c),
                s.subrange(i, s.len() as int),
            ),
            _ => false,
        }
    } else {
        false
    }
}

/// A split point that fits gives a match of the compound tree.
pub proof fn lemma_split_intro(a: AST, s: Seq<char>, i: int, k: nat)
    requires
        split_ok(a, s, i),
        i <= k,
    ensures
        split_lang(a, s, k),
    decreases k,
{
    if i < k {
        lemma_split_intro(a, s, i, (k - 1) as nat);
    }
}

/// A match of the compound tree has a split point that fits.
pub proof fn lemma_split_elim(a: AST, s: Seq<char>, k: nat) -> (i: int)
    requires
        split_lang(a, s, k),
    ensures
        0 <= i <= k,
        split_ok(a, s, i),
    decreases k,
{
    if split_ok(a, s, k as int) {
        k as int
    } else {
        lemma_split_elim(a, s, (k - 1) as nat)
    }
}

} // verus!
