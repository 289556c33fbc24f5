use crate::language::{in_lang, lemma_split_elim, lemma_split_intro, rank, split_ok};
use crate::nfa::{accepts_from, arena_accepts, wired_within, Char, State};
use crate::parser::AST;
use vstd::prelude::*;

verus! {

/// How many states the fragment of a tree takes in the arena.
pub open spec fn size(a: AST) -> nat
    decreases a,
{
    match a {
        AST::AnyChar => 1,
        AST::Char(_) => 1,
        AST::Catenation(l, r) => size(*l) + size(*r),
        AST::Alternation(l, r) => size(*l) + size(*r) + 1,
        AST::Closure(c) => size(*c) + 1,
        AST::OneOrMore(c) => size(*c) + 1,
    }
}

/// The entry state of the fragment of `a` laid out from index `lo`.
pub open spec fn frag_start(a: AST, lo: int) -> int
    decreases a,
{
    match a {
        AST::AnyChar => lo,
        AST::Char(_) => lo,
        AST::Catenation(l, _) => frag_start(*l, lo),
        AST::Alternation(l, r) => lo + size(*l) + size(*r),
        AST::Closure(c) => lo + size(*c),
        AST::OneOrMore(c) => frag_start(*c, lo),
    }
}

/// The states from `lo` on hold the fragment of `a`, laid out children first, with
/// every exit edge set to `t` (`None` while it waits to be wired).
pub open spec fn wired(states: Seq<State>, a: AST, lo: int, t: Option<usize>) -> bool
    decreases a,
{
    match a {
        AST::AnyChar => states[lo] == State::Match(Char::Any, t),
        AST::Char(c) => states[lo] == State::Match(Char::Literal(c), t),
        AST::Catenation(l, r) => {
            &&& wired(states, *l, lo, Some(frag_start(*r, lo + size(*l)) as usize))
            &&& wired(states, *r, lo + size(*l), t)
        },
        AST::Alternation(l, r) => {
            &&& wired(states, *l, lo, t)
            &&& wired(states, *r, lo + size(*l), t)
            &&& states[lo + size(*l) + size(*r)] == State::Split(
                Some(frag_start(*l, lo) as usize),
                Some(frag_start(*r, lo + size(*l)) as usize),
            )
        },
        AST::Closure(c) => {
            &&& wired(states, *c, lo, Some((lo + size(*c)) as usize))
            &&& states[lo + size(*c)] == State::Split(Some(frag_start(*c, lo) as usize), t)
        },
        AST::OneOrMore(c) => {
            &&& wired(states, *c, lo, Some((lo + size(*c)) as usize))
            &&& states[lo + size(*c)] == State::Split(Some(frag_start(*c, lo) as usize), t)
        },
    }
}

/// `k` is a state of the fragment whose exit edge leaves the fragment.
pub open spec fn is_exit(a: AST, lo: int, k: int) -> bool
    decreases a,
{
    match a {
        AST::AnyChar => k == lo,
        AST::Char(_) => k == lo,
        AST::Catenation(l, r) => is_exit(*r, lo + size(*l), k),
        AST::Alternation(l, r) => is_exit(*l, lo, k) || is_exit(*r, lo + size(*l), k),
        AST::Closure(c) => k == lo + size(*c),
        AST::OneOrMore(c) => k == lo + size(*c),
    }
}

/// The exits of the fragment of `a` at `lo`, in the order construction lists them:
/// a catenation has those of its right part, an alternation those of its left branch
/// then of its right, and a loop the one split after its child.
pub open spec fn exit_list(a: AST, lo: int) -> Seq<usize>
    decreases a,
{
    match a {
        AST::AnyChar => seq![lo as usize],
        AST::Char(_) => seq![lo as usize],
        AST::Catenation(l, r) => exit_list(*r, lo + size(*l)),
        AST::Alternation(l, r) => exit_list(*l, lo) + exit_list(*r, lo + size(*l)),
        AST::Closure(c) => seq![(lo + size(*c)) as usize],
        AST::OneOrMore(c) => seq![(lo + size(*c)) as usize],
    }
}

/// `k` is one of the indices in `ends`.
pub open spec fn listed(ends: Seq<usize>, k: int) -> bool {
    exists|i: int| 0 <= i < ends.len() && #[trigger] ends[i] as int == k
}

/// `ends` lists exactly the exits of the fragment of `a` at `lo`.
pub open spec fn ends_ok(ends: Seq<usize>, a: AST, lo: int) -> bool {
    &&& forall|i: int| 0 <= i < ends.len() ==> is_exit(a, lo, #[trigger] ends[i] as int)
    &&& forall|k: int| #[trigger] is_exit(a, lo, k) ==> listed(ends, k)
}

/// The exit edge of a state, set to `to`.
pub open spec fn set_exit(st: State, to: usize) -> State {
    match st {
        State::Start(_) => State::Start(Some(to)),
        State::Match(c, _) => State::Match(c, Some(to)),
        State::Split(a, _) => State::Split(a, Some(to)),
        State::End => State::End,
    }
}

/// The arena compiled from `a`: `Start`, the fragment of `a`, then `End`.
pub open spec fn compiled(states: Seq<State>, a: AST) -> bool {
    &&& states.len() == size(a) + 2
    &&& states.len() <= usize::MAX
    &&& states[0] == State::Start(Some(frag_start(a, 1) as usize))
    &&& wired(states, a, 1, Some((size(a) + 1) as usize))
    &&& states[size(a) + 1int] == State::End
}

pub proof fn lemma_size_pos(a: AST)
    ensures
        size(a) >= 1,
    decreases a,
{
    match a {
        AST::Catenation(l, r) => {
            lemma_size_pos(*l);
            lemma_size_pos(*r);
        },
        AST::Alternation(l, r) => {},
        _ => {},
    }
}

pub proof fn lemma_start_within(a: AST, lo: int)
    ensures
        lo <= frag_start(a, lo) < lo + size(a),
    decreases a,
{
    match a {
        AST::Catenation(l, r) => {
            lemma_start_within(*l, lo);
            lemma_size_pos(*r);
        },
        AST::Alternation(l, r) => {},
        AST::OneOrMore(c) => {
            lemma_start_within(*c, lo);
        },
        _ => {},
    }
}

pub proof fn lemma_exit_within(a: AST, lo: int, k: int)
    requires
        is_exit(a, lo, k),
    ensures
        lo <= k < lo + size(a),
    decreases a,
{
    lemma_size_pos(a);
    match a {
        AST::Catenation(l, r) => {
            lemma_exit_within(*r, lo + size(*l), k);
            lemma_size_pos(*l);
        },
        AST::Alternation(l, r) => {
            if is_exit(*l, lo, k) {
                lemma_exit_within(*l, lo, k);
            } else {
                lemma_exit_within(*r, lo + size(*l), k);
            }
        },
        _ => {},
    }
}

pub proof fn lemma_listed_exit(ends: Seq<usize>, a: AST, lo: int)
    requires
        ends_ok(ends, a, lo),
    ensures
        forall|i: int| 0 <= i < ends.len() ==> lo <= #[trigger] ends[i] < lo + size(a),
        forall|k: int| listed(ends, k) <==> is_exit(a, lo, k),
        forall|k: int| listed(ends, k) ==> lo <= k < lo + size(a),
{
    assert forall|i: int| 0 <= i < ends.len() implies lo <= #[trigger] ends[i] < lo + size(a) by {
        lemma_exit_within(a, lo, ends[i] as int);
    }
    assert forall|k: int| listed(ends, k) implies is_exit(a, lo, k) && lo <= k < lo + size(a) by {
        let i = choose|i: int| 0 <= i < ends.len() && #[trigger] ends[i] as int == k;
        lemma_exit_within(a, lo, ends[i] as int);
    }
}

/// A fragment only depends on its own states.
pub proof fn lemma_frame(s1: Seq<State>, s2: Seq<State>, a: AST, lo: int, t: Option<usize>)
    requires
        wired(s1, a, lo, t),
        0 <= lo,
        lo + size(a) <= s1.len(),
        lo + size(a) <= s2.len(),
        forall|k: int| lo <= k < lo + size(a) ==> s1[k] == s2[k],
    ensures
        wired(s2, a, lo, t),
    decreases a,
{
    lemma_size_pos(a);
    match a {
        AST::Catenation(l, r) => {
            lemma_size_pos(*l);
            lemma_size_pos(*r);
            lemma_frame(s1, s2, *l, lo, Some(frag_start(*r, lo + size(*l)) as usize));
            lemma_frame(s1, s2, *r, lo + size(*l), t);
        },
        AST::Alternation(l, r) => {
            lemma_size_pos(*l);
            lemma_size_pos(*r);
            lemma_frame(s1, s2, *l, lo, t);
            lemma_frame(s1, s2, *r, lo + size(*l), t);
        },
        AST::Closure(c) => {
            lemma_frame(s1, s2, *c, lo, Some((lo + size(*c)) as usize));
        },
        AST::OneOrMore(c) => {
            lemma_frame(s1, s2, *c, lo, Some((lo + size(*c)) as usize));
        },
        _ => {},
    }
}

/// Setting the exit edge of every exit to `to` wires a waiting fragment to `to`.
pub proof fn lemma_join(s1: Seq<State>, s2: Seq<State>, a: AST, lo: int, to: usize)
    requires
        wired(s1, a, lo, None),
        0 <= lo,
        lo + size(a) <= s1.len(),
        s1.len() == s2.len(),
        forall|k: int|
            lo <= k < lo + size(a) ==> s2[k] == if is_exit(a, lo, k) {
                set_exit(s1[k], to)
            } else {
                s1[k]
            },
    ensures
        wired(s2, a, lo, Some(to)),
    decreases a,
{
    lemma_size_pos(a);
    match a {
        AST::Catenation(l, r) => {
            let mid = lo + size(*l);
            lemma_size_pos(*l);
            lemma_size_pos(*r);
            assert forall|k: int| lo <= k < mid implies s1[k] == s2[k] by {
                if is_exit(*r, mid, k) {
                    lemma_exit_within(*r, mid, k);
                }
            }
            lemma_frame(s1, s2, *l, lo, Some(frag_start(*r, mid) as usize));
            lemma_join(s1, s2, *r, mid, to);
        },
        AST::Alternation(l, r) => {
            let mid = lo + size(*l);
            lemma_size_pos(*l);
            lemma_size_pos(*r);
            assert forall|k: int| lo <= k < mid implies s2[k] == if is_exit(*l, lo, k) {
                set_exit(s1[k], to)
            } else {
                s1[k]
            } by {
                if is_exit(*r, mid, k) {
                    lemma_exit_within(*r, mid, k);
                }
            }
            assert forall|k: int| mid <= k < mid + size(*r) implies s2[k] == if is_exit(*r, mid, k) {
                set_exit(s1[k], to)
            } else {
                s1[k]
            } by {
                if is_exit(*l, lo, k) {
                    lemma_exit_within(*l, lo, k);
                }
            }
            let sp = mid + size(*r);
            if is_exit(*l, lo, sp) {
                lemma_exit_within(*l, lo, sp);
            }
            if is_exit(*r, mid, sp) {
                lemma_exit_within(*r, mid, sp);
            }
            lemma_join(s1, s2, *l, lo, to);
            lemma_join(s1, s2, *r, mid, to);
        },
        AST::Closure(c) => {
            lemma_frame(s1, s2, *c, lo, Some((lo + size(*c)) as usize));
        },
        AST::OneOrMore(c) => {
            lemma_frame(s1, s2, *c, lo, Some((lo + size(*c)) as usize));
        },
        _ => {},
    }
}

/// The states of a wired fragment have their edges inside an arena of `n` states,
/// and none of them is `End`.
pub proof fn lemma_wired_within(states: Seq<State>, a: AST, lo: int, t: usize, n: int)
    requires
        wired(states, a, lo, Some(t)),
        0 <= lo,
        lo + size(a) <= n,
        t < n,
        n == states.len(),
    ensures
        forall|k: int|
            lo <= k < lo + size(a) ==> wired_within(states[k], n) && !(states[k] is End),
    decreases a,
{
    lemma_size_pos(a);
    match a {
        AST::Catenation(l, r) => {
            let mid = lo + size(*l);
            lemma_size_pos(*l);
            lemma_start_within(*r, mid);
            lemma_wired_within(states, *l, lo, frag_start(*r, mid) as usize, n);
            lemma_wired_within(states, *r, mid, t, n);
        },
        AST::Alternation(l, r) => {
            let mid = lo + size(*l);
            lemma_start_within(*l, lo);
            lemma_start_within(*r, mid);
            lemma_wired_within(states, *l, lo, t, n);
            lemma_wired_within(states, *r, mid, t, n);
        },
        AST::Closure(c) => {
            lemma_start_within(*c, lo);
            lemma_wired_within(states, *c, lo, (lo + size(*c)) as usize, n);
        },
        AST::OneOrMore(c) => {
            lemma_start_within(*c, lo);
            lemma_wired_within(states, *c, lo, (lo + size(*c)) as usize, n);
        },
        _ => {},
    }
}

/// The states of a fragment are fixed by the tree, its place and its exit target.
pub proof fn lemma_wired_unique(s1: Seq<State>, s2: Seq<State>, a: AST, lo: int, t: Option<usize>)
    requires
        wired(s1, a, lo, t),
        wired(s2, a, lo, t),
    ensures
        forall|k: int| lo <= k < lo + size(a) ==> s1[k] == s2[k],
    decreases a,
{
    match a {
        AST::Catenation(l, r) => {
            lemma_wired_unique(s1, s2, *l, lo, Some(frag_start(*r, lo + size(*l)) as usize));
            lemma_wired_unique(s1, s2, *r, lo + size(*l), t);
        },
        AST::Alternation(l, r) => {
            lemma_wired_unique(s1, s2, *l, lo, t);
            lemma_wired_unique(s1, s2, *r, lo + size(*l), t);
        },
        AST::Closure(c) => {
            lemma_wired_unique(s1, s2, *c, lo, Some((lo + size(*c)) as usize));
        },
        AST::OneOrMore(c) => {
            lemma_wired_unique(s1, s2, *c, lo, Some((lo + size(*c)) as usize));
        },
        _ => {},
    }
}

/// The arena compiled from a tree is unique.
pub proof fn lemma_compiled_unique(s1: Seq<State>, s2: Seq<State>, a: AST)
    requires
        compiled(s1, a),
        compiled(s2, a),
    ensures
        s1 == s2,
{
    lemma_wired_unique(s1, s2, a, 1, Some((size(a) + 1) as usize));
    assert(s1 =~= s2);
}

/// An accepting path from the entry of a fragment first matches a prefix in the
/// tree's language, then leaves through an exit to `t`.
pub proof fn lemma_sound(states: Seq<State>, a: AST, lo: int, t: usize, s: Seq<char>, f: nat) -> (r: (int, nat))
    requires
        wired(states, a, lo, Some(t)),
        0 <= lo,
        lo + size(a) <= states.len(),
        states.len() <= usize::MAX,
        accepts_from(states, frag_start(a, lo), s, f),
    ensures
        0 <= r.0 <= s.len(),
        r.1 < f,
        in_lang(a, s.subrange(0, r.0)),
        accepts_from(states, t as int, s.subrange(r.0, s.len() as int), r.1),
    decreases rank(a), f,
{
    lemma_size_pos(a);
    match a {
        AST::AnyChar => {
            assert(s.subrange(1, s.len() as int) =~= s.drop_first());
            (1, (f - 1) as nat)
        },
        AST::Char(c) => {
            assert(s.subrange(1, s.len() as int) =~= s.drop_first());
            assert(s.subrange(0, 1) =~= seq![c]);
            (1, (f - 1) as nat)
        },
        AST::Catenation(l, r) => {
            let mid = lo + size(*l);
            lemma_size_pos(*l);
            lemma_size_pos(*r);
            let rs = frag_start(*r, mid);
            lemma_start_within(*r, mid);
            let (i1, f1) = lemma_sound(states, *l, lo, rs as usize, s, f);
            let s1 = s.subrange(i1, s.len() as int);
            let (i2, f2) = lemma_sound(states, *r, mid, t, s1, f1);
            let u = s.subrange(0, i1 + i2);
            assert(u.subrange(0, i1) =~= s.subrange(0, i1));
            assert(u.subrange(i1, u.len() as int) =~= s1.subrange(0, i2));
            assert(s1.subrange(i2, s1.len() as int) =~= s.subrange(i1 + i2, s.len() as int));
            assert(split_ok(a, u, i1));
            lemma_split_intro(a, u, i1, u.len());
            (i1 + i2, f2)
        },
        AST::Alternation(l, r) => {
            let mid = lo + size(*l);
            lemma_size_pos(*l);
            lemma_size_pos(*r);
            lemma_start_within(*l, lo);
            lemma_start_within(*r, mid);
            if accepts_from(states, frag_start(*l, lo), s, (f - 1) as nat) {
                let (i, f1) = lemma_sound(states, *l, lo, t, s, (f - 1) as nat);
                (i, f1)
            } else {
                let (i, f1) = lemma_sound(states, *r, mid, t, s, (f - 1) as nat);
                (i, f1)
            }
        },
        AST::Closure(c) => {
            let sp = lo + size(*c);
            lemma_start_within(*c, lo);
            if accepts_from(states, frag_start(*c, lo), s, (f - 1) as nat) {
                let (i1, f1) = lemma_sound(states, *c, lo, sp as usize, s, (f - 1) as nat);
                let s1 = s.subrange(i1, s.len() as int);
                let (i2, f2) = lemma_sound(states, a, lo, t, s1, f1);
                let u = s.subrange(0, i1 + i2);
                assert(s1.subrange(i2, s1.len() as int) =~= s.subrange(i1 + i2, s.len() as int));
                if i1 == 0 {
                    assert(u =~= s1.subrange(0, i2));
                } else {
                    assert(u.subrange(0, i1) =~= s.subrange(0, i1));
                    assert(u.subrange(i1, u.len() as int) =~= s1.subrange(0, i2));
                    assert(split_ok(a, u, i1));
                    lemma_split_intro(a, u, i1, u.len());
                }
                (i1 + i2, f2)
            } else {
                assert(s.subrange(0, s.len() as int) =~= s);
                assert(s.subrange(0, 0).len() == 0);
                (0, (f - 1) as nat)
            }
        },
        AST::OneOrMore(c) => {
            let sp = lo + size(*c);
            let cl = AST::Closure(c);
            lemma_start_within(*c, lo);
            let (i1, f1) = lemma_sound(states, *c, lo, sp as usize, s, f);
            let s1 = s.subrange(i1, s.len() as int);
            let (i2, f2) = lemma_sound(states, cl, lo, t, s1, f1);
            let u = s.subrange(0, i1 + i2);
            assert(s1.subrange(i2, s1.len() as int) =~= s.subrange(i1 + i2, s.len() as int));
            assert(u.subrange(0, i1) =~= s.subrange(0, i1));
            assert(u.subrange(i1, u.len() as int) =~= s1.subrange(0, i2));
            assert(split_ok(a, u, i1));
            lemma_split_intro(a, u, i1, u.len());
            (i1 + i2, f2)
        },
    }
}

/// A string in the tree's language, followed by an accepting path from the exit
/// target `t`, is accepted from the entry of the fragment.
pub proof fn lemma_complete(
    states: Seq<State>,
    a: AST,
    lo: int,
    t: usize,
    u: Seq<char>,
    v: Seq<char>,
    f: nat,
) -> (f2: nat)
    requires
        wired(states, a, lo, Some(t)),
        0 <= lo,
        lo + size(a) <= states.len(),
        states.len() <= usize::MAX,
        in_lang(a, u),
        accepts_from(states, t as int, v, f),
    ensures
        accepts_from(states, frag_start(a, lo), u + v, f2),
    decreases rank(a), u.len(),
{
    lemma_size_pos(a);
    match a {
        AST::AnyChar => {
            assert((u + v).drop_first() =~= v);
            f + 1
        },
        AST::Char(c) => {
            assert((u + v).drop_first() =~= v);
            f + 1
        },
        AST::Catenation(l, r) => {
            let mid = lo + size(*l);
            lemma_size_pos(*l);
            lemma_size_pos(*r);
            let i = lemma_split_elim(a, u, u.len());
            let u1 = u.subrange(0, i);
            let u2 = u.subrange(i, u.len() as int);
            let rs = frag_start(*r, mid);
            lemma_start_within(*r, mid);
            let f1 = lemma_complete(states, *r, mid, t, u2, v, f);
            let f2 = lemma_complete(states, *l, lo, rs as usize, u1, u2 + v, f1);
            assert(u1 + (u2 + v) =~= u + v);
            f2
        },
        AST::Alternation(l, r) => {
            let mid = lo + size(*l);
            lemma_size_pos(*l);
            lemma_size_pos(*r);
            lemma_start_within(*l, lo);
            lemma_start_within(*r, mid);
            if in_lang(*l, u) {
                let f1 = lemma_complete(states, *l, lo, t, u, v, f);
                f1 + 1
            } else {
                let f1 = lemma_complete(states, *r, mid, t, u, v, f);
                f1 + 1
            }
        },
        AST::Closure(c) => {
            let sp = lo + size(*c);
            lemma_start_within(*c, lo);
            if u.len() == 0 {
                assert(u + v =~= v);
                f + 1
            } else {
                let i = lemma_split_elim(a, u, u.len());
                let u1 = u.subrange(0, i);
                let u2 = u.subrange(i, u.len() as int);
                let f1 = lemma_complete(states, a, lo, t, u2, v, f);
                let f2 = lemma_complete(states, *c, lo, sp as usize, u1, u2 + v, f1);
                assert(u1 + (u2 + v) =~= u + v);
                f2 + 1
            }
        },
        AST::OneOrMore(c) => {
            let sp = lo + size(*c);
            let cl = AST::Closure(c);
            lemma_start_within(*c, lo);
            let i = lemma_split_elim(a, u, u.len());
            let u1 = u.subrange(0, i);
            let u2 = u.subrange(i, u.len() as int);
            let f1 = lemma_complete(states, cl, lo, t, u2, v, f);
            let f2 = lemma_complete(states, *c, lo, sp as usize, u1, u2 + v, f1);
            assert(u1 + (u2 + v) =~= u + v);
            f2
        },
    }
}

/// The arena compiled from a tree accepts exactly the tree's language.
pub proof fn lemma_compiled_language(states: Seq<State>, a: AST, s: Seq<char>)
    requires
        compiled(states, a),
    ensures
        arena_accepts(states, s) == in_lang(a, s),
{
    let e = (size(a) + 1) as usize;
    lemma_size_pos(a);
    lemma_start_within(a, 1);
    if arena_accepts(states, s) {
        let f = choose|f: nat| accepts_from(states, 0, s, f);
        let (i, f1) = lemma_sound(states, a, 1, e, s, (f - 1) as nat);
        assert(s.subrange(0, i) =~= s);
    }
    if in_lang(a, s) {
        let empty = Seq::<char>::empty();
        assert(accepts_from(states, e as int, empty, 1));
        let f2 = lemma_complete(states, a, 1, e, s, empty, 1);
        assert(s + empty =~= s);
        assert(accepts_from(states, 0, s, f2 + 1));
    }
}

} // verus!
