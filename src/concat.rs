use crate::nfa::{accepts_from, arena_accepts, arena_wf, concat_arena, shifted, wired_within, State};
use vstd::prelude::*;

verus! {

/// The strings that split into one of `lhs` followed by one of `rhs`.
pub open spec fn split_accepts(lhs: Seq<State>, rhs: Seq<State>, s: Seq<char>) -> bool {
    exists|i: int|
        0 <= i <= s.len() && #[trigger] arena_accepts(lhs, s.subrange(0, i)) && arena_accepts(
            rhs,
            s.subrange(i, s.len() as int),
        )
}

/// Both arenas are finished and their concatenation fits in memory.
pub open spec fn joinable(lhs: Seq<State>, rhs: Seq<State>) -> bool {
    arena_wf(lhs) && arena_wf(rhs) && lhs.len() - 1 + rhs.len() <= usize::MAX
}

proof fn lemma_concat_index(lhs: Seq<State>, rhs: Seq<State>, k: int)
    requires
        joinable(lhs, rhs),
        0 <= k < lhs.len() - 1 + rhs.len(),
    ensures
        concat_arena(lhs, rhs).len() == lhs.len() - 1 + rhs.len(),
        k < lhs.len() - 1 ==> concat_arena(lhs, rhs)[k] == lhs[k],
        k >= lhs.len() - 1 ==> concat_arena(lhs, rhs)[k] == shifted(rhs[k - (lhs.len() - 1)], lhs.len() - 1),
{
}

/// The right part of the concatenation behaves as `rhs` itself.
proof fn lemma_right(lhs: Seq<State>, rhs: Seq<State>, q: int, s: Seq<char>, f: nat)
    requires
        joinable(lhs, rhs),
        0 <= q < rhs.len(),
    ensures
        accepts_from(concat_arena(lhs, rhs), q + lhs.len() - 1, s, f) == accepts_from(rhs, q, s, f),
    decreases f,
{
    let off = lhs.len() - 1;
    if f > 0 {
        lemma_concat_index(lhs, rhs, q + off);
        assert(wired_within(rhs[q], rhs.len() as int));
        match rhs[q] {
            State::Start(Some(n)) => {
                lemma_right(lhs, rhs, n as int, s, (f - 1) as nat);
            },
            State::Split(Some(a), Some(b)) => {
                lemma_right(lhs, rhs, a as int, s, (f - 1) as nat);
                lemma_right(lhs, rhs, b as int, s, (f - 1) as nat);
            },
            State::Match(_, Some(n)) => {
                lemma_right(lhs, rhs, n as int, s.drop_first(), (f - 1) as nat);
            },
            _ => {},
        }
    }
}

/// A path of the concatenation from the left part first finishes a path of `lhs`,
/// then follows one of `rhs`.
proof fn lemma_left_sound(lhs: Seq<State>, rhs: Seq<State>, q: int, s: Seq<char>, f: nat) -> (r: (int, nat, nat))
    requires
        joinable(lhs, rhs),
        0 <= q < lhs.len(),
        accepts_from(concat_arena(lhs, rhs), q, s, f),
    ensures
        0 <= r.0 <= s.len(),
        accepts_from(lhs, q, s.subrange(0, r.0), r.1),
        accepts_from(rhs, 0, s.subrange(r.0, s.len() as int), r.2),
    decreases f,
{
    let off = lhs.len() - 1;
    let c = concat_arena(lhs, rhs);
    if q == off {
        lemma_right(lhs, rhs, 0, s, f);
        assert(s.subrange(0, 0).len() == 0);
        assert(s.subrange(0, s.len() as int) =~= s);
        (0, 1, f)
    } else {
        lemma_concat_index(lhs, rhs, q);
        assert(wired_within(lhs[q], lhs.len() as int));
        match lhs[q] {
            State::Start(Some(n)) => {
                let (i, f1, f2) = lemma_left_sound(lhs, rhs, n as int, s, (f - 1) as nat);
                (i, f1 + 1, f2)
            },
            State::Split(Some(a), Some(b)) => {
                if accepts_from(c, a as int, s, (f - 1) as nat) {
                    let (i, f1, f2) = lemma_left_sound(lhs, rhs, a as int, s, (f - 1) as nat);
                    (i, f1 + 1, f2)
                } else {
                    let (i, f1, f2) = lemma_left_sound(lhs, rhs, b as int, s, (f - 1) as nat);
                    (i, f1 + 1, f2)
                }
            },
            State::Match(_, Some(n)) => {
                let w = s.drop_first();
                let (i, f1, f2) = lemma_left_sound(lhs, rhs, n as int, w, (f - 1) as nat);
                assert(s.subrange(0, i + 1).drop_first() =~= w.subrange(0, i));
                assert(s.subrange(i + 1, s.len() as int) =~= w.subrange(i, w.len() as int));
                (i + 1, f1 + 1, f2)
            },
            _ => {
                assert(lhs[q] is End);
                (0, 0, 0)
            },
        }
    }
}

/// A path of `lhs` from a left state, then one of `rhs`, make a path of the
/// concatenation.
proof fn lemma_left_complete(
    lhs: Seq<State>,
    rhs: Seq<State>,
    q: int,
    u: Seq<char>,
    v: Seq<char>,
    f1: nat,
    f2: nat,
) -> (g: nat)
    requires
        joinable(lhs, rhs),
        0 <= q < lhs.len(),
        accepts_from(lhs, q, u, f1),
        accepts_from(rhs, 0, v, f2),
    ensures
        accepts_from(concat_arena(lhs, rhs), q, u + v, g),
    decreases f1,
{
    let off = lhs.len() - 1;
    if lhs[q] is End {
        assert(u + v =~= v);
        lemma_right(lhs, rhs, 0, v, f2);
        f2
    } else {
        lemma_concat_index(lhs, rhs, q);
        assert(wired_within(lhs[q], lhs.len() as int));
        match lhs[q] {
            State::Start(Some(n)) => {
                let g = lemma_left_complete(lhs, rhs, n as int, u, v, (f1 - 1) as nat, f2);
                g + 1
            },
            State::Split(Some(a), Some(b)) => {
                if accepts_from(lhs, a as int, u, (f1 - 1) as nat) {
                    let g = lemma_left_complete(lhs, rhs, a as int, u, v, (f1 - 1) as nat, f2);
                    g + 1
                } else {
                    let g = lemma_left_complete(lhs, rhs, b as int, u, v, (f1 - 1) as nat, f2);
                    g + 1
                }
            },
            State::Match(_, Some(n)) => {
                let g = lemma_left_complete(lhs, rhs, n as int, u.drop_first(), v, (f1 - 1) as nat, f2);
                assert((u + v).drop_first() =~= u.drop_first() + v);
                g + 1
            },
            _ => 0,
        }
    }
}

/// The concatenation accepts exactly the strings that split into one accepted by
/// `lhs` followed by one accepted by `rhs`.
pub proof fn lemma_concat_language(lhs: Seq<State>, rhs: Seq<State>, s: Seq<char>)
    requires
        joinable(lhs, rhs),
    ensures
        arena_accepts(concat_arena(lhs, rhs), s) == split_accepts(lhs, rhs, s),
{
    let c = concat_arena(lhs, rhs);
    if arena_accepts(c, s) {
        let f = choose|f: nat| accepts_from(c, 0, s, f);
        let (i, f1, f2) = lemma_left_sound(lhs, rhs, 0, s, f);
        assert(arena_accepts(lhs, s.subrange(0, i)));
        assert(arena_accepts(rhs, s.subrange(i, s.len() as int)));
    }
    if split_accepts(lhs, rhs, s) {
        let i = choose|i: int|
            0 <= i <= s.len() && #[trigger] arena_accepts(lhs, s.subrange(0, i)) && arena_accepts(
                rhs,
                s.subrange(i, s.len() as int),
            );
        let u = s.subrange(0, i);
        let v = s.subrange(i, s.len() as int);
        let f1 = choose|f: nat| accepts_from(lhs, 0, u, f);
        let f2 = choose|f: nat| accepts_from(rhs, 0, v, f);
        let g = lemma_left_complete(lhs, rhs, 0, u, v, f1, f2);
        assert(u + v =~= s);
        assert(accepts_from(c, 0, s, g));
    }
}

} // verus!
