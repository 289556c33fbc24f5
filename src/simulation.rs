use crate::nfa::{accepts_from, arena_accepts, arena_wf, label_fits, wired_within, State};
use vstd::prelude::*;

verus! {

/// `t` is the target of one epsilon edge of `st`.
pub open spec fn eps_succ(st: State, t: int) -> bool {
    match st {
        State::Start(Some(a)) => t == a,
        State::Split(Some(a), Some(b)) => t == a || t == b,
        _ => false,
    }
}

/// `r` is reached from `q` along at most `j` epsilon edges.
pub open spec fn eps_path(states: Seq<State>, q: int, r: int, j: nat) -> bool
    decreases j,
{
    q == r || (j > 0 && 0 <= q < states.len() && match states[q] {
        State::Start(Some(a)) => eps_path(states, a as int, r, (j - 1) as nat),
        State::Split(Some(a), Some(b)) => eps_path(states, a as int, r, (j - 1) as nat)
            || eps_path(states, b as int, r, (j - 1) as nat),
        _ => false,
    })
}

/// `r` is in the epsilon closure of `q`.
pub open spec fn eps_reaches(states: Seq<State>, q: int, r: int) -> bool {
    exists|j: nat| eps_path(states, q, r, j)
}

/// Every marked state outside `pending` has its epsilon targets marked too.
pub open spec fn closed_except(states: Seq<State>, marks: Seq<bool>, pending: Set<int>) -> bool {
    forall|k: int, t: int|
        0 <= k < states.len() && marks[k] && !pending.contains(k) && #[trigger] eps_succ(
            states[k],
            t,
        ) ==> marks[t]
}

/// How many states are not marked.
pub open spec fn unmarked(marks: Seq<bool>) -> nat
    decreases marks.len(),
{
    if marks.len() == 0 {
        0
    } else {
        unmarked(marks.drop_last()) + if marks.last() {
            0nat
        } else {
            1nat
        }
    }
}

/// Some marked state accepts the rest of the input `w`.
pub open spec fn set_accepts(states: Seq<State>, marks: Seq<bool>, w: Seq<char>) -> bool {
    exists|k: int, f: nat| 0 <= k < marks.len() && marks[k] && #[trigger] accepts_from(states, k, w, f)
}

/// The state consumes `c` along a wired edge.
pub open spec fn steps_on(st: State, c: char) -> bool {
    st is Match && st->Match_1 is Some && label_fits(st->Match_0, c)
}

/// `r` is in the epsilon closure of the target of a state below `q`, marked in `marks`,
/// that consumes `c`.
pub open spec fn stepped_to(states: Seq<State>, marks: Seq<bool>, c: char, r: int, q: int) -> bool {
    exists|k: int|
        0 <= k < q && k < marks.len() && marks[k] && #[trigger] steps_on(states[k], c)
            && eps_reaches(states, states[k]->Match_1->0 as int, r)
}

pub proof fn lemma_eps_refl(states: Seq<State>, k: int)
    ensures
        eps_reaches(states, k, k),
{
    assert(eps_path(states, k, k, 0));
}

pub proof fn lemma_eps_prepend(states: Seq<State>, q: int, a: int, r: int)
    requires
        0 <= q < states.len(),
        eps_succ(states[q], a),
        eps_reaches(states, a, r),
    ensures
        eps_reaches(states, q, r),
{
    let j = choose|j: nat| eps_path(states, a, r, j);
    assert(eps_path(states, q, r, j + 1));
}

/// A set closed under epsilon edges holds the epsilon closure of each of its states.
pub proof fn lemma_closed_holds_closure(states: Seq<State>, marks: Seq<bool>, q: int, k: int)
    requires
        marks.len() == states.len(),
        closed_except(states, marks, Set::empty()),
        0 <= q < marks.len(),
        marks[q],
        eps_reaches(states, q, k),
    ensures
        marks[k],
{
    let j = choose|j: nat| eps_path(states, q, k, j);
    lemma_closed_path(states, marks, q, k, j);
}

proof fn lemma_closed_path(states: Seq<State>, marks: Seq<bool>, q: int, k: int, j: nat)
    requires
        marks.len() == states.len(),
        closed_except(states, marks, Set::empty()),
        0 <= q < marks.len(),
        marks[q],
        eps_path(states, q, k, j),
    ensures
        marks[k],
    decreases j,
{
    if q != k {
        match states[q] {
            State::Start(Some(a)) => {
                assert(eps_succ(states[q], a as int));
                if a as int != k {
                    assert(eps_path(states, a as int, k, (j - 1) as nat));
                    assert(0 <= a < states.len());
                    lemma_closed_path(states, marks, a as int, k, (j - 1) as nat);
                }
            },
            State::Split(Some(a), Some(b)) => {
                assert(eps_succ(states[q], a as int));
                assert(eps_succ(states[q], b as int));
                if eps_path(states, a as int, k, (j - 1) as nat) {
                    if a as int != k {
                        assert(0 <= a < states.len());
                        lemma_closed_path(states, marks, a as int, k, (j - 1) as nat);
                    }
                } else if b as int != k {
                    assert(eps_path(states, b as int, k, (j - 1) as nat));
                    assert(0 <= b < states.len());
                    lemma_closed_path(states, marks, b as int, k, (j - 1) as nat);
                }
            },
            _ => {},
        }
    }
}

pub proof fn lemma_unmarked_set(marks: Seq<bool>, i: int)
    requires
        0 <= i < marks.len(),
        !marks[i],
    ensures
        unmarked(marks.update(i, true)) + 1 == unmarked(marks),
    decreases marks.len(),
{
    let m2 = marks.update(i, true);
    if i == marks.len() - 1 {
        assert(m2.drop_last() =~= marks.drop_last());
    } else {
        lemma_unmarked_set(marks.drop_last(), i);
        assert(m2.drop_last() =~= marks.drop_last().update(i, true));
    }
}

/// Following epsilon edges from `t` to `r` and then an accepting path from `r`
/// gives an accepting path from `t`.
pub proof fn lemma_eps_accepts(states: Seq<State>, t: int, r: int, j: nat, w: Seq<char>, f: nat) -> (f2: nat)
    requires
        eps_path(states, t, r, j),
        accepts_from(states, r, w, f),
    ensures
        accepts_from(states, t, w, f2),
    decreases j,
{
    if t == r {
        f
    } else {
        match states[t] {
            State::Start(Some(a)) => {
                let f1 = lemma_eps_accepts(states, a as int, r, (j - 1) as nat, w, f);
                f1 + 1
            },
            State::Split(Some(a), Some(b)) => {
                if eps_path(states, a as int, r, (j - 1) as nat) {
                    let f1 = lemma_eps_accepts(states, a as int, r, (j - 1) as nat, w, f);
                    assert(accepts_from(states, t, w, f1 + 1));
                    f1 + 1
                } else {
                    let f1 = lemma_eps_accepts(states, b as int, r, (j - 1) as nat, w, f);
                    f1 + 1
                }
            },
            _ => f,
        }
    }
}

/// In a closed set, an accepting path from a marked state starts, after epsilon edges,
/// at a marked `Match` or `End` state.
pub proof fn lemma_closed_material(states: Seq<State>, marks: Seq<bool>, k: int, w: Seq<char>, f: nat) -> (r: (int, nat))
    requires
        arena_wf(states),
        marks.len() == states.len(),
        closed_except(states, marks, Set::empty()),
        0 <= k < marks.len(),
        marks[k],
        accepts_from(states, k, w, f),
    ensures
        0 <= r.0 < marks.len(),
        marks[r.0],
        states[r.0] is Match || states[r.0] is End,
        accepts_from(states, r.0, w, r.1),
    decreases f,
{
    assert(wired_within(states[k], states.len() as int));
    match states[k] {
        State::Start(Some(a)) => {
            assert(eps_succ(states[k], a as int));
            lemma_closed_material(states, marks, a as int, w, (f - 1) as nat)
        },
        State::Split(Some(a), Some(b)) => {
            assert(eps_succ(states[k], a as int));
            assert(eps_succ(states[k], b as int));
            if accepts_from(states, a as int, w, (f - 1) as nat) {
                lemma_closed_material(states, marks, a as int, w, (f - 1) as nat)
            } else {
                lemma_closed_material(states, marks, b as int, w, (f - 1) as nat)
            }
        },
        _ => (k, f),
    }
}

/// The marks after the first epsilon closure stand for the whole input.
pub proof fn lemma_initial(states: Seq<State>, marks: Seq<bool>, s: Seq<char>)
    requires
        arena_wf(states),
        marks.len() == states.len(),
        marks[0],
        forall|k: int| 0 <= k < marks.len() && #[trigger] marks[k] ==> eps_reaches(states, 0, k),
    ensures
        arena_accepts(states, s) == set_accepts(states, marks, s),
{
    if arena_accepts(states, s) {
        let f = choose|f: nat| accepts_from(states, 0, s, f);
        assert(accepts_from(states, 0, s, f));
    }
    if set_accepts(states, marks, s) {
        let (k, f) = choose|k: int, f: nat|
            0 <= k < marks.len() && marks[k] && #[trigger] accepts_from(states, k, s, f);
        assert(eps_reaches(states, 0, k));
        let j = choose|j: nat| eps_path(states, 0, k, j);
        let f2 = lemma_eps_accepts(states, 0, k, j, s, f);
        assert(accepts_from(states, 0, s, f2));
    }
}

/// Keeps the record of where each mark came from while the states below `q + 1` are handled.
pub proof fn lemma_stepped_grow(
    states: Seq<State>,
    marks: Seq<bool>,
    before: Seq<bool>,
    after: Seq<bool>,
    c: char,
    q: int,
)
    requires
        0 <= q < marks.len(),
        before.len() == after.len(),
        forall|r: int|
            0 <= r < before.len() && #[trigger] before[r] ==> stepped_to(states, marks, c, r, q),
        forall|r: int|
            0 <= r < after.len() && #[trigger] after[r] && !before[r] ==> marks[q] && steps_on(
                states[q],
                c,
            ) && eps_reaches(states, states[q]->Match_1->0 as int, r),
    ensures
        forall|r: int|
            0 <= r < after.len() && #[trigger] after[r] ==> stepped_to(states, marks, c, r, q + 1),
{
    assert forall|r: int| 0 <= r < after.len() && #[trigger] after[r] implies stepped_to(
        states,
        marks,
        c,
        r,
        q + 1,
    ) by {
        if before[r] {
            let k = choose|k: int|
                0 <= k < q && k < marks.len() && marks[k] && #[trigger] steps_on(states[k], c)
                    && eps_reaches(states, states[k]->Match_1->0 as int, r);
            assert(steps_on(states[k], c));
        } else {
            assert(steps_on(states[q], c));
        }
    }
}

/// One character of input moves the marked set from `marks` to `next`.
pub proof fn lemma_step(states: Seq<State>, marks: Seq<bool>, next: Seq<bool>, s: Seq<char>)
    requires
        arena_wf(states),
        marks.len() == states.len(),
        next.len() == states.len(),
        closed_except(states, marks, Set::empty()),
        s.len() > 0,
        forall|k: int|
            0 <= k < states.len() && marks[k] && #[trigger] steps_on(states[k], s[0])
                ==> next[states[k]->Match_1->0 as int],
        forall|r: int|
            0 <= r < states.len() && #[trigger] next[r] ==> stepped_to(
                states,
                marks,
                s[0],
                r,
                states.len() as int,
            ),
    ensures
        set_accepts(states, marks, s) == set_accepts(states, next, s.drop_first()),
{
    let c = s[0];
    let w = s.drop_first();
    if set_accepts(states, marks, s) {
        let (k, f) = choose|k: int, f: nat|
            0 <= k < marks.len() && marks[k] && #[trigger] accepts_from(states, k, s, f);
        let (m, f2) = lemma_closed_material(states, marks, k, s, f);
        assert(steps_on(states[m], c));
        let t = states[m]->Match_1->0 as int;
        assert(next[t]);
        assert(accepts_from(states, t, w, (f2 - 1) as nat));
    }
    if set_accepts(states, next, w) {
        let (r, f) = choose|r: int, f: nat|
            0 <= r < next.len() && next[r] && #[trigger] accepts_from(states, r, w, f);
        assert(stepped_to(states, marks, c, r, states.len() as int));
        let k = choose|k: int|
            0 <= k < states.len() && k < marks.len() && marks[k] && #[trigger] steps_on(states[k], c)
                && eps_reaches(states, states[k]->Match_1->0 as int, r);
        let t = states[k]->Match_1->0 as int;
        let j = choose|j: nat| eps_path(states, t, r, j);
        let f2 = lemma_eps_accepts(states, t, r, j, w, f);
        assert(accepts_from(states, k, s, f2 + 1));
    }
}

pub proof fn lemma_end_accepts(states: Seq<State>, marks: Seq<bool>, q: int, w: Seq<char>)
    requires
        0 <= q < marks.len(),
        q < states.len(),
        marks[q],
        states[q] is End,
        w.len() == 0,
    ensures
        set_accepts(states, marks, w),
{
    assert(accepts_from(states, q, w, 1));
}

pub proof fn lemma_no_end_rejects(states: Seq<State>, marks: Seq<bool>, w: Seq<char>)
    requires
        arena_wf(states),
        marks.len() == states.len(),
        closed_except(states, marks, Set::empty()),
        w.len() == 0,
        forall|k: int| 0 <= k < marks.len() ==> !(marks[k] && #[trigger] states[k] is End),
    ensures
        !set_accepts(states, marks, w),
{
    if set_accepts(states, marks, w) {
        let (k, f) = choose|k: int, f: nat|
            0 <= k < marks.len() && marks[k] && #[trigger] accepts_from(states, k, w, f);
        let (m, f2) = lemma_closed_material(states, marks, k, w, f);
        assert(states[m] is End);
    }
}

} // verus!
