use crate::concat::{lemma_concat_language, split_accepts};
use crate::language::in_lang;
use crate::parser::{parse_pattern, Parser, AST};
use crate::simulation::{
    closed_except, eps_reaches, eps_succ, lemma_closed_holds_closure, lemma_end_accepts, lemma_eps_prepend, lemma_eps_refl,
    lemma_initial, lemma_no_end_rejects, lemma_step, lemma_stepped_grow, lemma_unmarked_set,
    set_accepts, stepped_to, steps_on, unmarked,
};
use crate::thompson::{
    compiled, ends_ok, exit_list, frag_start, is_exit, lemma_compiled_language, lemma_frame, lemma_join,
    lemma_listed_exit, lemma_size_pos, lemma_start_within, lemma_wired_within, listed, set_exit,
    size, wired,
};
use crate::tokenizer::{chars_of, Tokenizer};
use vstd::prelude::*;

verus! {

/// The index of a state in the automaton's arena.
pub type StateId = usize;

/// The label of a character-consuming edge.
#[derive(Debug, Clone, Copy, PartialEq, Eq, Structural)]
pub enum Char {
    Literal(char),
    Any,
}

/// A state of the automaton. `None` marks an edge not yet wired during construction.
#[derive(Debug, Clone, Copy)]
pub enum State {
    /// The entry state, with one epsilon edge.
    Start(Option<StateId>),
    /// Consumes one character that fits the label.
    Match(Char, Option<StateId>),
    /// Two epsilon edges.
    Split(Option<StateId>, Option<StateId>),
    /// The accepting state, with no edges.
    End,
}

/// The label lets the character `c` through.
pub open spec fn label_fits(l: Char, c: char) -> bool {
    match l {
        Char::Any => true,
        Char::Literal(x) => x == c,
    }
}

/// There is a path from `q` that consumes exactly `s` and stops at an `End` state,
/// in at most `fuel` steps.
pub open spec fn accepts_from(states: Seq<State>, q: int, s: Seq<char>, fuel: nat) -> bool
    decreases fuel,
{
    if fuel == 0 || q < 0 || q >= states.len() {
        false
    } else {
        match states[q] {
            State::End => s.len() == 0,
            State::Start(Some(n)) => accepts_from(states, n as int, s, (fuel - 1) as nat),
            State::Split(Some(a), Some(b)) => accepts_from(states, a as int, s, (fuel - 1) as nat)
                || accepts_from(states, b as int, s, (fuel - 1) as nat),
            State::Match(l, Some(n)) => s.len() > 0 && label_fits(l, s[0]) && accepts_from(
                states,
                n as int,
                s.drop_first(),
                (fuel - 1) as nat,
            ),
            _ => false,
        }
    }
}

/// The characters a step emits.
pub open spec fn emitted(c: Option<char>) -> Seq<char> {
    match c {
        Some(c) => seq![c],
        None => Seq::empty(),
    }
}

/// The language of an arena: the strings along some path from state 0 to `End`.
pub open spec fn arena_accepts(states: Seq<State>, s: Seq<char>) -> bool {
    exists|f: nat| accepts_from(states, 0, s, f)
}

/// The edge is wired to one of `n` states.
pub open spec fn edge_within(e: Option<StateId>, n: int) -> bool {
    e is Some && e->0 < n
}

/// Every edge of the state is wired and points into an arena of `n` states.
pub open spec fn wired_within(st: State, n: int) -> bool {
    match st {
        State::Start(e) => edge_within(e, n),
        State::Match(_, e) => edge_within(e, n),
        State::Split(a, b) => edge_within(a, n) && edge_within(b, n),
        State::End => true,
    }
}

/// A finished arena: `Start` at index 0, the one `End` at the last index, and every
/// other edge wired to a state of the arena.
pub open spec fn arena_wf(states: Seq<State>) -> bool {
    &&& states.len() >= 2
    &&& states[0] is Start
    &&& forall|k: int|
        0 <= k < states.len() ==> #[trigger] wired_within(states[k], states.len() as int)
    &&& forall|k: int| 0 <= k < states.len() ==> (#[trigger] states[k] is End <==> k == states.len() - 1)
}

/// A non-deterministic finite automaton: an arena of states entered at `start`.
pub struct NFA {
    start: StateId,
    states: Vec<State>,
}

impl View for NFA {
    type V = Seq<State>;

    closed spec fn view(&self) -> Seq<State> {
        self.states@
    }
}

impl NFA {
    /// A finished automaton, entered at state 0.
    pub closed spec fn wf(&self) -> bool {
        self.start == 0 && arena_wf(self.states@)
    }

    /// Whether the automaton accepts the whole of `s`.
    pub open spec fn spec_accepts(&self, s: Seq<char>) -> bool {
        arena_accepts(self@, s)
    }

    /// The arena, in order, for read-only inspection.
    pub fn states(&self) -> (r: &Vec<State>)
        ensures
            r@ == self@,
    {
        &self.states
    }

    /// The index of the entry state.
    pub fn start(&self) -> (r: StateId)
        requires
            self.wf(),
        ensures
            r == 0,
    {
        self.start
    }

    /// One step of a walk from `Start` towards `End`: from state `idx`, a split takes
    /// its first edge when `go_left` holds, and a wildcard emits `any`. Gives the next
    /// state and the character emitted, if any. Whatever the choices, a string accepted
    /// from the next state, after what was emitted, is accepted from `idx`.
    pub fn walk_step(&self, idx: StateId, go_left: bool, any: char) -> (r: (StateId, Option<char>))
        requires
            self.wf(),
            idx < self@.len(),
            !(self@[idx as int] is End),
        ensures
            r.0 < self@.len(),
            match self@[idx as int] {
                State::Start(Some(n)) => r == (n, None::<char>),
                State::Match(Char::Literal(c), Some(n)) => r == (n, Some(c)),
                State::Match(Char::Any, Some(n)) => r == (n, Some(any)),
                State::Split(Some(a), Some(b)) => r == (if go_left { a } else { b }, None::<char>),
                _ => false,
            },
            forall|w: Seq<char>, f: nat|
                #[trigger] accepts_from(self@, r.0 as int, w, f) ==> accepts_from(
                    self@,
                    idx as int,
                    emitted(r.1) + w,
                    f + 1,
                ),
    {
        proof {
            assert(wired_within(self@[idx as int], self@.len() as int));
        }
        let r = match self.states[idx] {
            State::Start(Some(id)) => (id, None),
            State::Match(Char::Literal(c), Some(id)) => (id, Some(c)),
            State::Match(Char::Any, Some(id)) => (id, Some(any)),
            State::Split(Some(lhs), Some(rhs)) => if go_left {
                (lhs, None)
            } else {
                (rhs, None)
            },
            _ => (idx, None),
        };
        proof {
            assert forall|w: Seq<char>, f: nat|
                #[trigger] accepts_from(self@, r.0 as int, w, f) implies accepts_from(
                    self@,
                    idx as int,
                    emitted(r.1) + w,
                    f + 1,
                ) by {
                if r.1 is Some {
                    assert((emitted(r.1) + w).drop_first() =~= w);
                } else {
                    assert(emitted(r.1) + w =~= w);
                }
            }
        }
        r
    }

    /// Whether the whole of `input` is accepted, tracking every active state at once.
    pub fn accepts(&self, input: &str) -> (r: bool)
        requires
            self.wf(),
        ensures
            r == self.spec_accepts(input@),
    {
        let ghost states = self.states@;
        let n = self.states.len();
        let mut curr_states = no_states(n);
        self.find_next(0, &mut curr_states, Ghost(Set::empty()));
        proof {
            lemma_initial(states, curr_states@, input@);
        }
        let chars = chars_of(input);
        let len = chars.len();
        assert(input@.subrange(0, len as int) =~= input@);
        let mut i: usize = 0;
        while i < len
            invariant
                self.wf(),
                states == self@,
                n == states.len(),
                len == input@.len(),
                chars@ == input@,
                i <= len,
                curr_states@.len() == n,
                closed_except(states, curr_states@, Set::empty()),
                arena_accepts(states, input@) == set_accepts(
                    states,
                    curr_states@,
                    input@.subrange(i as int, len as int),
                ),
            decreases len - i,
        {
            let c = chars[i];
            let mut next_states = no_states(n);
            let mut any_active = false;
            let mut q: usize = 0;
            while q < n
                invariant
                    self.wf(),
                    states == self@,
                    n == states.len(),
                    q <= n,
                    !any_active ==> forall|k: int| 0 <= k < n ==> !next_states@[k],
                    curr_states@.len() == n,
                    next_states@.len() == n,
                    closed_except(states, next_states@, Set::empty()),
                    forall|k: int|
                        0 <= k < q && curr_states@[k] && #[trigger] steps_on(states[k], c)
                            ==> next_states@[states[k]->Match_1->0 as int],
                    forall|r: int|
                        0 <= r < n && #[trigger] next_states@[r] ==> stepped_to(
                            states,
                            curr_states@,
                            c,
                            r,
                            q as int,
                        ),
                decreases n - q,
            {
                let ghost before = next_states@;
                assert(wired_within(states[q as int], n as int));
                if curr_states[q] {
                    match self.states[q] {
                        State::Match(Char::Any, Some(idx)) => {
                            self.find_next(idx, &mut next_states, Ghost(Set::empty()));
                            any_active = true;
                        },
                        State::Match(Char::Literal(l), Some(idx)) => {
                            if l == c {
                                self.find_next(idx, &mut next_states, Ghost(Set::empty()));
                                any_active = true;
                            }
                        },
                        _ => {},
                    }
                }
                proof {
                    lemma_stepped_grow(states, curr_states@, before, next_states@, c, q as int);
                    assert forall|k: int|
                        0 <= k < q + 1 && curr_states@[k] && #[trigger] steps_on(states[k], c)
                            implies next_states@[states[k]->Match_1->0 as int] by {
                        assert(wired_within(states[k], n as int));
                        if k < q {
                            assert(before[states[k]->Match_1->0 as int]);
                        }
                    }
                }
                q = q + 1;
            }
            proof {
                lemma_step(states, curr_states@, next_states@, input@.subrange(i as int, len as int));
                assert(input@.subrange(i as int, len as int).drop_first() =~= input@.subrange(
                    i + 1,
                    len as int,
                ));
            }
            if !any_active {
                // No state is active any more, so no path can take the rest of the input.
                proof {
                    assert(!set_accepts(states, next_states@, input@.subrange(i + 1, len as int)));
                }
                return false;
            }
            curr_states = next_states;
            i = i + 1;
        }
        let mut q: usize = 0;
        while q < n
            invariant
                self.wf(),
                states == self@,
                n == states.len(),
                q <= n,
                i == len,
                len == input@.len(),
                curr_states@.len() == n,
                closed_except(states, curr_states@, Set::empty()),
                arena_accepts(states, input@) == set_accepts(
                    states,
                    curr_states@,
                    input@.subrange(i as int, len as int),
                ),
                forall|k: int| 0 <= k < q ==> !(curr_states@[k] && #[trigger] states[k] is End),
            decreases n - q,
        {
            if curr_states[q] {
                if let State::End = self.states[q] {
                    proof {
                        lemma_end_accepts(states, curr_states@, q as int, input@.subrange(i as int, len as int));
                        assert(input@.subrange(i as int, len as int).len() == 0);
                    }
                    return true;
                }
            }
            q = q + 1;
        }
        proof {
            lemma_no_end_rejects(states, curr_states@, input@.subrange(i as int, len as int));
        }
        false
    }

    /// Marks `curr_state` and every state that epsilon edges lead to from it.
    /// The marks double as the visited guard, so they must come closed under
    /// epsilon edges, but for the states in `pending`, which are being explored
    /// further up the call chain. With none pending, the new marks are exactly the
    /// old ones plus the epsilon closure of `curr_state`.
    fn find_next(
        &self,
        curr_state: StateId,
        next_states: &mut Vec<bool>,
        Ghost(pending): Ghost<Set<int>>,
    )
        requires
            self.wf(),
            curr_state < self@.len(),
            old(next_states)@.len() == self@.len(),
            closed_except(self@, old(next_states)@, pending),
            forall|k: int| pending.contains(k) ==> 0 <= k < self@.len() && old(next_states)@[k],
        ensures
            final(next_states)@.len() == self@.len(),
            final(next_states)@[curr_state as int],
            closed_except(self@, final(next_states)@, pending),
            forall|k: int| 0 <= k < self@.len() && old(next_states)@[k] ==> final(next_states)@[k],
            forall|k: int|
                0 <= k < self@.len() && #[trigger] final(next_states)@[k] && !old(next_states)@[k]
                    ==> eps_reaches(self@, curr_state as int, k),
            unmarked(final(next_states)@) <= unmarked(old(next_states)@),
            pending.is_empty() ==> forall|k: int|
                0 <= k < self@.len() ==> (#[trigger] final(next_states)@[k] <==> old(next_states)@[k]
                    || eps_reaches(self@, curr_state as int, k)),
        decreases unmarked(old(next_states)@),
    {
        let ghost states = self@;
        if next_states[curr_state] {
            proof {
                if pending.is_empty() {
                    assert forall|k: int| 0 <= k < states.len() && eps_reaches(states, curr_state as int, k)
                        implies next_states@[k] by {
                        lemma_closed_holds_closure(states, next_states@, curr_state as int, k);
                    }
                }
            }
            return ;
        }
        let ghost old_marks = next_states@;
        next_states.set(curr_state, true);
        proof {
            lemma_unmarked_set(old_marks, curr_state as int);
        }
        let ghost inner = pending.insert(curr_state as int);
        assert(wired_within(states[curr_state as int], states.len() as int));
        assert forall|k: int, t: int|
            0 <= k < states.len() && next_states@[k] && !inner.contains(k) && #[trigger] eps_succ(
                states[k],
                t,
            ) implies next_states@[t] by {
            assert(old_marks[k]);
            assert(wired_within(states[k], states.len() as int));
        }
        match self.states[curr_state] {
            State::Start(Some(id)) => {
                let ghost m1 = next_states@;
                self.find_next(id, next_states, Ghost(inner));
                proof {
                    assert forall|k: int|
                        0 <= k < states.len() && #[trigger] next_states@[k] && !old_marks[k]
                            implies eps_reaches(states, curr_state as int, k) by {
                        if k != curr_state as int {
                            lemma_eps_prepend(states, curr_state as int, id as int, k);
                        } else {
                            lemma_eps_refl(states, k);
                        }
                    }
                }
            },
            State::Split(Some(id_1), Some(id_2)) => {
                self.find_next(id_2, next_states, Ghost(inner));
                let ghost m2 = next_states@;
                self.find_next(id_1, next_states, Ghost(inner));
                proof {
                    assert forall|k: int|
                        0 <= k < states.len() && #[trigger] next_states@[k] && !old_marks[k]
                            implies eps_reaches(states, curr_state as int, k) by {
                        if k == curr_state as int {
                            lemma_eps_refl(states, k);
                        } else if m2[k] {
                            lemma_eps_prepend(states, curr_state as int, id_2 as int, k);
                        } else {
                            lemma_eps_prepend(states, curr_state as int, id_1 as int, k);
                        }
                    }
                }
            },
            _ => {
                proof {
                    assert forall|k: int|
                        0 <= k < states.len() && #[trigger] next_states@[k] && !old_marks[k]
                            implies eps_reaches(states, curr_state as int, k) by {
                        lemma_eps_refl(states, k);
                    }
                }
            },
        }
        proof {
            if pending.is_empty() {
                assert forall|k: int| 0 <= k < states.len() && eps_reaches(states, curr_state as int, k)
                    implies next_states@[k] by {
                    lemma_closed_holds_closure(states, next_states@, curr_state as int, k);
                }
            }
        }
    }
}

/// A sub-automaton under construction: its entry state and the states whose exit
/// edge still waits to be wired.
struct Fragment {
    start: StateId,
    ends: Vec<StateId>,
}

/// `f` is the fragment of `a` appended to the arena `before`, giving `after`.
spec fn built(before: Seq<State>, after: Seq<State>, a: AST, f: Fragment) -> bool {
    &&& after.len() == before.len() + size(a)
    &&& after.subrange(0, before.len() as int) == before
    &&& wired(after, a, before.len() as int, None)
    &&& f.start == frag_start(a, before.len() as int)
    &&& ends_ok(f.ends@, a, before.len() as int)
    &&& f.ends@ == exit_list(a, before.len() as int)
}

impl NFA {
    /// Compiles a pattern into an automaton.
    pub fn from(regular_expression: &str) -> (r: Result<NFA, String>)
        ensures
            match parse_pattern(regular_expression@) {
                Ok(ast) => {
                    &&& r is Ok
                    &&& r->Ok_0.wf()
                    &&& compiled(r->Ok_0@, ast)
                    &&& forall|s: Seq<char>| #[trigger] r->Ok_0.spec_accepts(s) == in_lang(ast, s)
                },
                Err(e) => r is Err && r->Err_0@ == e.spec_message(),
            },
    {
        let mut nfa = NFA::new();
        let start = nfa.add_state(State::Start(None));
        nfa.start = start;
        let ast = match Parser::parse(Tokenizer::new(regular_expression)) {
            Ok(a) => a,
            Err(e) => return Err(e),
        };
        let ghost s1 = nfa@;
        let body = nfa.gen_fragment(&ast);
        let ghost s2 = nfa@;
        nfa.join(nfa.start, body.start);
        let ghost s3 = nfa@;
        proof {
            lemma_size_pos(ast);
            lemma_start_within(ast, 1);
            lemma_frame(s2, s3, ast, 1, None);
        }
        let end = nfa.add_state(State::End);
        let ghost s4 = nfa@;
        proof {
            lemma_frame(s3, s4, ast, 1, None);
            lemma_listed_exit(body.ends@, ast, 1);
        }
        nfa.join_fragment(&body, end);
        let _ = nfa.states.len();
        proof {
            let s5 = nfa@;
            assert(s5.len() <= usize::MAX);
            lemma_listed_exit(body.ends@, ast, 1);
            lemma_join(s4, s5, ast, 1, end);
            assert(s2.subrange(0, 1)[0] == s1[0]);
            assert(s5[0] == s4[0]);
            assert(s5[0] == State::Start(Some(frag_start(ast, 1) as usize)));
            assert(wired(s5, ast, 1, Some((size(ast) + 1) as usize)));
            assert(s5[end as int] == s4[end as int]);
            assert(compiled(s5, ast));
            lemma_wired_within(s5, ast, 1, end, s5.len() as int);
            assert(forall|k: int| 0 <= k < s5.len() ==> #[trigger] wired_within(s5[k], s5.len() as int));
            assert forall|s: Seq<char>| #[trigger] arena_accepts(s5, s) == in_lang(ast, s) by {
                lemma_compiled_language(s5, ast, s);
            }
        }
        Ok(nfa)
    }

    fn new() -> (r: NFA)
        ensures
            r@.len() == 0,
    {
        NFA { states: Vec::new(), start: 0 }
    }

    /// Appends a state and gives back its index.
    fn add_state(&mut self, state: State) -> (r: StateId)
        ensures
            final(self)@ == old(self)@.push(state),
            r == old(self)@.len(),
            final(self).start == old(self).start,
    {
        let idx = self.states.len();
        self.states.push(state);
        idx
    }

    /// Appends the fragment of a tree, with its exits left waiting.
    fn gen_fragment(&mut self, ast: &AST) -> (f: Fragment)
        ensures
            built(old(self)@, final(self)@, *ast, f),
            final(self).start == old(self).start,
        decreases size(*ast), 1nat,
    {
        proof {
            lemma_size_pos(*ast);
        }
        match ast {
            AST::AnyChar => self.gen_any(),
            AST::Char(c) => self.gen_char(*c),
            AST::Catenation(lhs, rhs) => self.gen_cat(lhs, rhs),
            AST::Alternation(lhs, rhs) => self.gen_alt(lhs, rhs),
            AST::Closure(c) => self.gen_closure(c),
            AST::OneOrMore(c) => self.gen_plus(c),
        }
    }

    fn gen_any(&mut self) -> (f: Fragment)
        ensures
            built(old(self)@, final(self)@, AST::AnyChar, f),
            final(self).start == old(self).start,
    {
        let state = self.add_state(State::Match(Char::Any, None));
        let f = Fragment { start: state, ends: vec![state] };
        proof {
            assert(self@.subrange(0, old(self)@.len() as int) =~= old(self)@);
            assert(f.ends@[0] == state);
            assert(f.ends@ =~= seq![state]);
        }
        f
    }

    fn gen_char(&mut self, c: char) -> (f: Fragment)
        ensures
            built(old(self)@, final(self)@, AST::Char(c), f),
            final(self).start == old(self).start,
    {
        let state = self.add_state(State::Match(Char::Literal(c), None));
        let f = Fragment { start: state, ends: vec![state] };
        proof {
            assert(self@.subrange(0, old(self)@.len() as int) =~= old(self)@);
            assert(f.ends@[0] == state);
            assert(f.ends@ =~= seq![state]);
        }
        f
    }

    fn gen_cat(&mut self, lhs: &Box<AST>, rhs: &Box<AST>) -> (f: Fragment)
        ensures
            built(old(self)@, final(self)@, AST::Catenation(*lhs, *rhs), f),
            final(self).start == old(self).start,
        decreases size(**lhs) + size(**rhs), 0nat,
    {
        proof {
            lemma_size_pos(**lhs);
            lemma_size_pos(**rhs);
        }
        let ghost s0 = self@;
        let left = self.gen_fragment(lhs);
        let ghost s1 = self@;
        let right = self.gen_fragment(rhs);
        let ghost s2 = self@;
        let ghost lo = s0.len() as int;
        let ghost mid = s1.len() as int;
        proof {
            lemma_frame(s1, s2, **lhs, lo, None);
            lemma_start_within(**rhs, mid);
        }
        proof {
            lemma_listed_exit(left.ends@, **lhs, lo);
        }
        self.join_fragment(&left, right.start);
        let ghost s3 = self@;
        proof {
            Self::lemma_joined(s2, s3, **lhs, lo, &left, right.start);
            assert forall|k: int| mid <= k < mid + size(**rhs) implies s2[k] == s3[k] by {}
            lemma_frame(s2, s3, **rhs, mid, None);
            assert forall|k: int| 0 <= k < lo implies s3[k] == s0[k] by {
                assert(s1.subrange(0, lo)[k] == s0[k]);
                assert(s2.subrange(0, mid)[k] == s1[k]);
            }
            assert(s3.subrange(0, lo) =~= s0);
            let a = AST::Catenation(*lhs, *rhs);
            assert forall|k: int| #[trigger] is_exit(a, lo, k) implies listed(right.ends@, k) by {
                assert(is_exit(**rhs, mid, k));
            }
            assert forall|i: int| 0 <= i < right.ends@.len() implies is_exit(a, lo, #[trigger] right.ends@[i] as int) by {
                assert(is_exit(**rhs, mid, right.ends@[i] as int));
            }
            assert(wired(s3, a, lo, None));
        }
        Fragment { start: left.start, ends: right.ends }
    }

    fn gen_alt(&mut self, lhs: &Box<AST>, rhs: &Box<AST>) -> (f: Fragment)
        ensures
            built(old(self)@, final(self)@, AST::Alternation(*lhs, *rhs), f),
            final(self).start == old(self).start,
        decreases size(**lhs) + size(**rhs) + 1, 0nat,
    {
        proof {
            lemma_size_pos(**lhs);
            lemma_size_pos(**rhs);
        }
        let ghost s0 = self@;
        let left = self.gen_fragment(lhs);
        let ghost s1 = self@;
        let right = self.gen_fragment(rhs);
        let ghost s2 = self@;
        let split = self.add_state(State::Split(Some(left.start), Some(right.start)));
        let ghost s3 = self@;
        let ghost lo = s0.len() as int;
        let ghost mid = s1.len() as int;
        proof {
            lemma_frame(s1, s3, **lhs, lo, None);
            lemma_frame(s2, s3, **rhs, mid, None);
            assert forall|k: int| 0 <= k < lo implies s3[k] == s0[k] by {
                assert(s1.subrange(0, lo)[k] == s0[k]);
                assert(s2.subrange(0, mid)[k] == s1[k]);
            }
            assert(s3.subrange(0, lo) =~= s0);
        }
        let mut endings = left.ends;
        let mut rights = right.ends;
        let ghost le = endings@;
        let ghost re = rights@;
        endings.append(&mut rights);
        proof {
            let a = AST::Alternation(*lhs, *rhs);
            assert forall|i: int| 0 <= i < endings@.len() implies is_exit(a, lo, #[trigger] endings@[i] as int) by {
                if i < le.len() {
                    assert(endings@[i] == le[i]);
                } else {
                    assert(endings@[i] == re[i - le.len()]);
                }
            }
            assert(le == left.ends@);
            assert(re == right.ends@);
            assert forall|k: int| is_exit(a, lo, k) implies listed(endings@, k) by {
                if is_exit(**lhs, lo, k) {
                    let i = choose|i: int| 0 <= i < le.len() && #[trigger] le[i] as int == k;
                    assert(endings@[i] == le[i]);
                } else {
                    assert(is_exit(**rhs, mid, k));
                    let i = choose|i: int| 0 <= i < re.len() && #[trigger] re[i] as int == k;
                    assert(endings@[i + le.len()] == re[i]);
                }
            }
        }
        Fragment { start: split, ends: endings }
    }

    fn gen_closure(&mut self, c: &Box<AST>) -> (f: Fragment)
        ensures
            built(old(self)@, final(self)@, AST::Closure(*c), f),
            final(self).start == old(self).start,
        decreases size(**c) + 1, 0nat,
    {
        let ghost s0 = self@;
        let child = self.gen_fragment(c);
        let ghost s1 = self@;
        let split = self.add_state(State::Split(Some(child.start), None));
        let ghost s2 = self@;
        proof {
            lemma_listed_exit(child.ends@, **c, s0.len() as int);
        }
        self.join_fragment(&child, split);
        proof {
            Self::lemma_loop(s0, s1, s2, self@, **c, &child, split);
        }
        let f = Fragment { start: split, ends: vec![split] };
        proof {
            assert(f.ends@[0] == split);
            assert(f.ends@ =~= seq![split]);
        }
        f
    }

    fn gen_plus(&mut self, c: &Box<AST>) -> (f: Fragment)
        ensures
            built(old(self)@, final(self)@, AST::OneOrMore(*c), f),
            final(self).start == old(self).start,
        decreases size(**c) + 1, 0nat,
    {
        let ghost s0 = self@;
        let child = self.gen_fragment(c);
        let ghost s1 = self@;
        let split = self.add_state(State::Split(Some(child.start), None));
        let ghost s2 = self@;
        proof {
            lemma_listed_exit(child.ends@, **c, s0.len() as int);
        }
        self.join_fragment(&child, split);
        proof {
            Self::lemma_loop(s0, s1, s2, self@, **c, &child, split);
        }
        let f = Fragment { start: child.start, ends: vec![split] };
        proof {
            assert(f.ends@[0] == split);
            assert(f.ends@ =~= seq![split]);
        }
        f
    }

    /// Wires every waiting exit of a fragment to `to`.
    fn join_fragment(&mut self, lhs: &Fragment, to: StateId)
        requires
            forall|i: int| 0 <= i < lhs.ends@.len() ==> #[trigger] lhs.ends@[i] < old(self)@.len(),
        ensures
            final(self)@.len() == old(self)@.len(),
            final(self).start == old(self).start,
            forall|k: int|
                0 <= k < old(self)@.len() ==> #[trigger] final(self)@[k] == if listed(lhs.ends@, k) {
                    set_exit(old(self)@[k], to)
                } else {
                    old(self)@[k]
                },
    {
        let ghost s0 = self@;
        let mut i: usize = 0;
        while i < lhs.ends.len()
            invariant
                i <= lhs.ends@.len(),
                self@.len() == s0.len(),
                self.start == old(self).start,
                s0 == old(self)@,
                forall|j: int| 0 <= j < lhs.ends@.len() ==> #[trigger] lhs.ends@[j] < s0.len(),
                forall|k: int|
                    0 <= k < s0.len() ==> #[trigger] self@[k] == if listed(
                        lhs.ends@.subrange(0, i as int),
                        k,
                    ) {
                        set_exit(s0[k], to)
                    } else {
                        s0[k]
                    },
            decreases lhs.ends@.len() - i,
        {
            let e = lhs.ends[i];
            let ghost before = self@;
            self.join(e, to);
            proof {
                let done = lhs.ends@.subrange(0, i as int);
                let now = lhs.ends@.subrange(0, i + 1);
                assert(now =~= done.push(e));
                assert forall|k: int| 0 <= k < s0.len() implies #[trigger] self@[k] == if listed(now, k) {
                    set_exit(s0[k], to)
                } else {
                    s0[k]
                } by {
                    if k == e as int {
                        assert(now[i as int] == e);
                    } else {
                        if listed(now, k) {
                            let j = choose|j: int| 0 <= j < now.len() && #[trigger] now[j] as int == k;
                            assert(done[j] == now[j]);
                        }
                        if listed(done, k) {
                            let j = choose|j: int| 0 <= j < done.len() && #[trigger] done[j] as int == k;
                            assert(now[j] == done[j]);
                        }
                    }
                }
            }
            i = i + 1;
        }
        proof {
            assert(lhs.ends@.subrange(0, i as int) =~= lhs.ends@);
        }
    }

    /// Sets the exit edge of state `from` to `to`.
    fn join(&mut self, from: StateId, to: StateId)
        requires
            from < old(self)@.len(),
        ensures
            final(self)@ == old(self)@.update(from as int, set_exit(old(self)@[from as int], to)),
            final(self).start == old(self).start,
    {
        let st = match self.states[from] {
            State::Start(_) => State::Start(Some(to)),
            State::Match(c, _) => State::Match(c, Some(to)),
            State::Split(a, _) => State::Split(a, Some(to)),
            State::End => State::End,
        };
        self.states.set(from, st);
    }

    /// After `join_fragment`, a waiting fragment is wired to `to`.
    proof fn lemma_joined(s1: Seq<State>, s2: Seq<State>, a: AST, lo: int, f: &Fragment, to: usize)
        requires
            wired(s1, a, lo, None),
            ends_ok(f.ends@, a, lo),
            0 <= lo,
            lo + size(a) <= s1.len(),
            s1.len() == s2.len(),
            forall|k: int|
                0 <= k < s1.len() ==> #[trigger] s2[k] == if listed(f.ends@, k) {
                    set_exit(s1[k], to)
                } else {
                    s1[k]
                },
        ensures
            wired(s2, a, lo, Some(to)),
    {
        lemma_listed_exit(f.ends@, a, lo);
        lemma_join(s1, s2, a, lo, to);
    }

    /// A child fragment with a split after it, its exits wired back to the split,
    /// is the loop of `Closure` and `OneOrMore`.
    proof fn lemma_loop(
        s0: Seq<State>,
        s1: Seq<State>,
        s2: Seq<State>,
        s3: Seq<State>,
        c: AST,
        child: &Fragment,
        split: usize,
    )
        requires
            built(s0, s1, c, *child),
            split == s1.len(),
            s2 == s1.push(State::Split(Some(child.start), None)),
            s3.len() == s2.len(),
            forall|k: int|
                0 <= k < s2.len() ==> #[trigger] s3[k] == if listed(child.ends@, k) {
                    set_exit(s2[k], split)
                } else {
                    s2[k]
                },
        ensures
            s3.len() == s0.len() + size(c) + 1,
            s3.subrange(0, s0.len() as int) == s0,
            wired(s3, c, s0.len() as int, Some(split)),
            s3[split as int] == State::Split(Some(child.start), None),
    {
        let lo = s0.len() as int;
        lemma_size_pos(c);
        lemma_frame(s1, s2, c, lo, None);
        lemma_listed_exit(child.ends@, c, lo);
        Self::lemma_joined(s2, s3, c, lo, child, split);
        assert forall|k: int| 0 <= k < lo implies s3[k] == s0[k] by {
            assert(s1.subrange(0, lo)[k] == s0[k]);
            assert(s3[k] == s2[k]);
        }
        assert(s3.subrange(0, lo) =~= s0);
        assert(s3[split as int] == s2[split as int]);
    }
}

/// A state with every edge moved `off` places further along the arena.
pub open spec fn shifted(st: State, off: int) -> State {
    let mv = |e: Option<StateId>|
        match e {
            Some(n) => Some((n + off) as StateId),
            None => None,
        };
    match st {
        State::Start(e) => State::Start(mv(e)),
        State::Match(c, e) => State::Match(c, mv(e)),
        State::Split(a, b) => State::Split(mv(a), mv(b)),
        State::End => State::End,
    }
}

/// The arena of `lhs` followed by that of `rhs`: the `End` of `lhs` is dropped, so
/// its exits lead to the `Start` of `rhs`, whose edges are moved along.
pub open spec fn concat_arena(lhs: Seq<State>, rhs: Seq<State>) -> Seq<State> {
    lhs.drop_last() + rhs.map_values(|st: State| shifted(st, lhs.len() - 1))
}

fn shift_edge(e: Option<StateId>, off: usize) -> (r: Option<StateId>)
    requires
        e is Some ==> e->0 + off <= usize::MAX,
    ensures
        r == match e {
            Some(n) => Some((n + off) as StateId),
            None => None::<StateId>,
        },
{
    match e {
        Some(n) => Some(n + off),
        None => None,
    }
}

impl NFA {
    /// An automaton for the strings of `self` followed by those of `rhs`.
    pub fn concat(&self, rhs: &NFA) -> (r: NFA)
        requires
            self.wf(),
            rhs.wf(),
            self@.len() - 1 + rhs@.len() <= usize::MAX,
        ensures
            r.wf(),
            r@ == concat_arena(self@, rhs@),
            forall|s: Seq<char>| #[trigger] r.spec_accepts(s) == split_accepts(self@, rhs@, s),
    {
        let ghost lhs = self@;
        let ghost rs = rhs@;
        let ghost off = lhs.len() - 1;
        let mut new_nfa: Vec<State> = Vec::new();
        let mut idx: usize = 0;
        while idx < self.states.len() - 1
            invariant
                self.wf(),
                lhs == self@,
                idx <= lhs.len() - 1,
                new_nfa@ == lhs.subrange(0, idx as int),
            decreases lhs.len() - 1 - idx,
        {
            new_nfa.push(self.states[idx]);
            idx = idx + 1;
        }
        let length = new_nfa.len();
        proof {
            assert(new_nfa@ =~= lhs.drop_last());
        }
        idx = 0;
        while idx < rhs.states.len()
            invariant
                rhs.wf(),
                rs == rhs@,
                length == off,
                off + rs.len() <= usize::MAX,
                idx <= rs.len(),
                new_nfa@ == lhs.drop_last() + rs.subrange(0, idx as int).map_values(
                    |st: State| shifted(st, off),
                ),
            decreases rs.len() - idx,
        {
            let st = rhs.states[idx];
            proof {
                assert(wired_within(rs[idx as int], rs.len() as int));
            }
            let moved = match st {
                State::Start(e) => State::Start(shift_edge(e, length)),
                State::Match(c, e) => State::Match(c, shift_edge(e, length)),
                State::Split(a, b) => State::Split(shift_edge(a, length), shift_edge(b, length)),
                State::End => State::End,
            };
            new_nfa.push(moved);
            proof {
                assert(rs.subrange(0, idx + 1).map_values(|st: State| shifted(st, off)) =~= rs.subrange(
                    0,
                    idx as int,
                ).map_values(|st: State| shifted(st, off)).push(shifted(rs[idx as int], off)));
            }
            idx = idx + 1;
        }
        proof {
            assert(rs.subrange(0, rs.len() as int) =~= rs);
            let n = new_nfa@.len();
            assert(n == off + rs.len());
            assert forall|k: int| 0 <= k < n implies #[trigger] wired_within(new_nfa@[k], n as int) && (
            new_nfa@[k] is End <==> k == n - 1) by {
                if k < off {
                    assert(new_nfa@[k] == lhs[k]);
                    assert(wired_within(lhs[k], lhs.len() as int));
                } else {
                    assert(new_nfa@[k] == shifted(rs[k - off], off));
                    assert(wired_within(rs[k - off], rs.len() as int));
                }
            }
            assert(new_nfa@ =~= concat_arena(lhs, rs));
            assert forall|s: Seq<char>| #[trigger] arena_accepts(new_nfa@, s) == split_accepts(lhs, rs, s) by {
                lemma_concat_language(lhs, rs, s);
            }
        }
        NFA { start: 0, states: new_nfa }
    }
}

/// `lhs + rhs` is `lhs.concat(&rhs)`; the contract of `concat` says what it gives.
impl std::ops::Add for NFA {
    type Output = NFA;

    fn add(self, rhs: NFA) -> (r: NFA)
        ensures
            r.wf(),
            r@ == concat_arena(self@, rhs@),
            forall|s: Seq<char>| #[trigger] r.spec_accepts(s) == split_accepts(self@, rhs@, s),
    {
        self.concat(&rhs)
    }
}

/// What `+` needs of its operands. No law of the result is stated through the
/// operator (`obeys_add_spec` is false): it is stated on `concat`.
impl vstd::std_specs::ops::AddSpecImpl for NFA {
    open spec fn obeys_add_spec() -> bool {
        false
    }

    open spec fn add_req(self, rhs: NFA) -> bool {
        self.wf() && rhs.wf() && self@.len() - 1 + rhs@.len() <= usize::MAX
    }

    open spec fn add_spec(self, rhs: NFA) -> NFA {
        self
    }
}

/// `&lhs + &rhs` is `lhs.concat(&rhs)`, keeping both operands.
impl<'a> std::ops::Add<&'a NFA> for &'a NFA {
    type Output = NFA;

    fn add(self, rhs: &'a NFA) -> (r: NFA)
        ensures
            r.wf(),
            r@ == concat_arena(self@, rhs@),
            forall|s: Seq<char>| #[trigger] r.spec_accepts(s) == split_accepts(self@, rhs@, s),
    {
        self.concat(rhs)
    }
}

/// What `+` on references needs of its operands; as above, the result is described
/// by `concat`.
impl<'a> vstd::std_specs::ops::AddSpecImpl<&'a NFA> for &'a NFA {
    open spec fn obeys_add_spec() -> bool {
        false
    }

    open spec fn add_req(self, rhs: &'a NFA) -> bool {
        self.wf() && rhs.wf() && self@.len() - 1 + rhs@.len() <= usize::MAX
    }

    open spec fn add_spec(self, rhs: &'a NFA) -> NFA {
        *self
    }
}

/// A set of states with none marked.
fn no_states(n: usize) -> (v: Vec<bool>)
    ensures
        v@.len() == n,
        forall|k: int| 0 <= k < n ==> !v@[k],
{
    let mut v: Vec<bool> = Vec::new();
    let mut i: usize = 0;
    while i < n
        invariant
            i <= n,
            v@.len() == i,
            forall|k: int| 0 <= k < i ==> !v@[k],
        decreases n - i,
    {
        v.push(false);
        i = i + 1;
    }
    v
}

} // verus!
