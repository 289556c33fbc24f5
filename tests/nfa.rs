use thegrep::nfa::{State, NFA};

#[test]
fn single_lit_char() {
    let nfa = NFA::from("a").unwrap();
    let input = "a";
    assert_eq!(nfa.accepts(input), true);
}

#[test]
fn single_lit_char_wrong() {
    let nfa = NFA::from("a").unwrap();
    let input = "h";
    assert_eq!(nfa.accepts(input), false);
}

#[test]
fn single_any_char() {
    let nfa = NFA::from(".").unwrap();
    let input = ".";
    assert!(nfa.accepts(input));
    let input2 = "b";
    assert!(nfa.accepts(input2));
}

#[test]
fn extra_input() {
    let nfa = NFA::from(".*b").unwrap();
    // the match is on the whole line: the trailing 'c' is left over
    let input = "abc";
    assert_eq!(nfa.accepts(input), false);
}

#[test]
fn catenation_pattern_exact() {
    let nfa = NFA::from("abc").unwrap();
    let input = "abc";
    assert_eq!(nfa.accepts(input), true);
}

#[test]
fn catenation_pattern_string() {
    let nfa = NFA::from(".*amin").unwrap();
    // the match is on the whole line: "go" is left over
    let input = "flamingo";
    assert_eq!(nfa.accepts(input), false);
}

#[test]
fn alternation_basic() {
    let nfa = NFA::from("a|b").unwrap();
    let input = "b";
    assert_eq!(nfa.accepts(input), true);
}

#[test]
fn alternation_intermediate() {
    let nfa = NFA::from("ab|c").unwrap();
    let input = "ab";
    assert_eq!(nfa.accepts(input), true);
    let input = "c";
    assert_eq!(nfa.accepts(input), true);
}

#[test]
fn alternation_repeated() {
    let nfa = NFA::from("a|b|c").unwrap();
    // the match is on the whole line: "ab" is in no branch
    let input = "ab";
    assert_eq!(nfa.accepts(input), false);
    let input = "c";
    assert_eq!(nfa.accepts(input), true);
}

#[test]
fn closure_basic() {
    let nfa = NFA::from("a*").unwrap();
    let input = "aa";
    assert_eq!(nfa.accepts(input), true);
}

#[test]
fn closure_extra_input() {
    let nfa = NFA::from(".*a*").unwrap();
    let input = "baa";
    assert_eq!(nfa.accepts(input), true);
}

#[test]
fn closure_longer_input() {
    let nfa = NFA::from("a*").unwrap();
    let input = "aaa";
    assert_eq!(nfa.accepts(input), true);
}

#[test]
fn closure_in_middle_of_pattern() {
    let nfa = NFA::from("ab*c").unwrap();
    let input = "abbbbbbc";
    assert_eq!(nfa.accepts(input), true);
}

#[test]
fn closure_fail() {
    let nfa = NFA::from("ab*c").unwrap();
    let input = "abbbb";
    assert_eq!(nfa.accepts(input), false);
}

#[test]
fn stress_test_any() {
    let nfa = NFA::from("(a|b.)*").unwrap();
    let input = "bobo";
    assert_eq!(nfa.accepts(input), true);
}

#[test]
fn multiple_alt_closure() {
    let nfa = NFA::from(".*(a|b|c)*").unwrap();
    let input = "fbc";
    assert_eq!(nfa.accepts(input), true);
}

#[test]
fn stress_test_lit_long() {
    let nfa = NFA::from("(a|bc)*").unwrap();
    let input = "bcbcaa";
    assert_eq!(nfa.accepts(input), true);
}

#[test]
fn stress_test_lit_short() {
    let nfa = NFA::from("(a|bc)*").unwrap();
    let input = "bcbc";
    assert_eq!(nfa.accepts(input), true);
}

#[test]
fn any_closure() {
    let nfa = NFA::from("a.*c").unwrap();
    let input = "adfgc";
    assert_eq!(nfa.accepts(input), true);
}

#[test]
fn closure_alt() {
    let nfa = NFA::from("a.*(d|c)").unwrap();
    let input = "adfgc";
    assert_eq!(nfa.accepts(input), true);
}

#[test]
fn fab() {
    let nfa = NFA::from(".*fab").unwrap();
    let input = "fafab";
    assert_eq!(nfa.accepts(input), true);
}

#[test]
fn aaab() {
    let nfa = NFA::from(".*aaab").unwrap();
    // the match is on the whole line: the trailing 'c' is left over
    let input = "abaaaaabc";
    assert_eq!(nfa.accepts(input), false);
}

#[test]
fn abaa() {
    let nfa = NFA::from(".*abaa").unwrap();
    let input = "ababaa";
    assert_eq!(nfa.accepts(input), true);
}

#[test]
fn nfa_empty() {
    let nfa = NFA::from(".*").unwrap();
    let input = "
        ";
    assert_eq!(nfa.accepts(input), true);
}

#[test]
fn alt_closure() {
    let nfa = NFA::from("(a*|b)*").unwrap();
    let input = "a";
    assert_eq!(nfa.accepts(input), true);
}

#[test]
fn alt_plus() {
    let nfa = NFA::from("(a+|b)+").unwrap();
    let input = "a";
    assert_eq!(nfa.accepts(input), true);
}

#[test]
fn dot_star_alt_plus() {
    let nfa = NFA::from(".*(a+|b)+").unwrap();
    let input = "a";
    assert_eq!(nfa.accepts(input), true);
}

#[test]
fn cat_clos_plus() {
    let nfa = NFA::from("(ab*)+").unwrap();
    let input = "aa";
    assert_eq!(nfa.accepts(input), true);
}

#[test]
fn stress_all() {
    let nfa = NFA::from("(ab*|cd)+").unwrap();
    let input = "a";
    assert_eq!(nfa.accepts(input), true);
}

#[test]
fn add_basic() {
    let nfa = NFA::from("(a|b)").unwrap();
    let nfa_2 = NFA::from("(c|d)").unwrap();
    let nfa_cat = nfa + nfa_2;
    assert!(nfa_cat.accepts("ac"));
}

#[test]
fn add_concat() {
    let nfa = NFA::from("ab").unwrap();
    let nfa_2 = NFA::from("cd").unwrap();
    let nfa_cat = nfa + nfa_2;
    assert!(nfa_cat.accepts("abcd"));
}

#[test]
fn add_concat_bad() {
    let nfa = NFA::from("ab").unwrap();
    let nfa_2 = NFA::from("cd").unwrap();
    let nfa_cat = nfa + nfa_2;
    assert!(!nfa_cat.accepts("eabcd"));
}

#[test]
fn add_kleene_concat() {
    let nfa = NFA::from("a*").unwrap();
    let nfa_2 = NFA::from("b*").unwrap();
    let nfa_cat = nfa + nfa_2;
    assert!(nfa_cat.accepts("a"));
    assert!(nfa_cat.accepts("b"));
    assert!(nfa_cat.accepts("ab"));
    assert!(nfa_cat.accepts("aabbb"));
}

#[test]
fn add_kleene_concat_plus() {
    let nfa = NFA::from("a*").unwrap();
    let nfa_2 = NFA::from("b+").unwrap();
    let nfa_cat = nfa + nfa_2;
    assert!(nfa_cat.accepts("ab"));
    assert!(nfa_cat.accepts("b"));
    assert!(nfa_cat.accepts("ab"));
    assert!(nfa_cat.accepts("aabbb"));
}

#[test]
fn add_stress() {
    let nfa = NFA::from("a*").unwrap();
    let nfa_2 = NFA::from("(b+|c)d*").unwrap();
    let nfa_cat = nfa + nfa_2;
    assert!(nfa_cat.accepts("b"));
    assert!(nfa_cat.accepts("ab"));
    assert!(nfa_cat.accepts("bd"));
    assert!(nfa_cat.accepts("bdd"));
}

#[test]
fn add_stress_refs() {
    let nfa = NFA::from("a*").unwrap();
    let nfa_2 = NFA::from("(b+|c)d*").unwrap();
    let nfa_cat = &nfa + &nfa_2;
    assert!(nfa_cat.accepts("b"));
    assert!(nfa_cat.accepts("ab"));
    assert!(nfa_cat.accepts("bd"));
    assert!(nfa_cat.accepts("bdd"));
}
#[test]
fn scenario_single_char() {
    let nfa = NFA::from("a").unwrap();
    assert!(nfa.accepts("a"));
    assert!(!nfa.accepts("b"));
    assert!(!nfa.accepts("ab"));
}

#[test]
fn scenario_star() {
    let nfa = NFA::from("a*").unwrap();
    assert!(nfa.accepts(""));
    assert!(nfa.accepts("aaa"));
    assert!(!nfa.accepts("b"));
}

#[test]
fn scenario_alternation() {
    let nfa = NFA::from("a|b").unwrap();
    assert!(nfa.accepts("a"));
    assert!(nfa.accepts("b"));
    assert!(!nfa.accepts("c"));
}

#[test]
fn scenario_star_in_middle() {
    let nfa = NFA::from("ab*c").unwrap();
    assert!(nfa.accepts("ac"));
    assert!(nfa.accepts("abbbc"));
    assert!(!nfa.accepts("abbbb"));
}

#[test]
fn scenario_star_of_group() {
    let nfa = NFA::from("(a|bc)*").unwrap();
    assert!(nfa.accepts("bcbc"));
    assert!(nfa.accepts("a"));
    assert!(!nfa.accepts("bcx"));
}

#[test]
fn scenario_plus_of_group() {
    let nfa = NFA::from("(a+|b)+").unwrap();
    assert!(nfa.accepts("aaab"));
    assert!(!nfa.accepts(""));
}

#[test]
fn nullable_patterns_accept_empty() {
    for p in ["a*", "(ab)*", "a*b*", "(a|b*)", "(a+)*", ".*|x"] {
        assert!(NFA::from(p).unwrap().accepts(""), "{}", p);
    }
    for p in ["a", "a+", "a*b", ".", "(a|b)+"] {
        assert!(!NFA::from(p).unwrap().accepts(""), "{}", p);
    }
}

#[test]
fn literal_pattern_matches_only_itself() {
    let nfa = NFA::from("hello").unwrap();
    assert!(nfa.accepts("hello"));
    assert!(!nfa.accepts("hell"));
    assert!(!nfa.accepts("hello!"));
    assert!(!nfa.accepts("xhello"));
    assert!(!nfa.accepts("hellp"));
    assert!(!nfa.accepts(""));
}

#[test]
fn alternation_is_union_of_branches() {
    let nfa = NFA::from("ab|c*").unwrap();
    assert!(nfa.accepts("ab"));
    assert!(nfa.accepts(""));
    assert!(nfa.accepts("ccc"));
    assert!(!nfa.accepts("abc"));
    assert!(!nfa.accepts("a"));
}

#[test]
fn closure_is_repetition_of_child() {
    let nfa = NFA::from("(ab|c)*").unwrap();
    assert!(nfa.accepts(""));
    assert!(nfa.accepts("abcab"));
    assert!(nfa.accepts("ccc"));
    assert!(!nfa.accepts("abca"));
    assert!(!nfa.accepts("b"));
}

#[test]
fn one_or_more_needs_one_repetition() {
    let nfa = NFA::from("x+").unwrap();
    assert!(!nfa.accepts(""));
    assert!(nfa.accepts("x"));
    assert!(nfa.accepts("xxxx"));
    assert!(!nfa.accepts("xxy"));
}

#[test]
fn any_char_takes_exactly_one() {
    let nfa = NFA::from(".").unwrap();
    assert!(nfa.accepts("z"));
    assert!(nfa.accepts("é"));
    assert!(nfa.accepts("*"));
    assert!(!nfa.accepts(""));
    assert!(!nfa.accepts("zz"));
}

#[test]
fn compiling_twice_gives_same_behaviour() {
    let a = NFA::from("(a|b.)*c+").unwrap();
    let b = NFA::from("(a|b.)*c+").unwrap();
    for s in ["", "c", "ac", "bxc", "abxcc", "ab", "bc", "cc", "x"] {
        assert_eq!(a.accepts(s), b.accepts(s), "{}", s);
    }
}

#[test]
fn nested_empty_loops_terminate() {
    let nfa = NFA::from("(a*)*").unwrap();
    assert!(nfa.accepts(""));
    assert!(nfa.accepts("aaaa"));
    assert!(!nfa.accepts("ab"));
    let nfa = NFA::from("((a*)*|b*)+").unwrap();
    assert!(nfa.accepts("aabba"));
    assert!(!nfa.accepts("aac"));
}

#[test]
fn compile_errors_are_reported() {
    assert_eq!(NFA::from("(a").err(), Some(String::from("Unexpected end of input")));
    assert_eq!(NFA::from("a)").err(), Some(String::from("Expected end of input, found RParen")));
    assert_eq!(NFA::from("+").err(), Some(String::from("Unexpected token: KleenePlus")));
}

#[test]
fn arena_layout() {
    let nfa = NFA::from("a|b").unwrap();
    let states = nfa.states();
    assert_eq!(nfa.start(), 0);
    assert_eq!(states.len(), 5);
    assert!(matches!(states[0], State::Start(Some(3))));
    assert!(matches!(states[3], State::Split(Some(1), Some(2))));
    assert!(matches!(states[1], State::Match(_, Some(4))));
    assert!(matches!(states[4], State::End));
}

#[test]
fn concat_layout() {
    let lhs = NFA::from("a").unwrap();
    let rhs = NFA::from("b").unwrap();
    let both = lhs.concat(&rhs);
    let states = both.states();
    assert_eq!(states.len(), 5);
    assert!(matches!(states[0], State::Start(Some(1))));
    assert!(matches!(states[1], State::Match(_, Some(2))));
    assert!(matches!(states[2], State::Start(Some(3))));
    assert!(matches!(states[3], State::Match(_, Some(4))));
    assert!(matches!(states[4], State::End));
    assert!(both.accepts("ab"));
    assert!(!both.accepts("a"));
}

#[test]
fn walks_produce_accepted_strings() {
    for p in ["a", ".", ".*", ".+", "a|b", "ab|cd", "a(b|c)d*e+f", "(a|b)+", "(a|b)*", "(a*|bc)+"] {
        let nfa = NFA::from(p).unwrap();
        let mut seed: u32 = 12345;
        for _ in 0..20 {
            let mut s = String::new();
            let mut idx = nfa.start();
            let mut steps = 0;
            while !matches!(nfa.states()[idx], State::End) && steps < 10_000 {
                seed = seed.wrapping_mul(1_103_515_245).wrapping_add(12_345);
                let (next, out) = nfa.walk_step(idx, (seed >> 16) % 2 == 0, 'q');
                if let Some(c) = out {
                    s.push(c);
                }
                idx = next;
                steps += 1;
            }
            if matches!(nfa.states()[idx], State::End) {
                assert!(nfa.accepts(&s), "{} should accept {:?}", p, s);
            }
        }
    }
}

#[test]
fn walk_step_emits_labels() {
    let nfa = NFA::from("a.").unwrap();
    let (first, out) = nfa.walk_step(0, true, 'z');
    assert_eq!(out, None);
    let (second, out) = nfa.walk_step(first, true, 'z');
    assert_eq!(out, Some('a'));
    let (third, out) = nfa.walk_step(second, true, 'z');
    assert_eq!(out, Some('z'));
    assert!(matches!(nfa.states()[third], State::End));
}

#[test]
fn walk_step_follows_the_coin_at_splits() {
    let nfa = NFA::from("a|b").unwrap();
    let (split, _) = nfa.walk_step(0, true, 'z');
    assert!(matches!(nfa.states()[split], State::Split(Some(1), Some(2))));
    assert_eq!(nfa.walk_step(split, true, 'z'), (1, None));
    assert_eq!(nfa.walk_step(split, false, 'z'), (2, None));
    assert_eq!(nfa.walk_step(1, false, 'z'), (4, Some('a')));
}
