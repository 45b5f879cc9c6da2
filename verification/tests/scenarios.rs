//! End-to-end compilations of small rule sets: pattern, registry, NFA, DFA.

use flexer::dfa::DFA;
use flexer::matrix::Matrix;
use flexer::nfa::NFA;
use flexer::pattern::Pattern;
use flexer::group::Registry;
use flexer::symbol::Symbol;

const INVALID: usize = usize::MAX;

fn compile(rules: Vec<(Pattern, &str)>) -> DFA {
    let mut registry = Registry::default();
    let root = registry.define_group("root", None);
    for (pattern, code) in rules {
        registry.create_rule(root, &pattern, code);
    }
    let data = registry.to_nfa_from(root).unwrap();
    DFA::from_nfa(data.automaton())
}

fn division_codes(dfa: &DFA) -> Vec<u32> {
    dfa.alphabet_segmentation.divisions().iter().map(|s| s.value).collect()
}

fn code_of(dfa: &DFA, state: usize) -> &str {
    dfa.callbacks[state].as_ref().unwrap().code.as_str()
}

#[test]
fn scenario_range_rule() {
    let dfa = compile(vec![(Pattern::range('a', 'z'), "word")]);
    assert_eq!(division_codes(&dfa), vec![0, 97, 123]);
    let expected = Matrix::from_rows(vec![
        vec![INVALID, 1, INVALID],
        vec![INVALID, INVALID, INVALID],
    ]);
    assert_eq!(dfa.links, expected);
    assert!(dfa.callbacks[0].is_none());
    assert!(dfa.callbacks[1].is_some());
    assert_eq!(code_of(&dfa, 1), "group_0_rule_0");
    assert_eq!(dfa.callbacks[1].as_ref().unwrap().priority, 2);
}

#[test]
fn scenario_alternation_rule() {
    let dfa = compile(vec![(Pattern::char('a') | Pattern::char('d'), "ad")]);
    assert_eq!(division_codes(&dfa), vec![0, 97, 98, 100, 101]);
    let expected = Matrix::from_rows(vec![
        vec![INVALID, 1, INVALID, 2, INVALID],
        vec![INVALID, INVALID, INVALID, INVALID, INVALID],
        vec![INVALID, INVALID, INVALID, INVALID, INVALID],
    ]);
    assert_eq!(dfa.links, expected);
    assert!(dfa.callbacks[0].is_none());
    assert_eq!(code_of(&dfa, 1), "group_0_rule_0");
    assert_eq!(code_of(&dfa, 2), "group_0_rule_0");
}

#[test]
fn scenario_sequence_rule() {
    let dfa = compile(vec![(Pattern::char('a') >> Pattern::char('d'), "ad")]);
    assert_eq!(division_codes(&dfa), vec![0, 97, 98, 100, 101]);
    let expected = Matrix::from_rows(vec![
        vec![INVALID, 1, INVALID, INVALID, INVALID],
        vec![INVALID, INVALID, INVALID, 2, INVALID],
        vec![INVALID, INVALID, INVALID, INVALID, INVALID],
    ]);
    assert_eq!(dfa.links, expected);
    assert!(dfa.callbacks[0].is_none());
    assert!(dfa.callbacks[1].is_none());
    assert_eq!(code_of(&dfa, 2), "group_0_rule_0");
}

#[test]
fn scenario_kleene_rule() {
    let dfa = compile(vec![(Pattern::char('a').many(), "stars")]);
    assert_eq!(division_codes(&dfa), vec![0, 97, 98]);
    let expected = Matrix::from_rows(vec![
        vec![INVALID, 1, INVALID],
        vec![INVALID, 1, INVALID],
    ]);
    assert_eq!(dfa.links, expected);
    assert_eq!(code_of(&dfa, 0), "group_0_rule_0");
    assert_eq!(code_of(&dfa, 1), "group_0_rule_0");
}

#[test]
fn scenario_shared_prefix_rules() {
    let a = Pattern::char('a');
    let ab = &a >> &Pattern::char('b');
    let dfa = compile(vec![(a, "just_a"), (ab, "a_then_b")]);
    assert_eq!(division_codes(&dfa), vec![0, 97, 98, 99]);
    let expected = Matrix::from_rows(vec![
        vec![INVALID, 1, INVALID, INVALID],
        vec![INVALID, INVALID, 2, INVALID],
        vec![INVALID, INVALID, INVALID, INVALID],
    ]);
    assert_eq!(dfa.links, expected);
    assert!(dfa.callbacks[0].is_none());
    assert_eq!(code_of(&dfa, 1), "group_0_rule_0");
    assert_eq!(code_of(&dfa, 2), "group_0_rule_1");
}

#[test]
fn scenario_complex_rules() {
    let a_word = Pattern::char('a').many1();
    let b_word = Pattern::char('b').many1();
    let space = Pattern::char(' ');
    let spaced_a_word = &space >> &a_word;
    let spaced_b_word = &space >> &b_word;
    let any = Pattern::any();
    let end = Pattern::eof();
    let dfa = compile(vec![
        (spaced_a_word, "spaced_a"),
        (spaced_b_word, "spaced_b"),
        (end, "end_of_input"),
        (any, "catch_all"),
    ]);
    let codes = division_codes(&dfa);
    for code in [0u32, 32, 33, 97, 98, 99, u32::MAX] {
        assert!(codes.contains(&code));
    }
    let expected = Matrix::from_rows(vec![
        vec![1, 2, 1, 1, 1, 1, 3],
        vec![INVALID, INVALID, INVALID, INVALID, INVALID, INVALID, INVALID],
        vec![INVALID, INVALID, INVALID, 4, 5, INVALID, INVALID],
        vec![INVALID, INVALID, INVALID, INVALID, INVALID, INVALID, INVALID],
        vec![INVALID, INVALID, INVALID, 6, INVALID, INVALID, INVALID],
        vec![INVALID, INVALID, INVALID, INVALID, 7, INVALID, INVALID],
        vec![INVALID, INVALID, INVALID, 6, INVALID, INVALID, INVALID],
        vec![INVALID, INVALID, INVALID, INVALID, 7, INVALID, INVALID],
    ]);
    assert_eq!(dfa.links, expected);
    // The start row distinguishes the space from the letters: the space leads
    // into the spaced branches, every other symbol into the catch-all, and
    // the EOF class into the end-of-input state.
    assert!(dfa.callbacks[0].is_none());
    assert_eq!(code_of(&dfa, 1), "group_0_rule_3");
    assert_eq!(code_of(&dfa, 2), "group_0_rule_3");
    assert_eq!(code_of(&dfa, 3), "group_0_rule_2");
    // The space branch accepts only letters of the right class afterwards.
    assert_eq!(code_of(&dfa, 4), "group_0_rule_0");
    assert_eq!(code_of(&dfa, 6), "group_0_rule_0");
    assert_eq!(code_of(&dfa, 5), "group_0_rule_1");
    assert_eq!(code_of(&dfa, 7), "group_0_rule_1");
}

#[test]
fn scenario_never_rule_rejects_everything() {
    let dfa = compile(vec![(Pattern::never(), "unreachable_cb")]);
    assert_eq!(dfa.links.rows(), 1);
    for col in 0..dfa.links.cols {
        assert_eq!(dfa.links.get(0, col).id, INVALID);
    }
}

#[test]
fn scenario_always_without_names() {
    let mut nfa = NFA::default();
    let start = nfa.new_state();
    let end = nfa.new_state();
    let accept = nfa.new_pattern(start, &Pattern::always());
    nfa.connect(accept, end);
    let dfa = DFA::from_nfa(&nfa);
    assert_eq!(dfa.links.rows(), 1);
    for col in 0..dfa.links.cols {
        assert_eq!(dfa.links.get(0, col).id, INVALID);
    }
    assert!(dfa.callbacks[0].is_none());
}

#[test]
fn scenario_empty_word_rule_accepts_at_start() {
    let dfa = compile(vec![(Pattern::always(), "empty_cb")]);
    assert_eq!(dfa.links.rows(), 1);
    assert_eq!(code_of(&dfa, 0), "group_0_rule_0");
}

#[test]
fn compiling_twice_yields_identical_dfas() {
    let build = |registry: &Registry| {
        let data = registry.to_nfa_from(flexer::group::Identifier(0)).unwrap();
        DFA::from_nfa(data.automaton())
    };
    let mut registry = Registry::default();
    let root = registry.define_group("root", None);
    registry.create_rule(root, &(Pattern::char('a') | Pattern::range('0', '9')), "tok");
    registry.create_rule(root, &Pattern::eof(), "eof_tok");
    let first = build(&registry);
    let second = build(&registry);
    assert_eq!(first, second);
    assert_eq!(first.alphabet_segmentation, second.alphabet_segmentation);
    assert_eq!(first.links, second.links);
    assert_eq!(first.callbacks, second.callbacks);
}

#[test]
fn segmentation_tracks_every_inserted_range() {
    let dfa = compile(vec![(Pattern::range('b', 'd'), "bd"), (Pattern::range('d', 'f'), "df")]);
    let codes = division_codes(&dfa);
    assert_eq!(codes, vec![0, 'b' as u32, 'd' as u32, 'e' as u32, 'g' as u32]);
}

#[test]
fn dfa_rule_lookup_matches_callbacks() {
    let dfa = compile(vec![(Pattern::char('a'), "a_cb")]);
    assert!(!dfa.has_rule_for(flexer::state::Identifier::new(0)));
    assert!(dfa.has_rule_for(flexer::state::Identifier::new(1)));
    assert!(!dfa.has_rule_for(flexer::state::Identifier::new(99)));
}

#[test]
fn eof_range_insert_does_not_overflow() {
    let dfa = compile(vec![(Pattern::symbols(flexer::symbol::SymbolRange::new(
        Symbol::from(40),
        Symbol::eof_code(),
    )), "tail")]);
    let codes = division_codes(&dfa);
    assert_eq!(codes, vec![0, 40]);
}
