use flexer::dfa::DFA;
use flexer::matrix::Matrix;
use flexer::nfa::NFA;
use flexer::pattern::Pattern;
use flexer::state::Identifier;

const INVALID: usize = usize::MAX;

pub struct NfaTest {
    pub nfa: NFA,
    pub start_state_id: Identifier,
    pub pattern_state_ids: Vec<Identifier>,
    pub end_state_id: Identifier,
}

impl NfaTest {
    pub fn make(patterns: Vec<Pattern>) -> Self {
        let mut nfa = NFA::default();
        let start_state_id = nfa.new_state();
        let mut pattern_state_ids = vec![];
        let end_state_id = nfa.new_state();
        for pattern in patterns {
            let id = nfa.new_pattern(start_state_id, &pattern);
            pattern_state_ids.push(id);
            nfa.connect(id, end_state_id);
        }
        Self { nfa, start_state_id, pattern_state_ids, end_state_id }
    }
}

fn pattern_range() -> NfaTest {
    NfaTest::make(vec![Pattern::range('a', 'z')])
}

fn pattern_or() -> NfaTest {
    NfaTest::make(vec![Pattern::char('a') | Pattern::char('d')])
}

fn pattern_seq() -> NfaTest {
    NfaTest::make(vec![Pattern::char('a') >> Pattern::char('d')])
}

fn pattern_many() -> NfaTest {
    NfaTest::make(vec![Pattern::char('a').many()])
}

fn pattern_always() -> NfaTest {
    NfaTest::make(vec![Pattern::always()])
}

fn pattern_never() -> NfaTest {
    NfaTest::make(vec![Pattern::never()])
}

fn simple_rules() -> NfaTest {
    let a = Pattern::char('a');
    let b = Pattern::char('b');
    let ab = &a >> &b;
    NfaTest::make(vec![a, ab])
}

fn complex_rules() -> NfaTest {
    let a_word = Pattern::char('a').many1();
    let b_word = Pattern::char('b').many1();
    let space = Pattern::char(' ');
    let spaced_a_word = &space >> &a_word;
    let spaced_b_word = &space >> &b_word;
    let any = Pattern::any();
    let end = Pattern::eof();
    NfaTest::make(vec![spaced_a_word, spaced_b_word, end, any])
}

fn assert_same_alphabet(dfa: &DFA, nfa: &NfaTest) {
    assert_eq!(dfa.alphabet_segmentation, nfa.nfa.alphabet_segmentation);
}

fn assert_same_matrix(dfa: &DFA, expected: &Matrix) {
    assert_eq!(dfa.links, *expected);
}

#[test]
fn dfa_pattern_range() {
    let nfa = pattern_range();
    let dfa = DFA::from_nfa(&nfa.nfa);
    assert_same_alphabet(&dfa, &nfa);
    let expected = Matrix::from_rows(vec![
        vec![INVALID, 1, INVALID],
        vec![INVALID, INVALID, INVALID],
    ]);
    assert_same_matrix(&dfa, &expected);
}

#[test]
fn dfa_pattern_or() {
    let nfa = pattern_or();
    let dfa = DFA::from_nfa(&nfa.nfa);
    assert_same_alphabet(&dfa, &nfa);
    let expected = Matrix::from_rows(vec![
        vec![INVALID, 1, INVALID, 2, INVALID],
        vec![INVALID, INVALID, INVALID, INVALID, INVALID],
        vec![INVALID, INVALID, INVALID, INVALID, INVALID],
    ]);
    assert_same_matrix(&dfa, &expected);
}

#[test]
fn dfa_pattern_seq() {
    let nfa = pattern_seq();
    let dfa = DFA::from_nfa(&nfa.nfa);
    assert_same_alphabet(&dfa, &nfa);
    let expected = Matrix::from_rows(vec![
        vec![INVALID, 1, INVALID, INVALID, INVALID],
        vec![INVALID, INVALID, INVALID, 2, INVALID],
        vec![INVALID, INVALID, INVALID, INVALID, INVALID],
    ]);
    assert_same_matrix(&dfa, &expected);
}

#[test]
fn dfa_pattern_many() {
    let nfa = pattern_many();
    let dfa = DFA::from_nfa(&nfa.nfa);
    assert_same_alphabet(&dfa, &nfa);
    let expected = Matrix::from_rows(vec![
        vec![INVALID, 1, INVALID],
        vec![INVALID, 1, INVALID],
    ]);
    assert_same_matrix(&dfa, &expected);
}

#[test]
fn dfa_pattern_always() {
    let nfa = pattern_always();
    let dfa = DFA::from_nfa(&nfa.nfa);
    assert_same_alphabet(&dfa, &nfa);
    let expected = Matrix::from_rows(vec![vec![INVALID]]);
    assert_same_matrix(&dfa, &expected);
}

#[test]
fn dfa_pattern_never() {
    let nfa = pattern_never();
    let dfa = DFA::from_nfa(&nfa.nfa);
    assert_same_alphabet(&dfa, &nfa);
    let expected = Matrix::from_rows(vec![vec![INVALID]]);
    assert_same_matrix(&dfa, &expected);
}

#[test]
fn dfa_simple_rules() {
    let nfa = simple_rules();
    let dfa = DFA::from_nfa(&nfa.nfa);
    assert_same_alphabet(&dfa, &nfa);
    let expected = Matrix::from_rows(vec![
        vec![INVALID, 1, INVALID, INVALID],
        vec![INVALID, INVALID, 2, INVALID],
        vec![INVALID, INVALID, INVALID, INVALID],
    ]);
    assert_same_matrix(&dfa, &expected);
}

#[test]
fn dfa_complex_rules() {
    let nfa = complex_rules();
    let dfa = DFA::from_nfa(&nfa.nfa);
    assert_same_alphabet(&dfa, &nfa);
    let expected = Matrix::from_rows(vec![
        vec![1, 2, 1, 1, 1, 1, 3],
        vec![INVALID, INVALID, INVALID, INVALID, INVALID, INVALID, INVALID],
        vec![INVALID, INVALID, INVALID, 4, 5, INVALID, INVALID],
        vec![INVALID, INVALID, INVALID, INVALID, INVALID, INVALID, INVALID],
        vec![INVALID, INVALID, INVALID, 6, INVALID, INVALID, INVALID],
        vec![INVALID, INVALID, INVALID, INVALID, 7, INVALID, INVALID],
        vec![INVALID, INVALID, INVALID, 6, INVALID, INVALID, INVALID],
        vec![INVALID, INVALID, INVALID, INVALID, 7, INVALID, INVALID],
    ]);
    assert_same_matrix(&dfa, &expected);
}

#[test]
fn dfa_unnamed_states_bind_no_callbacks() {
    let nfa = pattern_range();
    let dfa = DFA::from_nfa(&nfa.nfa);
    for ix in 0..dfa.callbacks.len() {
        assert!(dfa.callbacks[ix].is_none());
        assert!(!dfa.has_rule_for(Identifier::new(ix)));
    }
}
