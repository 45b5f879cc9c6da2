use flexer::nfa::NFA;
use flexer::pattern::Pattern;
use flexer::state::Identifier;
use flexer::symbol::{Symbol, SymbolRange};

pub struct NfaTest {
    pub nfa: NFA,
    pub start_state_id: Identifier,
    pub pattern_state_ids: Vec<Identifier>,
    pub end_state_id: Identifier,
}

impl NfaTest {
    pub fn make(patterns: Vec<Pattern>) -> Self {
        let mut nfa = NFA::default();
        let start_state_id = nfa.new_state();
        let mut pattern_state_ids = vec![];
        let end_state_id = nfa.new_state();
        for pattern in patterns {
            let id = nfa.new_pattern(start_state_id, &pattern);
            pattern_state_ids.push(id);
            nfa.connect(id, end_state_id);
        }
        Self { nfa, start_state_id, pattern_state_ids, end_state_id }
    }

    pub fn id(id: usize) -> Identifier {
        Identifier::new(id)
    }

    pub fn has_transition(&self, from: Symbol, to: Symbol, target: Identifier) -> bool {
        self.nfa.states.iter().fold(false, |l, r| {
            l || r
                .links()
                .iter()
                .find(|transition| {
                    transition.symbols == SymbolRange::new(from, to)
                        && transition.target_state == target
                })
                .is_some()
        })
    }

    pub fn has_epsilon(&self, from: Identifier, to: Identifier) -> bool {
        self.nfa.states.iter().enumerate().fold(false, |l, (ix, r)| {
            let state_has =
                ix == from.id && r.epsilon_links().iter().find(|ident| **ident == to).is_some();
            l || state_has
        })
    }
}

pub fn pattern_range() -> NfaTest {
    let pattern = Pattern::range('a', 'z');
    NfaTest::make(vec![pattern])
}

pub fn pattern_or() -> NfaTest {
    let pattern = Pattern::char('a') | Pattern::char('d');
    NfaTest::make(vec![pattern])
}

pub fn pattern_seq() -> NfaTest {
    let pattern = Pattern::char('a') >> Pattern::char('d');
    NfaTest::make(vec![pattern])
}

pub fn pattern_many() -> NfaTest {
    let pattern = Pattern::char('a').many();
    NfaTest::make(vec![pattern])
}

pub fn pattern_always() -> NfaTest {
    let pattern = Pattern::always();
    NfaTest::make(vec![pattern])
}

pub fn pattern_never() -> NfaTest {
    let pattern = Pattern::never();
    NfaTest::make(vec![pattern])
}

pub fn simple_rules() -> NfaTest {
    let a = Pattern::char('a');
    let b = Pattern::char('b');
    let ab = &a >> &b;
    NfaTest::make(vec![a, ab])
}

pub fn complex_rules() -> NfaTest {
    let a_word = Pattern::char('a').many1();
    let b_word = Pattern::char('b').many1();
    let space = Pattern::char(' ');
    let spaced_a_word = &space >> &a_word;
    let spaced_b_word = &space >> &b_word;
    let any = Pattern::any();
    let end = Pattern::eof();
    NfaTest::make(vec![spaced_a_word, spaced_b_word, end, any])
}

fn divisions_contain(nfa: &NfaTest, code: u32) -> bool {
    nfa.nfa.alphabet_segmentation.divisions().contains(&Symbol::from(code))
}

#[test]
fn nfa_pattern_range() {
    let nfa = pattern_range();

    assert!(divisions_contain(&nfa, 0));
    assert!(divisions_contain(&nfa, 97));
    assert!(divisions_contain(&nfa, 123));
    assert_eq!(nfa.nfa.states.len(), 4);
    assert!(nfa.has_epsilon(nfa.start_state_id, NfaTest::id(2)));
    assert!(nfa.has_epsilon(nfa.pattern_state_ids[0], nfa.end_state_id));
    assert!(nfa.has_transition(Symbol::from('a'), Symbol::from('z'), nfa.pattern_state_ids[0]));
}

#[test]
fn nfa_pattern_or() {
    let nfa = pattern_or();

    assert!(divisions_contain(&nfa, 0));
    assert!(divisions_contain(&nfa, 97));
    assert!(divisions_contain(&nfa, 98));
    assert!(divisions_contain(&nfa, 100));
    assert!(divisions_contain(&nfa, 101));
    assert_eq!(nfa.nfa.states.len(), 8);
    assert!(nfa.has_epsilon(nfa.start_state_id, NfaTest::id(2)));
    assert!(nfa.has_epsilon(NfaTest::id(2), NfaTest::id(3)));
    assert!(nfa.has_epsilon(NfaTest::id(2), NfaTest::id(5)));
    assert!(nfa.has_epsilon(NfaTest::id(6), nfa.pattern_state_ids[0]));
    assert!(nfa.has_epsilon(NfaTest::id(4), nfa.pattern_state_ids[0]));
    assert!(nfa.has_epsilon(nfa.pattern_state_ids[0], nfa.end_state_id));
    assert!(nfa.has_transition(Symbol::from('a'), Symbol::from('a'), NfaTest::id(4)));
    assert!(nfa.has_transition(Symbol::from('d'), Symbol::from('d'), NfaTest::id(6)));
}

#[test]
fn nfa_pattern_seq() {
    let nfa = pattern_seq();

    assert!(divisions_contain(&nfa, 0));
    assert!(divisions_contain(&nfa, 97));
    assert!(divisions_contain(&nfa, 98));
    assert!(divisions_contain(&nfa, 100));
    assert!(divisions_contain(&nfa, 101));
    assert_eq!(nfa.nfa.states.len(), 7);
    assert!(nfa.has_epsilon(nfa.start_state_id, NfaTest::id(2)));
    assert!(nfa.has_epsilon(NfaTest::id(2), NfaTest::id(3)));
    assert!(nfa.has_epsilon(NfaTest::id(4), NfaTest::id(5)));
    assert!(nfa.has_epsilon(nfa.pattern_state_ids[0], nfa.end_state_id));
    assert!(nfa.has_transition(Symbol::from('a'), Symbol::from('a'), NfaTest::id(4)));
    assert!(nfa.has_transition(Symbol::from('d'), Symbol::from('d'), NfaTest::id(6)));
}

#[test]
fn nfa_pattern_many() {
    let nfa = pattern_many();

    assert!(divisions_contain(&nfa, 0));
    assert!(divisions_contain(&nfa, 97));
    assert!(divisions_contain(&nfa, 98));
    assert_eq!(nfa.nfa.states.len(), 7);
    assert!(nfa.has_epsilon(nfa.start_state_id, NfaTest::id(2)));
    assert!(nfa.has_epsilon(NfaTest::id(2), NfaTest::id(3)));
    assert!(nfa.has_epsilon(NfaTest::id(3), NfaTest::id(4)));
    assert!(nfa.has_epsilon(NfaTest::id(5), nfa.pattern_state_ids[0]));
    assert!(nfa.has_epsilon(nfa.pattern_state_ids[0], NfaTest::id(3)));
    assert!(nfa.has_epsilon(nfa.pattern_state_ids[0], nfa.end_state_id));
    assert!(nfa.has_transition(Symbol::from('a'), Symbol::from('a'), NfaTest::id(5)));
}

#[test]
fn nfa_pattern_always() {
    let nfa = pattern_always();

    assert!(divisions_contain(&nfa, 0));
    assert_eq!(nfa.nfa.states.len(), 3);
    assert!(nfa.has_epsilon(nfa.start_state_id, nfa.pattern_state_ids[0]));
    assert!(nfa.has_epsilon(nfa.pattern_state_ids[0], nfa.end_state_id));
}

#[test]
fn nfa_pattern_never() {
    let nfa = pattern_never();

    assert!(divisions_contain(&nfa, 0));
    assert_eq!(nfa.nfa.states.len(), 4);
    assert!(nfa.has_epsilon(nfa.start_state_id, NfaTest::id(2)));
    assert!(nfa.has_epsilon(NfaTest::id(3), nfa.end_state_id));
}

#[test]
fn nfa_simple_rules() {
    let nfa = simple_rules();

    assert!(divisions_contain(&nfa, 0));
    assert!(divisions_contain(&nfa, 97));
    assert!(divisions_contain(&nfa, 98));
    assert!(divisions_contain(&nfa, 99));
    assert_eq!(nfa.nfa.states.len(), 9);
    assert!(nfa.has_epsilon(nfa.start_state_id, NfaTest::id(2)));
    assert!(nfa.has_epsilon(nfa.start_state_id, NfaTest::id(4)));
    assert!(nfa.has_epsilon(nfa.pattern_state_ids[0], nfa.end_state_id));
    assert!(nfa.has_epsilon(NfaTest::id(4), NfaTest::id(5)));
    assert!(nfa.has_epsilon(NfaTest::id(6), NfaTest::id(7)));
    assert!(nfa.has_epsilon(nfa.pattern_state_ids[1], nfa.end_state_id));
    assert!(nfa.has_transition(Symbol::from('a'), Symbol::from('a'), nfa.pattern_state_ids[0]));
    assert!(nfa.has_transition(Symbol::from('a'), Symbol::from('a'), NfaTest::id(6)));
    assert!(nfa.has_transition(Symbol::from('b'), Symbol::from('b'), nfa.pattern_state_ids[1]));
}

#[test]
fn nfa_complex_rules() {
    let nfa = complex_rules();

    assert!(divisions_contain(&nfa, 0));
    assert!(divisions_contain(&nfa, 32));
    assert!(divisions_contain(&nfa, 33));
    assert!(divisions_contain(&nfa, 97));
    assert!(divisions_contain(&nfa, 98));
    assert!(divisions_contain(&nfa, 99));
    assert!(nfa.nfa.alphabet_segmentation.divisions().contains(&Symbol::eof_code()));
    assert_eq!(nfa.nfa.states.len(), 26);
    assert!(nfa.has_transition(Symbol::from(' '), Symbol::from(' '), NfaTest::id(4)));
    assert!(nfa.has_transition(Symbol::from('a'), Symbol::from('a'), NfaTest::id(6)));
    assert!(nfa.has_transition(Symbol::from('a'), Symbol::from('a'), NfaTest::id(10)));
    assert!(nfa.has_transition(Symbol::from(' '), Symbol::from(' '), NfaTest::id(14)));
    assert!(nfa.has_transition(Symbol::from('b'), Symbol::from('b'), NfaTest::id(16)));
    assert!(nfa.has_transition(Symbol::from('b'), Symbol::from('b'), NfaTest::id(20)));
    assert!(nfa.has_transition(Symbol::eof_code(), Symbol::eof_code(), nfa.pattern_state_ids[2]));
    assert!(nfa.has_transition(Symbol::null(), Symbol::eof_code(), nfa.pattern_state_ids[3]));
}

#[test]
fn eps_closures_follow_epsilon_links() {
    let mut nfa = NFA::default();
    let s0 = nfa.new_state();
    let s1 = nfa.new_state();
    let s2 = nfa.new_state();
    nfa.connect(s0, s1);
    nfa.connect(s1, s2);
    let closures = nfa.eps_matrix();
    assert_eq!(closures.len(), 3);
    assert_eq!(closures[0], vec![s0, s1, s2]);
    assert_eq!(closures[1], vec![s1, s2]);
    assert_eq!(closures[2], vec![s2]);
}

#[test]
fn eps_closures_handle_cycles() {
    let mut nfa = NFA::default();
    let s0 = nfa.new_state();
    let s1 = nfa.new_state();
    let s2 = nfa.new_state();
    nfa.connect(s0, s1);
    nfa.connect(s1, s0);
    nfa.connect(s0, s2);
    let closures = nfa.eps_matrix();
    assert_eq!(closures[0], vec![s0, s1, s2]);
    assert_eq!(closures[1], vec![s0, s1, s2]);
    assert_eq!(closures[2], vec![s2]);
}

#[test]
fn nfa_matrix_snapshots_direct_transitions() {
    let mut nfa = NFA::default();
    let s0 = nfa.new_state();
    let s1 = nfa.new_state();
    nfa.connect_via(s0, s1, &SymbolRange::new(Symbol::from(5), Symbol::from(10)));
    let matrix = nfa.nfa_matrix();
    assert_eq!(matrix.rows(), 2);
    assert_eq!(matrix.cols, 3);
    // Divisions are {0, 5, 11}: only the class starting at 5 is covered.
    assert_eq!(matrix.get(0, 0), Identifier::invalid());
    assert_eq!(matrix.get(0, 1), s1);
    assert_eq!(matrix.get(0, 2), Identifier::invalid());
    assert_eq!(matrix.get(1, 0), Identifier::invalid());
}
