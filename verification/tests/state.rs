use flexer::alphabet::Segmentation;
use flexer::state::{Identifier, Link, State};

#[test]
fn default_identifier_invalid() {
    assert_eq!(Identifier::default(), Identifier::invalid());
}

#[test]
fn state_default() {
    let state = State::default();
    assert!(state.epsilon_links().is_empty());
    assert!(state.links().is_empty());
    assert!(state.name().is_none());
    assert_eq!(state.callback(), &("".to_string()));
}

#[test]
fn state_named() {
    let state = State::default();
    let named = state.named("Foo");
    assert_eq!(named.name(), &Some("Foo".to_string()));
}

#[test]
fn state_targets() {
    let alphabet = Segmentation::from_divisions(&[0, 5, 10, 15, 25, 50]);
    let state = State::from(vec![Link::new(0, 10, 1), Link::new(5, 15, 2)]);
    let targets = state.targets(&alphabet);
    let expected_targets: Vec<Identifier> = vec![
        Identifier::new(1),
        Identifier::new(1),
        Identifier::new(1),
        Identifier::new(2),
        Identifier::invalid(),
        Identifier::invalid(),
    ];
    assert_eq!(expected_targets, targets);
}

#[test]
fn state_from_epsilon_link_ids() {
    let state = State::from(vec![3usize, 7]);
    assert_eq!(state.epsilon_links().len(), 2);
    assert_eq!(state.epsilon_links()[0], Identifier::new(3));
    assert_eq!(state.epsilon_links()[1], Identifier::new(7));
    assert!(state.links().is_empty());
}
