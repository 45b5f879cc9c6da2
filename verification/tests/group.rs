use flexer::group::{CallbackError, Group, GroupError, Identifier, Registry, Rule};
use flexer::pattern::Pattern;

#[test]
fn define_group_assigns_sequential_ids() {
    let mut registry = Registry::default();
    let first = registry.define_group("root", None);
    let second = registry.define_group("strings", Some(first));
    assert_eq!(first, Identifier(0));
    assert_eq!(second, Identifier(1));
    assert_eq!(registry.all().len(), 2);
    assert_eq!(registry.group(second).parent_index, Some(first));
}

#[test]
fn add_group_updates_id() {
    let mut registry = Registry::default();
    registry.define_group("root", None);
    let group = Group::new(Identifier(7), "imported", None);
    let id = registry.add_group(group);
    assert_eq!(id, Identifier(1));
    assert_eq!(registry.group(id).id, Identifier(1));
    assert_eq!(registry.group(id).name, "imported".to_string());
}

#[test]
fn callback_name_format() {
    let group = Group::new(Identifier(0), "root", None);
    assert_eq!(group.callback_name(0), "group_0_rule_0".to_string());
    let other = Group::new(Identifier(12), "other", None);
    assert_eq!(other.callback_name(345), "group_12_rule_345".to_string());
}

#[test]
fn rules_for_prefers_own_rules_over_inherited() {
    let mut registry = Registry::default();
    let parent = registry.define_group("parent", None);
    let child = registry.define_group("child", Some(parent));
    registry.create_rule(parent, &Pattern::char('p'), "parent_cb");
    registry.create_rule(child, &Pattern::char('c'), "child_cb");
    let rules = registry.rules_for(child).unwrap();
    assert_eq!(rules.len(), 2);
    assert_eq!(rules[0].callback, "child_cb".to_string());
    assert_eq!(rules[1].callback, "parent_cb".to_string());
}

#[test]
fn rules_for_detects_self_cycle() {
    let mut registry = Registry::default();
    let root = registry.define_group("root", None);
    registry.group_mut(root).parent_index = Some(root);
    assert_eq!(registry.rules_for(root), Err(GroupError::CycleInParents));
}

#[test]
fn rules_for_detects_mutual_cycle() {
    let mut registry = Registry::default();
    let a = registry.define_group("a", None);
    let b = registry.define_group("b", Some(a));
    registry.group_mut(a).parent_index = Some(b);
    assert_eq!(registry.rules_for(a), Err(GroupError::CycleInParents));
}

#[test]
fn rules_for_rejects_unknown_parent() {
    let mut registry = Registry::default();
    let root = registry.define_group("root", Some(Identifier(99)));
    assert_eq!(registry.rules_for(root), Err(GroupError::UnknownGroup));
}

#[test]
fn group_mut_allows_renaming() {
    let mut registry = Registry::default();
    let root = registry.define_group("root", None);
    registry.group_mut(root).name = "renamed".to_string();
    assert_eq!(registry.group(root).name, "renamed".to_string());
}

#[test]
fn add_rule_keeps_order() {
    let mut registry = Registry::default();
    let root = registry.define_group("root", None);
    registry.add_rule(root, Rule::new(Pattern::char('x'), "x_cb"));
    registry.add_rule(root, Rule::new(Pattern::char('y'), "y_cb"));
    let rules = registry.rules_for(root).unwrap();
    assert_eq!(rules[0].callback, "x_cb".to_string());
    assert_eq!(rules[1].callback, "y_cb".to_string());
}

#[test]
fn to_nfa_names_accepting_states() {
    let mut registry = Registry::default();
    let root = registry.define_group("root", None);
    registry.create_rule(root, &Pattern::char('a'), "first_cb");
    registry.create_rule(root, &Pattern::char('b'), "second_cb");
    let data = registry.to_nfa_from(root).unwrap();
    let public = data.public_states();
    assert_eq!(public.len(), 4);
    assert_eq!(public[0].id, 0);
    let first_accept = public[1].id;
    let second_accept = public[2].id;
    assert_eq!(data.name(first_accept), Some("group_0_rule_0"));
    assert_eq!(data.name(second_accept), Some("group_0_rule_1"));
    assert_eq!(data.code(first_accept), Some("first_cb"));
    assert_eq!(data.code(second_accept), Some("second_cb"));
    assert_eq!(data.name(0), None);
    assert_eq!(
        data.states()[first_accept].name(),
        &Some("group_0_rule_0".to_string())
    );
    assert_eq!(data.states()[first_accept].callback(), &"first_cb".to_string());
}

#[test]
fn to_nfa_propagates_cycle_error() {
    let mut registry = Registry::default();
    let root = registry.define_group("root", None);
    registry.group_mut(root).parent_index = Some(root);
    assert!(matches!(registry.to_nfa_from(root), Err(GroupError::CycleInParents)));
}

#[test]
fn callback_for_state_takes_first_code() {
    let mut registry = Registry::default();
    let root = registry.define_group("root", None);
    registry.create_rule(root, &Pattern::char('a'), "a_cb");
    registry.create_rule(root, &Pattern::char('b'), "b_cb");
    let data = registry.to_nfa_from(root).unwrap();
    let public = data.public_states().clone();
    let accepts = vec![public[0], public[1], public[2]];
    assert_eq!(data.callback_for_state(&accepts), Some("a_cb".to_string()));
    let only_second = vec![public[2]];
    assert_eq!(data.callback_for_state(&only_second), Some("b_cb".to_string()));
    let none = vec![public[0], public[3]];
    assert_eq!(data.callback_for_state(&none), None);
}

#[test]
fn callback_errors_are_distinct() {
    assert_ne!(CallbackError::NoCallback, CallbackError::DuplicateCallbacks);
}
