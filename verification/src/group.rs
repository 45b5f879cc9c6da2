//! Grouping of lexer rules: a registry of groups, each an ordered list of
//! rules with optional parent-group inheritance, and the conversion of a
//! group into its NFA.

use vstd::prelude::*;
use vstd::string::StringExecFns;

use std::collections::HashMap;

use crate::nfa::{eps_reach, NFA};
use crate::pattern::{list_divs, nullable, pattern_has_range, Pattern, PatternView};
use crate::state;

verus! {

/// A rule: a pattern paired with the callback payload to run when the
/// pattern matches.
#[derive(Debug, PartialEq)]
pub struct Rule {
    /// The pattern the rule matches.
    pub pattern: Pattern,
    /// The callback payload attached to the rule, an opaque string.
    pub callback: String,
}

/// The mathematical model of a rule: the pattern's model and the callback's
/// characters.
pub struct RuleView {
    /// The model of the pattern.
    pub pattern: PatternView,
    /// The characters of the callback payload.
    pub callback: Seq<char>,
}

impl View for Rule {
    type V = RuleView;

    open spec fn view(&self) -> RuleView {
        RuleView { pattern: self.pattern@, callback: self.callback@ }
    }
}

impl Rule {
    /// Creates a new rule.
    pub fn new(pattern: Pattern, callback: &str) -> (r: Rule)
        ensures
            r.pattern == pattern,
            r.callback@ == callback@,
    {
        Rule { pattern, callback: callback.to_owned() }
    }
}

impl Clone for Rule {
    /// A structural copy: the clone has the same view as the original.
    fn clone(&self) -> (r: Self)
        ensures
            r@ == self@,
    {
        Rule { pattern: self.pattern.clone(), callback: self.callback.clone() }
    }
}

/// The views of the rules in a sequence, in order.
pub open spec fn rule_views(rs: Seq<Rule>) -> Seq<RuleView> {
    Seq::new(rs.len(), |i: int| rs[i]@)
}

/// The patterns of the rule views, in order.
pub open spec fn rule_patterns(rvs: Seq<RuleView>) -> Seq<PatternView> {
    Seq::new(rvs.len(), |i: int| rvs[i].pattern)
}

/// Errors of the registry layer.
#[derive(Copy, Clone, Debug, PartialEq, Eq, Structural)]
pub enum GroupError {
    /// A group id outside the registry's range was given.
    UnknownGroup,
    /// Walking the parent links of a group revisited a group.
    CycleInParents,
}

/// Errors that can occur when querying callbacks for a DFA state.
#[derive(Copy, Clone, Debug, PartialEq, Eq, Structural)]
pub enum CallbackError {
    /// There are no available callbacks for this state.
    NoCallback,
    /// There is more than one callback available for this state.
    DuplicateCallbacks,
}

/// An identifier for a group: its position in the registry.
#[derive(Copy, Clone, Debug, PartialEq, Eq, Structural)]
pub struct Identifier(pub usize);

impl Default for Identifier {
    /// The identifier of the first group.
    fn default() -> (r: Identifier)
        ensures
            r.0 == 0,
    {
        Identifier(0)
    }
}

/// The decimal digit character for `d`.
pub open spec fn digit_char(d: nat) -> char {
    if d == 0 {
        '0'
    } else if d == 1 {
        '1'
    } else if d == 2 {
        '2'
    } else if d == 3 {
        '3'
    } else if d == 4 {
        '4'
    } else if d == 5 {
        '5'
    } else if d == 6 {
        '6'
    } else if d == 7 {
        '7'
    } else if d == 8 {
        '8'
    } else {
        '9'
    }
}

/// The decimal digits of `n`, most significant first.
pub open spec fn dec_digits(n: nat) -> Seq<char>
    decreases n,
{
    if n < 10 {
        seq![digit_char(n)]
    } else {
        dec_digits(n / 10).push(digit_char(n % 10))
    }
}

/// The canonical name of rule `ix` of group `gid`.
pub open spec fn spec_callback_name(gid: nat, ix: nat) -> Seq<char> {
    "group_"@ + dec_digits(gid) + "_rule_"@ + dec_digits(ix)
}

/// Appends the decimal digits of `n` to `out`.
fn push_decimal(out: &mut String, n: usize)
    ensures
        final(out)@ == old(out)@ + dec_digits(n as nat),
    decreases n,
{
    if n >= 10 {
        push_decimal(out, n / 10);
    }
    let ghost mid = out@;
    let d = n % 10;
    if d == 0 {
        out.append("0");
        proof {
            reveal_strlit("0");
        }
    } else if d == 1 {
        out.append("1");
        proof {
            reveal_strlit("1");
        }
    } else if d == 2 {
        out.append("2");
        proof {
            reveal_strlit("2");
        }
    } else if d == 3 {
        out.append("3");
        proof {
            reveal_strlit("3");
        }
    } else if d == 4 {
        out.append("4");
        proof {
            reveal_strlit("4");
        }
    } else if d == 5 {
        out.append("5");
        proof {
            reveal_strlit("5");
        }
    } else if d == 6 {
        out.append("6");
        proof {
            reveal_strlit("6");
        }
    } else if d == 7 {
        out.append("7");
        proof {
            reveal_strlit("7");
        }
    } else if d == 8 {
        out.append("8");
        proof {
            reveal_strlit("8");
        }
    } else {
        out.append("9");
        proof {
            reveal_strlit("9");
        }
    }
    proof {
        assert(out@ =~= mid + seq![digit_char((n % 10) as nat)]);
        if n >= 10 {
            assert(out@ =~= old(out)@ + dec_digits((n / 10) as nat).push(
                digit_char((n % 10) as nat),
            ));
        } else {
            assert(out@ =~= old(out)@ + seq![digit_char(n as nat)]);
        }
    }
}

/// A group: an ordered list of rules sharing an identifier, a display name,
/// and an optional parent group whose rules are inherited.
#[derive(Debug)]
pub struct Group {
    /// A unique identifier for the group: its index in the registry.
    pub id: Identifier,
    /// A name for the group, useful in debugging.
    pub name: String,
    /// The parent group from which rules are inherited.
    pub parent_index: Option<Identifier>,
    /// The rules of the group, in insertion order.
    pub rules: Vec<Rule>,
    /// The names for the user-defined states.
    pub state_names: HashMap<usize, String>,
    /// The callback functions for the user-defined states.
    pub state_callbacks: HashMap<usize, String>,
}

impl Group {
    /// Creates a new group.
    pub fn new(id: Identifier, name: &str, parent_index: Option<Identifier>) -> (r: Self)
        ensures
            r.id == id,
            r.name@ == name@,
            r.parent_index == parent_index,
            r.rules@.len() == 0,
            r.state_names@ == Map::<usize, String>::empty(),
            r.state_callbacks@ == Map::<usize, String>::empty(),
    {
        Group {
            id,
            name: name.to_owned(),
            parent_index,
            rules: Vec::new(),
            state_names: HashMap::new(),
            state_callbacks: HashMap::new(),
        }
    }

    /// Adds a rule to the group.
    pub fn add_rule(&mut self, rule: Rule)
        ensures
            final(self).rules@ == old(self).rules@.push(rule),
            final(self).id == old(self).id,
            final(self).name == old(self).name,
            final(self).parent_index == old(self).parent_index,
    {
        self.rules.push(rule)
    }

    /// Creates a new rule of the group from a pattern and a callback payload.
    pub fn create_rule(&mut self, pattern: &Pattern, code: &str)
        ensures
            final(self).rules@.len() == old(self).rules@.len() + 1,
            forall|i: int|
                0 <= i < old(self).rules@.len() ==> final(self).rules@[i] == old(self).rules@[i],
            final(self).rules@.last()@.pattern == pattern@,
            final(self).rules@.last()@.callback == code@,
            final(self).id == old(self).id,
            final(self).name == old(self).name,
            final(self).parent_index == old(self).parent_index,
    {
        let pattern_clone = pattern.clone();
        let rule = Rule::new(pattern_clone, code);
        self.rules.push(rule)
    }

    /// The canonical name for the rule at `rule_ix` of this group.
    pub fn callback_name(&self, rule_ix: usize) -> (r: String)
        ensures
            r@ == spec_callback_name(self.id.0 as nat, rule_ix as nat),
    {
        let mut out = String::new();
        out.append("group_");
        push_decimal(&mut out, self.id.0);
        out.append("_rule_");
        push_decimal(&mut out, rule_ix);
        proof {
            assert(out@ =~= spec_callback_name(self.id.0 as nat, rule_ix as nat));
        }
        out
    }
}


/// The rules a group exposes when active: its own rules followed by those of
/// its ancestors, walked through the parent links. A parent index outside the
/// registry is `UnknownGroup`; a walk that revisits the starting group, or
/// takes more steps than the registry has groups, is `CycleInParents`.
pub open spec fn inherited_rule_views(
    groups: Seq<Group>,
    start: int,
    cur: Option<Identifier>,
    acc: Seq<RuleView>,
    fuel: nat,
) -> Result<Seq<RuleView>, GroupError>
    decreases fuel,
{
    match cur {
        Option::None => Result::Ok(acc),
        Option::Some(p) => if !(p.0 < groups.len()) {
            Result::Err(GroupError::UnknownGroup)
        } else if p.0 == start {
            Result::Err(GroupError::CycleInParents)
        } else if fuel == 0 {
            Result::Err(GroupError::CycleInParents)
        } else {
            inherited_rule_views(
                groups,
                start,
                groups[p.0 as int].parent_index,
                acc + rule_views(groups[p.0 as int].rules@),
                (fuel - 1) as nat,
            )
        },
    }
}

/// The full set of rule views matchable for group `gid`, or the error of the
/// parent walk.
pub open spec fn rules_for_views(groups: Seq<Group>, gid: int) -> Result<
    Seq<RuleView>,
    GroupError,
> {
    inherited_rule_views(
        groups,
        gid,
        groups[gid].parent_index,
        rule_views(groups[gid].rules@),
        groups.len(),
    )
}

/// Clones every rule of a vector, preserving the views.
fn clone_rules(rs: &Vec<Rule>) -> (r: Vec<Rule>)
    ensures
        r@.len() == rs@.len(),
        forall|i: int| #![trigger r@[i]] 0 <= i < rs@.len() ==> r@[i]@ == rs@[i]@,
{
    let mut out: Vec<Rule> = Vec::new();
    let mut i: usize = 0;
    while i < rs.len()
        invariant
            i <= rs@.len(),
            out@.len() == i,
            forall|k: int| #![trigger out@[k]] 0 <= k < i ==> out@[k]@ == rs@[k]@,
        decreases rs@.len() - i,
    {
        let x = rs[i].clone();
        out.push(x);
        i += 1;
    }
    out
}

/// The group registry: the container of the lexer's groups, in insertion
/// order; a group's identifier is its index.
#[derive(Debug)]
pub struct Registry {
    /// The groups defined for the lexer.
    pub groups: Vec<Group>,
}

impl Default for Registry {
    /// An empty registry.
    fn default() -> (r: Registry)
        ensures
            r.groups@.len() == 0,
    {
        Registry { groups: Vec::new() }
    }
}

impl Registry {
    /// Generates the next group identifier for this registry.
    fn next_id(&self) -> (r: Identifier)
        ensures
            r.0 == self.groups@.len(),
    {
        let val = self.groups.len();
        Identifier(val)
    }

    /// Defines a new group of rules with the given name and parent, and
    /// returns its identifier: the next free index.
    pub fn define_group(&mut self, name: &str, parent_index: Option<Identifier>) -> (id: Identifier)
        ensures
            id.0 == old(self).groups@.len(),
            final(self).groups@.len() == old(self).groups@.len() + 1,
            forall|i: int|
                0 <= i < old(self).groups@.len() ==> final(self).groups@[i] == old(self).groups@[i],
            final(self).groups@.last().id == id,
            final(self).groups@.last().name@ == name@,
            final(self).groups@.last().parent_index == parent_index,
            final(self).groups@.last().rules@.len() == 0,
            final(self).groups@.last().state_names@ == Map::<usize, String>::empty(),
            final(self).groups@.last().state_callbacks@ == Map::<usize, String>::empty(),
    {
        let id = self.next_id();
        let group = Group::new(id, name, parent_index);
        self.groups.push(group);
        id
    }

    /// Adds an existing group to the registry, updating and returning its
    /// identifier.
    pub fn add_group(&mut self, group: Group) -> (new_id: Identifier)
        ensures
            new_id.0 == old(self).groups@.len(),
            final(self).groups@.len() == old(self).groups@.len() + 1,
            forall|i: int|
                0 <= i < old(self).groups@.len() ==> final(self).groups@[i] == old(self).groups@[i],
            final(self).groups@.last().id == new_id,
            final(self).groups@.last().name == group.name,
            final(self).groups@.last().parent_index == group.parent_index,
            final(self).groups@.last().rules == group.rules,
            final(self).groups@.last().state_names == group.state_names,
            final(self).groups@.last().state_callbacks == group.state_callbacks,
    {
        let new_id = self.next_id();
        let mut group = group;
        group.id = new_id;
        self.groups.push(group);
        new_id
    }

    /// Creates a rule matching `pattern` for the group `group`.
    pub fn create_rule(&mut self, group: Identifier, pattern: &Pattern, callback: &str)
        requires
            group.0 < old(self).groups@.len(),
        ensures
            final(self).groups@.len() == old(self).groups@.len(),
            forall|i: int|
                0 <= i < old(self).groups@.len() && i != group.0 ==> final(self).groups@[i] == old(
                    self,
                ).groups@[i],
            final(self).groups@[group.0 as int].rules@.len() == old(self).groups@[
                group.0 as int
            ].rules@.len() + 1,
            forall|i: int|
                0 <= i < old(self).groups@[group.0 as int].rules@.len() ==> final(self).groups@[
                    group.0 as int
                ].rules@[i] == old(self).groups@[group.0 as int].rules@[i],
            final(self).groups@[group.0 as int].rules@.last()@.pattern == pattern@,
            final(self).groups@[group.0 as int].rules@.last()@.callback == callback@,
            final(self).groups@[group.0 as int].id == old(self).groups@[group.0 as int].id,
            final(self).groups@[group.0 as int].name == old(self).groups@[group.0 as int].name,
            final(self).groups@[group.0 as int].parent_index == old(self).groups@[
                group.0 as int
            ].parent_index,
    {
        let id = group.0;
        let mut g = self.groups.remove(id);
        g.create_rule(pattern, callback);
        self.groups.insert(id, g);
        proof {
            assert forall|i: int|
                0 <= i < old(self).groups@.len() && i != id implies self.groups@[i] == old(
                self,
            ).groups@[i] by {
                if i > id {
                    assert(old(self).groups@.remove(id as int)[i - 1] == old(self).groups@[i]);
                }
            }
        }
    }

    /// Associates `rule` with the group `group`.
    pub fn add_rule(&mut self, group: Identifier, rule: Rule)
        requires
            group.0 < old(self).groups@.len(),
        ensures
            final(self).groups@.len() == old(self).groups@.len(),
            forall|i: int|
                0 <= i < old(self).groups@.len() && i != group.0 ==> final(self).groups@[i] == old(
                    self,
                ).groups@[i],
            final(self).groups@[group.0 as int].rules@ == old(self).groups@[
                group.0 as int
            ].rules@.push(rule),
            final(self).groups@[group.0 as int].id == old(self).groups@[group.0 as int].id,
            final(self).groups@[group.0 as int].name == old(self).groups@[group.0 as int].name,
            final(self).groups@[group.0 as int].parent_index == old(self).groups@[
                group.0 as int
            ].parent_index,
    {
        let id = group.0;
        let mut g = self.groups.remove(id);
        g.add_rule(rule);
        self.groups.insert(id, g);
        proof {
            assert forall|i: int|
                0 <= i < old(self).groups@.len() && i != id implies self.groups@[i] == old(
                self,
            ).groups@[i] by {
                if i > id {
                    assert(old(self).groups@.remove(id as int)[i - 1] == old(self).groups@[i]);
                }
            }
        }
    }

    /// A reference to the group with the given identifier.
    pub fn group(&self, group: Identifier) -> (r: &Group)
        requires
            group.0 < self.groups@.len(),
        ensures
            r == &self.groups@[group.0 as int],
    {
        &self.groups[group.0]
    }

    /// A mutable reference to the group with the given identifier.
    pub fn group_mut(&mut self, group: Identifier) -> (r: &mut Group)
        requires
            group.0 < old(self).groups@.len(),
        ensures
            *r == old(self).groups@[group.0 as int],
            final(self).groups@ == old(self).groups@.update(group.0 as int, *final(r)),
    {
        &mut self.groups[group.0]
    }

    /// The groups of the registry, in insertion order.
    pub fn all(&self) -> (r: &Vec<Group>)
        ensures
            r == &self.groups,
    {
        &self.groups
    }

    /// Collates every rule matchable while the group `group` is active: its
    /// own rules first, then the rules inherited from its ancestors.
    pub fn rules_for(&self, group: Identifier) -> (r: Result<Vec<Rule>, GroupError>)
        requires
            group.0 < self.groups@.len(),
        ensures
            r matches Ok(v) ==> rules_for_views(self.groups@, group.0 as int) == Result::<
                Seq<RuleView>,
                GroupError,
            >::Ok(rule_views(v@)),
            r matches Err(e) ==> rules_for_views(self.groups@, group.0 as int) == Result::<
                Seq<RuleView>,
                GroupError,
            >::Err(e),
    {
        let mut rules = clone_rules(&self.groups[group.0].rules);
        proof {
            assert(rule_views(rules@) =~= rule_views(self.groups@[group.0 as int].rules@));
        }
        let mut parent = self.groups[group.0].parent_index;
        let mut fuel = self.groups.len();
        loop
            invariant
                group.0 < self.groups@.len(),
                inherited_rule_views(
                    self.groups@,
                    group.0 as int,
                    parent,
                    rule_views(rules@),
                    fuel as nat,
                ) == rules_for_views(self.groups@, group.0 as int),
            decreases fuel,
        {
            match parent {
                None => {
                    return Ok(rules);
                },
                Some(p) => {
                    if p.0 >= self.groups.len() {
                        return Err(GroupError::UnknownGroup);
                    }
                    if p.0 == group.0 {
                        return Err(GroupError::CycleInParents);
                    }
                    if fuel == 0 {
                        return Err(GroupError::CycleInParents);
                    }
                    let ghost acc0 = rule_views(rules@);
                    let mut extra = clone_rules(&self.groups[p.0].rules);
                    rules.append(&mut extra);
                    proof {
                        assert(rule_views(rules@) =~= acc0 + rule_views(
                            self.groups@[p.0 as int].rules@,
                        ));
                    }
                    parent = self.groups[p.0].parent_index;
                    fuel = fuel - 1;
                },
            }
        }
    }

    /// Converts the group `group_id` into an NFA.
    ///
    /// The automaton's state 0 is the start. Each matchable rule, own rules
    /// first and inherited rules after, contributes a sub-automaton reachable
    /// from the start; its accepting state carries the rule's canonical name
    /// and callback payload and is linked to a shared end state. The errors
    /// are those of the parent walk.
    pub fn to_nfa_from(&self, group_id: Identifier) -> (r: Result<AutomatonData, GroupError>)
        requires
            group_id.0 < self.groups@.len(),
        ensures
            r matches Err(e) ==> rules_for_views(self.groups@, group_id.0 as int) == Result::<
                Seq<RuleView>,
                GroupError,
            >::Err(e),
            r matches Ok(data) ==> (rules_for_views(self.groups@, group_id.0 as int) matches Ok(
                rvs,
            ) && compiled_group(data, self.groups@[group_id.0 as int].id.0 as nat, rvs)),
    {
        let rules = match self.rules_for(group_id) {
            Ok(rs) => rs,
            Err(e) => {
                return Err(e);
            },
        };
        let ghost rvs = rule_views(rules@);
        let ghost gid = self.groups@[group_id.0 as int].id.0 as nat;
        let mut data = AutomatonData {
            automaton: NFA::default(),
            states: Vec::new(),
            transition_names: HashMap::new(),
            callback_code: HashMap::new(),
        };
        let start = data.automaton.new_state();
        data.add_public_state(start);
        let mut ends: Vec<state::Identifier> = Vec::new();
        let mut k: usize = 0;
        while k < rules.len()
            invariant
                rvs == rule_views(rules@),
                rvs.len() == rules@.len(),
                k <= rules@.len(),
                start.id == 0,
                data.automaton.wf(),
                data.automaton.states@.len() >= 1,
                ends@.len() == k,
                forall|q: int|
                    0 <= q < k ==> 1 <= (#[trigger] ends@[q]).id < data.automaton.states@.len(),
                forall|a: int, b: int| 0 <= a < b < k ==> ends@[a].id < ends@[b].id,
                forall|t: int|
                    0 <= t < data.automaton.states@.len() ==> (#[trigger] data.automaton.states@[
                        t
                    ]).name is None,
                forall|q: int|
                    0 <= q < k && nullable(rvs[q].pattern) ==> eps_reach(
                        data.automaton.states@,
                        0,
                        (#[trigger] ends@[q]).id as int,
                    ),
                forall|code: int|
                    data.automaton.alphabet_segmentation.contains_div(code) <==> (code == 0
                        || list_divs(rule_patterns(rvs).take(k as int)).contains(code)),
                data.states@.len() == 1,
                data.states@[0] == start,
                (forall|q: int|
                    0 <= q < rvs.len() ==> !pattern_has_range(#[trigger] rvs[q].pattern))
                    ==> forall|t: int|
                    0 <= t < data.automaton.states@.len() ==> (#[trigger] data.automaton.states@[
                        t
                    ]).links@.len() == 0,
            decreases rules@.len() - k,
        {
            proof {
                assert(rules@[k as int]@ == rvs[k as int]);
            }
            let ghost st_pre = data.automaton.states@;
            let e = data.automaton.new_pattern(start, &rules[k].pattern);
            let ghost ends_pre = ends@;
            ends.push(e);
            proof {
                crate::nfa::lemma_push_eps_extends(
                    st_pre,
                    data.automaton.states@,
                    0,
                    state::Identifier { id: st_pre.len() as usize },
                );
                assert forall|q: int|
                    0 <= q < k + 1 && nullable(rvs[q].pattern) implies eps_reach(
                    data.automaton.states@,
                    0,
                    (#[trigger] ends@[q]).id as int,
                ) by {
                    if q < k {
                        assert(ends@[q] == ends_pre[q]);
                        crate::nfa::lemma_eps_reach_mono(
                            st_pre,
                            data.automaton.states@,
                            0,
                            ends_pre[q].id as int,
                        );
                    } else {
                        assert(ends@[q] == e);
                        assert(rvs[q].pattern == rules@[q]@.pattern);
                    }
                }
                assert(rule_patterns(rvs).take(k + 1).drop_last() =~= rule_patterns(rvs).take(
                    k as int,
                ));
                assert(rule_patterns(rvs).take(k + 1).last() == rvs[k as int].pattern);
                assert(list_divs(rule_patterns(rvs).take(k + 1)) =~= list_divs(
                    rule_patterns(rvs).take(k as int),
                ).union(crate::pattern::pattern_divs(rvs[k as int].pattern)));
            }
            k += 1;
        }
        proof {
            assert(rule_patterns(rvs).take(rvs.len() as int) =~= rule_patterns(rvs));
        }
        let end = data.automaton.new_state();
        let mut k: usize = 0;
        while k < ends.len()
            invariant
                rvs == rule_views(rules@),
                rvs.len() == rules@.len(),
                ends@.len() == rvs.len(),
                k <= ends@.len(),
                start.id == 0,
                group_id.0 < self.groups@.len(),
                gid == self.groups@[group_id.0 as int].id.0 as nat,
                data.automaton.wf(),
                end.id == data.automaton.states@.len() - 1,
                forall|q: int|
                    0 <= q < ends@.len() ==> 1 <= (#[trigger] ends@[q]).id < end.id,
                forall|q: int|
                    0 <= q < k ==> crate::nfa::eps_step(
                        data.automaton.states@,
                        (#[trigger] ends@[q]).id as int,
                        end.id as int,
                    ),
                forall|a: int, b: int| 0 <= a < b < ends@.len() ==> ends@[a].id < ends@[b].id,
                data.states@.len() == k + 1,
                data.states@[0] == start,
                forall|q: int| 0 <= q < k ==> data.states@[q + 1] == ends@[q],
                forall|t: int|
                    0 <= t < data.automaton.states@.len() && (#[trigger] data.automaton.states@[
                        t
                    ]).name is Some ==> exists|q: int| 0 <= q < k && ends@[q].id == t,
                forall|q: int|
                    0 <= q < k ==> {
                        let e = (#[trigger] ends@[q]).id as int;
                        &&& (data.automaton.states@[e].name matches Some(nm) && nm@
                            == spec_callback_name(gid, q as nat))
                        &&& data.automaton.states@[e].callback@ == rvs[q].callback
                    },
                forall|q: int|
                    0 <= q < rvs.len() && nullable(rvs[q].pattern) ==> eps_reach(
                        data.automaton.states@,
                        0,
                        (#[trigger] ends@[q]).id as int,
                    ),
                forall|code: int|
                    data.automaton.alphabet_segmentation.contains_div(code) <==> (code == 0
                        || list_divs(rule_patterns(rvs)).contains(code)),
                (forall|q: int|
                    0 <= q < rvs.len() ==> !pattern_has_range(#[trigger] rvs[q].pattern))
                    ==> forall|t: int|
                    0 <= t < data.automaton.states@.len() ==> (#[trigger] data.automaton.states@[
                        t
                    ]).links@.len() == 0,
            decreases ends@.len() - k,
        {
            let e = ends[k];
            data.add_public_state(e);
            let nm = self.groups[group_id.0].callback_name(k);
            data.set_name(e.id, nm.as_str());
            data.set_code(e.id, rules[k].callback.as_str());
            let ghost st_pre = data.automaton.states@;
            data.automaton.connect(e, end);
            proof {
                crate::nfa::lemma_push_eps_extends(st_pre, data.automaton.states@, e.id as int, end);
                assert(rules@[k as int]@ == rvs[k as int]);
                assert forall|q: int|
                    0 <= q < k + 1 implies crate::nfa::eps_step(
                    data.automaton.states@,
                    (#[trigger] ends@[q]).id as int,
                    end.id as int,
                ) by {
                    if q < k {
                        crate::nfa::lemma_eps_step_mono(
                            st_pre,
                            data.automaton.states@,
                            ends@[q].id as int,
                            end.id as int,
                        );
                    } else {
                        let eps = data.automaton.states@[e.id as int].epsilon_links@;
                        assert(eps[eps.len() - 1].id == end.id);
                    }
                }
                assert forall|q: int|
                    0 <= q < rvs.len() && nullable(rvs[q].pattern) implies eps_reach(
                    data.automaton.states@,
                    0,
                    (#[trigger] ends@[q]).id as int,
                ) by {
                    crate::nfa::lemma_eps_reach_mono(
                        st_pre,
                        data.automaton.states@,
                        0,
                        ends@[q].id as int,
                    );
                }
            }
            k += 1;
        }
        data.add_public_state(end);
        proof {
            assert(data.states@.len() == rvs.len() + 2);
            assert forall|k2: int| 1 <= k2 <= rvs.len() implies {
                let e = (#[trigger] data.states@[k2]).id as int;
                &&& 0 <= e < data.automaton.states@.len()
                &&& (data.automaton.states@[e].name matches Some(nm) && nm@ == spec_callback_name(
                    gid,
                    (k2 - 1) as nat,
                ))
                &&& data.automaton.states@[e].callback@ == rvs[k2 - 1].callback
                &&& (nullable(rvs[k2 - 1].pattern) ==> eps_reach(data.automaton.states@, 0, e))
                &&& crate::nfa::eps_step(
                    data.automaton.states@,
                    e,
                    data.automaton.states@.len() - 1,
                )
            } by {
                assert(data.states@[k2] == ends@[k2 - 1]);
                assert(end.id == data.automaton.states@.len() - 1);
            }
            assert(data.states@.last() == end);
            assert forall|t: int|
                0 <= t < data.automaton.states@.len() && (#[trigger] data.automaton.states@[
                    t
                ]).name is Some implies exists|k2: int|
                1 <= k2 <= rvs.len() && data.states@[k2].id == t by {
                let q = choose|q: int| 0 <= q < ends@.len() && ends@[q].id == t;
                assert(data.states@[q + 1].id == t);
            }
        }
        Ok(data)
    }
}



/// What a compiled group guarantees: a well-formed automaton whose state 0 is
/// the start; the exposed states are the start, one named accepting state per
/// rule, and the shared end state, which is created last and which every
/// accepting state is epsilon-linked to; each accepting state carries the
/// rule's canonical name and callback; only accepting states are named; a
/// rule whose pattern matches the empty word has its accepting state in the
/// epsilon-closure of the start; and the alphabet holds exactly the division
/// points of the rules' ranges beside the always-present division 0.
pub open spec fn compiled_group(data: AutomatonData, gid: nat, rvs: Seq<RuleView>) -> bool {
    let st = data.automaton.states@;
    &&& data.automaton.wf()
    &&& st.len() >= 2
    &&& data.states@.len() == rvs.len() + 2
    &&& data.states@[0].id == 0
    &&& data.states@.last().id == st.len() - 1
    &&& forall|k: int|
        #![trigger data.states@[k]]
        1 <= k <= rvs.len() ==> {
            let e = data.states@[k].id as int;
            &&& 0 <= e < st.len()
            &&& (st[e].name matches Some(nm) && nm@ == spec_callback_name(gid, (k - 1) as nat))
            &&& st[e].callback@ == rvs[k - 1].callback
            &&& (nullable(rvs[k - 1].pattern) ==> eps_reach(st, 0, e))
            &&& crate::nfa::eps_step(st, e, st.len() - 1)
        }
    &&& forall|t: int|
        0 <= t < st.len() && (#[trigger] st[t]).name is Some ==> exists|k: int|
            1 <= k <= rvs.len() && data.states@[k].id == t
    &&& forall|code: int|
        data.automaton.alphabet_segmentation.contains_div(code) <==> (code == 0 || list_divs(
            rule_patterns(rvs),
        ).contains(code))
    &&& (forall|q: int| 0 <= q < rvs.len() ==> !pattern_has_range(#[trigger] rvs[q].pattern))
        ==> forall|t: int|
        0 <= t < st.len() ==> (#[trigger] st[t]).links@.len() == 0
}

/// A group whose rules' patterns hold no symbol range compiles to an
/// automaton without symbol transitions at all, so its DFA rejects every
/// symbol from its start row.
pub proof fn lemma_rangeless_group_is_linkless(data: AutomatonData, gid: nat, rvs: Seq<RuleView>)
    requires
        compiled_group(data, gid, rvs),
        forall|q: int| 0 <= q < rvs.len() ==> !pattern_has_range(#[trigger] rvs[q].pattern),
    ensures
        forall|t: int|
            0 <= t < data.automaton.states@.len() ==> (#[trigger] data.automaton.states@[
                t
            ]).links@.len() == 0,
{
}

/// For every compiled group, every rule whose pattern matches the empty word
/// has its named accepting state inside the epsilon-closure of the
/// automaton's start state.
pub proof fn lemma_empty_rule_accepted_from_start(
    data: AutomatonData,
    gid: nat,
    rvs: Seq<RuleView>,
    closures: Seq<Vec<state::Identifier>>,
    k: int,
)
    requires
        compiled_group(data, gid, rvs),
        closures.len() == data.automaton.states@.len(),
        forall|s: int, t: int|
            #![trigger crate::nfa::contains_id(closures[s]@, t)]
            0 <= s < closures.len() ==> (crate::nfa::contains_id(closures[s]@, t) <==> eps_reach(
                data.automaton.states@,
                s,
                t,
            )),
        1 <= k <= rvs.len(),
        nullable(rvs[k - 1].pattern),
    ensures
        crate::nfa::contains_id(closures[0]@, data.states@[k].id as int),
        data.automaton.states@[data.states@[k].id as int].name matches Some(nm) && nm@
            == spec_callback_name(gid, (k - 1) as nat),
{
    assert(eps_reach(data.automaton.states@, 0, data.states@[k].id as int));
}

/// The callback code of the first source state that has one, walking the
/// sources in order.
pub open spec fn first_code(m: Map<usize, String>, ss: Seq<state::Identifier>) -> Option<Seq<char>>
    decreases ss.len(),
{
    if ss.len() == 0 {
        Option::None
    } else if m.contains_key(ss[0].id) {
        Option::Some(m[ss[0].id]@)
    } else {
        first_code(m, ss.drop_first())
    }
}

/// Storage for a generated automaton and the auxiliary data code generation
/// needs: the states the caller exposed, and the name and callback code
/// recorded for each accepting state. The names and codes are kept both on
/// the automaton's states and in the lookup tables, which stay in step.
#[derive(Debug)]
pub struct AutomatonData {
    /// The non-deterministic automaton implementing the group of rules.
    pub automaton: NFA,
    /// The states explicitly exposed by the builder, in order: the start
    /// state, one accepting state per rule, and the shared end state.
    pub states: Vec<state::Identifier>,
    /// The names of callbacks, by state index.
    pub transition_names: HashMap<usize, String>,
    /// The code to execute on a callback, by state index.
    pub callback_code: HashMap<usize, String>,
}

impl AutomatonData {
    /// Sets the name of the state `state_id`, both on the state itself and
    /// in the name table.
    pub fn set_name(&mut self, state_id: usize, name: &str)
        requires
            state_id < old(self).automaton.states@.len(),
        ensures
            final(self).automaton.wf() <== old(self).automaton.wf(),
            final(self).automaton.states@.len() == old(self).automaton.states@.len(),
            final(self).automaton.alphabet_segmentation == old(self).automaton.alphabet_segmentation,
            forall|i: int|
                0 <= i < old(self).automaton.states@.len() && i != state_id ==> final(self).automaton.states@[i] == old(self).automaton.states@[i],
            final(self).automaton.states@[state_id as int].name matches Some(nm) && nm@ == name@,
            final(self).automaton.states@[state_id as int].epsilon_links == old(
                self,
            ).automaton.states@[state_id as int].epsilon_links,
            final(self).automaton.states@[state_id as int].links == old(self).automaton.states@[
                state_id as int
            ].links,
            final(self).automaton.states@[state_id as int].callback == old(self).automaton.states@[
                state_id as int
            ].callback,
            final(self).states == old(self).states,
            final(self).callback_code == old(self).callback_code,
            final(self).transition_names@.dom() == old(self).transition_names@.dom().insert(
                state_id,
            ),
            final(self).transition_names@[state_id]@ == name@,
            forall|k: usize|
                old(self).transition_names@.dom().contains(k) && k != state_id ==> final(self).transition_names@[k] == old(self).transition_names@[k],
    {
        self.transition_names.insert(state_id, name.to_owned());
        let mut st = self.automaton.states.remove(state_id);
        st.set_name(Some(name.to_owned()));
        self.automaton.states.insert(state_id, st);
        proof {
            assert forall|i: int|
                0 <= i < old(self).automaton.states@.len() && i != state_id implies self.automaton.states@[i]
                    == old(self).automaton.states@[i] by {
                if i > state_id {
                    assert(old(self).automaton.states@.remove(state_id as int)[i - 1] == old(
                        self,
                    ).automaton.states@[i]);
                }
            }
            if old(self).automaton.wf() {
                assert forall|i: int|
                    0 <= i < self.automaton.states@.len() implies (
                #[trigger] self.automaton.states@[i]).targets_within(
                    self.automaton.states@.len() as int,
                ) by {
                    assert(old(self).automaton.states@[i].targets_within(
                        old(self).automaton.states@.len() as int,
                    ));
                }
            }
        }
    }

    /// Sets the callback code of the state `state_id`, both on the state
    /// itself and in the code table.
    pub fn set_code(&mut self, state_id: usize, code: &str)
        requires
            state_id < old(self).automaton.states@.len(),
        ensures
            final(self).automaton.wf() <== old(self).automaton.wf(),
            final(self).automaton.states@.len() == old(self).automaton.states@.len(),
            final(self).automaton.alphabet_segmentation == old(self).automaton.alphabet_segmentation,
            forall|i: int|
                0 <= i < old(self).automaton.states@.len() && i != state_id ==> final(self).automaton.states@[i] == old(self).automaton.states@[i],
            final(self).automaton.states@[state_id as int].callback@ == code@,
            final(self).automaton.states@[state_id as int].epsilon_links == old(
                self,
            ).automaton.states@[state_id as int].epsilon_links,
            final(self).automaton.states@[state_id as int].links == old(self).automaton.states@[
                state_id as int
            ].links,
            final(self).automaton.states@[state_id as int].name == old(self).automaton.states@[
                state_id as int
            ].name,
            final(self).states == old(self).states,
            final(self).transition_names == old(self).transition_names,
            final(self).callback_code@.dom() == old(self).callback_code@.dom().insert(state_id),
            final(self).callback_code@[state_id]@ == code@,
            forall|k: usize|
                old(self).callback_code@.dom().contains(k) && k != state_id ==> final(self).callback_code@[k] == old(self).callback_code@[k],
    {
        self.callback_code.insert(state_id, code.to_owned());
        let mut st = self.automaton.states.remove(state_id);
        st.set_callback(code);
        self.automaton.states.insert(state_id, st);
        proof {
            assert forall|i: int|
                0 <= i < old(self).automaton.states@.len() && i != state_id implies self.automaton.states@[i]
                    == old(self).automaton.states@[i] by {
                if i > state_id {
                    assert(old(self).automaton.states@.remove(state_id as int)[i - 1] == old(
                        self,
                    ).automaton.states@[i]);
                }
            }
            if old(self).automaton.wf() {
                assert forall|i: int|
                    0 <= i < self.automaton.states@.len() implies (
                #[trigger] self.automaton.states@[i]).targets_within(
                    self.automaton.states@.len() as int,
                ) by {
                    assert(old(self).automaton.states@[i].targets_within(
                        old(self).automaton.states@.len() as int,
                    ));
                }
            }
        }
    }

    /// Records a state the caller exposes.
    pub fn add_public_state(&mut self, state: state::Identifier)
        ensures
            final(self).states@ == old(self).states@.push(state),
            final(self).automaton == old(self).automaton,
            final(self).transition_names == old(self).transition_names,
            final(self).callback_code == old(self).callback_code,
    {
        self.states.push(state);
    }

    /// The name recorded for `state_id`, if any.
    pub fn name(&self, state_id: usize) -> (r: Option<&str>)
        ensures
            r matches Some(s) ==> self.transition_names@.contains_key(state_id) && s@
                == self.transition_names@[state_id]@,
            r is None ==> !self.transition_names@.contains_key(state_id),
    {
        match self.transition_names.get(&state_id) {
            Some(s) => Some(s.as_str()),
            None => None,
        }
    }

    /// The callback code recorded for `state_id`, if any.
    pub fn code(&self, state_id: usize) -> (r: Option<&str>)
        ensures
            r matches Some(s) ==> self.callback_code@.contains_key(state_id) && s@
                == self.callback_code@[state_id]@,
            r is None ==> !self.callback_code@.contains_key(state_id),
    {
        match self.callback_code.get(&state_id) {
            Some(s) => Some(s.as_str()),
            None => None,
        }
    }

    /// The states the caller exposed.
    pub fn public_states(&self) -> (r: &Vec<state::Identifier>)
        ensures
            r == &self.states,
    {
        &self.states
    }

    /// The states of the automaton itself.
    pub fn states(&self) -> (r: &Vec<crate::state::State>)
        ensures
            r == &self.automaton.states,
    {
        &self.automaton.states
    }

    /// The recorded state names.
    pub fn names(&self) -> (r: &HashMap<usize, String>)
        ensures
            r == &self.transition_names,
    {
        &self.transition_names
    }

    /// The recorded callback codes.
    pub fn callbacks(&self) -> (r: &HashMap<usize, String>)
        ensures
            r == &self.callback_code,
    {
        &self.callback_code
    }

    /// The automaton itself.
    pub fn automaton(&self) -> (r: &NFA)
        ensures
            r == &self.automaton,
    {
        &self.automaton
    }

    /// The callback code of the first of `sources` that has one; `None` when
    /// none of them does.
    pub fn callback_for_state(&self, sources: &Vec<state::Identifier>) -> (r: Option<String>)
        ensures
            r matches Some(c) ==> first_code(self.callback_code@, sources@) matches Some(cv) && cv
                == c@,
            r is None ==> first_code(self.callback_code@, sources@) is None,
    {
        let mut k: usize = 0;
        proof {
            assert(sources@.skip(0) =~= sources@);
        }
        while k < sources.len()
            invariant
                k <= sources@.len(),
                first_code(self.callback_code@, sources@) == first_code(
                    self.callback_code@,
                    sources@.skip(k as int),
                ),
            decreases sources@.len() - k,
        {
            let sid = sources[k].id;
            proof {
                assert(sources@.skip(k as int)[0] == sources@[k as int]);
                assert(sources@.skip(k as int).drop_first() =~= sources@.skip(k + 1));
            }
            match self.callback_code.get(&sid) {
                Some(c) => {
                    return Some(c.clone());
                },
                None => {},
            }
            k += 1;
        }
        proof {
            assert(sources@.skip(sources@.len() as int).len() == 0);
        }
        None
    }
}

} // verus!
