//! States of a nondeterministic finite automaton: epsilon links, symbol-range
//! transitions, and the optional rule name and callback payload carried by
//! accepting states.

use vstd::prelude::*;

use crate::alphabet::Segmentation;
use crate::symbol::SymbolRange;

verus! {

/// The id of the invalid state: the value a transition-matrix cell holds when
/// the automaton rejects.
pub const INVALID_ID: usize = usize::MAX;

/// A state identifier for a finite automaton: an index into the automaton's
/// state vector.
#[derive(Clone, Copy, Debug, PartialEq, Eq, Structural, Hash)]
pub struct Identifier {
    /// The index of the state.
    pub id: usize,
}

impl Identifier {
    /// Constructs a new state identifier.
    pub fn new(id: usize) -> (r: Identifier)
        ensures
            r.id == id,
    {
        Identifier { id }
    }

    /// The identifier of the invalid state, on which a finite automaton
    /// rejects its input.
    pub fn invalid() -> (r: Identifier)
        ensures
            r.id == INVALID_ID,
    {
        Identifier { id: INVALID_ID }
    }
}

impl Default for Identifier {
    /// The default identifier is the invalid state: every cell of a
    /// transition matrix rejects until a transition is written into it.
    fn default() -> (r: Identifier)
        ensures
            r.id == INVALID_ID,
    {
        Identifier { id: INVALID_ID }
    }
}

impl From<usize> for Identifier {
    fn from(id: usize) -> (r: Identifier)
        ensures
            r.id == id,
    {
        Identifier { id }
    }
}

impl vstd::std_specs::convert::FromSpecImpl<usize> for Identifier {
    open spec fn obeys_from_spec() -> bool {
        true
    }

    open spec fn from_spec(id: usize) -> Identifier {
        Identifier { id }
    }
}

/// A transition between states that consumes one symbol from a range.
#[derive(Clone, Copy, Debug, PartialEq, Eq, Structural)]
pub struct Transition {
    /// The range of symbols on which the transition triggers.
    pub symbols: SymbolRange,
    /// The state entered when the transition triggers.
    pub target_state: Identifier,
}

impl Transition {
    /// Constructs a new transition.
    pub fn new(symbols: SymbolRange, target_state: Identifier) -> (r: Transition)
        ensures
            r.symbols == symbols,
            r.target_state == target_state,
    {
        Transition { symbols, target_state }
    }
}

/// A plain description of a link: a code range and the index of its target.
#[derive(Clone, Copy, Debug, PartialEq, Eq, Structural)]
pub struct Link {
    /// The first code on which the link triggers.
    pub start: u32,
    /// The last code on which the link triggers.
    pub end: u32,
    /// The index of the target state.
    pub target_id: usize,
}

impl Link {
    /// Constructs a new link covering the codes from `start` to `end`.
    pub fn new(start: u32, end: u32, target_id: usize) -> (r: Link)
        ensures
            r.start == start,
            r.end == end,
            r.target_id == target_id,
    {
        Link { start, end, target_id }
    }
}

/// Among the transitions of `links`, the one that claims the code: the
/// covering transition with the lowest range start, ties resolved in favour
/// of the earliest transition.
pub open spec fn chosen_link(links: Seq<Transition>, code: int) -> Option<Transition>
    decreases links.len(),
{
    if links.len() == 0 {
        None
    } else {
        let rest = chosen_link(links.drop_last(), code);
        let l = links.last();
        if l.symbols.spec_contains(code) {
            match rest {
                Option::None => Option::Some(l),
                Option::Some(b) => if l.symbols.start.value < b.symbols.start.value {
                    Option::Some(l)
                } else {
                    Option::Some(b)
                },
            }
        } else {
            rest
        }
    }
}

/// A chosen link covers its code; where none is chosen, none covers it.
pub proof fn lemma_chosen_link(links: Seq<Transition>, code: int)
    ensures
        chosen_link(links, code) matches Some(t) ==> links.contains(t) && t.symbols.spec_contains(
            code,
        ),
        chosen_link(links, code) is None ==> forall|i: int|
            0 <= i < links.len() ==> !(#[trigger] links[i].symbols).spec_contains(code),
    decreases links.len(),
{
    if links.len() > 0 {
        lemma_chosen_link(links.drop_last(), code);
        match chosen_link(links.drop_last(), code) {
            Option::Some(b) => {
                assert(links.drop_last().contains(b));
                let i = choose|i: int| 0 <= i < links.len() - 1 && links.drop_last()[i] == b;
                assert(links[i] == b);
                assert(links.contains(b));
            },
            Option::None => {},
        }
        if chosen_link(links, code) is None {
            assert forall|i: int|
                0 <= i < links.len() implies !(#[trigger] links[i].symbols).spec_contains(
                code,
            ) by {
                if i < links.len() - 1 {
                    assert(links.drop_last()[i] == links[i]);
                }
            }
        }
    }
}

/// A state of an NFA.
#[derive(Clone, Debug, PartialEq, Eq)]
pub struct State {
    /// Transitions that trigger without consuming a symbol.
    pub epsilon_links: Vec<Identifier>,
    /// Transitions that trigger while consuming a symbol of a range.
    pub links: Vec<Transition>,
    /// The name of the state; only accepting states that identify a rule are
    /// named.
    pub name: Option<String>,
    /// The callback payload attached to the state.
    pub callback: String,
}

impl Default for State {
    /// A fresh state: no links, no name, an empty callback.
    fn default() -> (r: State)
        ensures
            r.epsilon_links@.len() == 0,
            r.links@.len() == 0,
            r.name is None,
            r.callback@.len() == 0,
    {
        State { epsilon_links: Vec::new(), links: Vec::new(), name: None, callback: String::new() }
    }
}

impl State {
    /// Every link of this state, epsilon or not, targets a state index
    /// below `n`.
    pub open spec fn targets_within(self, n: int) -> bool {
        &&& forall|j: int|
            0 <= j < self.epsilon_links@.len() ==> (#[trigger] self.epsilon_links@[j]).id < n
        &&& forall|j: int|
            0 <= j < self.links@.len() ==> (#[trigger] self.links@[j]).target_state.id < n
    }

    /// This state with its name set to `name`.
    pub fn named(self, name: &str) -> (r: Self)
        ensures
            r.name matches Some(n) && n@ == name@,
            r.epsilon_links == self.epsilon_links,
            r.links == self.links,
            r.callback == self.callback,
    {
        State { name: Some(name.to_owned()), ..self }
    }

    /// Appends `link` to this state's transitions.
    pub fn add_link(&mut self, link: Transition)
        ensures
            final(self).links@ == old(self).links@.push(link),
            final(self).epsilon_links == old(self).epsilon_links,
            final(self).name == old(self).name,
            final(self).callback == old(self).callback,
    {
        self.links.push(link);
    }

    /// Appends an epsilon link to `identifier` to this state.
    pub fn add_epsilon_link(&mut self, identifier: Identifier)
        ensures
            final(self).epsilon_links@ == old(self).epsilon_links@.push(identifier),
            final(self).links == old(self).links,
            final(self).name == old(self).name,
            final(self).callback == old(self).callback,
    {
        self.epsilon_links.push(identifier);
    }

    /// Sets the name of this state.
    pub fn set_name(&mut self, name: Option<String>)
        ensures
            final(self).name == name,
            final(self).epsilon_links == old(self).epsilon_links,
            final(self).links == old(self).links,
            final(self).callback == old(self).callback,
    {
        self.name = name;
    }

    /// Sets the callback payload of this state.
    pub fn set_callback(&mut self, callback: &str)
        ensures
            final(self).callback@ == callback@,
            final(self).epsilon_links == old(self).epsilon_links,
            final(self).links == old(self).links,
            final(self).name == old(self).name,
    {
        self.callback = callback.to_owned();
    }

    /// The transitions of this state.
    pub fn links(&self) -> (r: &Vec<Transition>)
        ensures
            r == &self.links,
    {
        &self.links
    }

    /// The epsilon links of this state.
    pub fn epsilon_links(&self) -> (r: &Vec<Identifier>)
        ensures
            r == &self.epsilon_links,
    {
        &self.epsilon_links
    }

    /// The name of this state.
    pub fn name(&self) -> (r: &Option<String>)
        ensures
            r == &self.name,
    {
        &self.name
    }

    /// The callback payload of this state.
    pub fn callback(&self) -> (r: &String)
        ensures
            r == &self.callback,
    {
        &self.callback
    }

    /// The target claimed by each division of the alphabet: for every
    /// division point, the target of the covering transition with the lowest
    /// range start, or the invalid state where no transition covers it.
    pub fn targets(&self, alphabet: &Segmentation) -> (r: Vec<Identifier>)
        ensures
            r@.len() == alphabet.divisions@.len(),
            forall|j: int|
                0 <= j < r@.len() ==> r@[j] == (match chosen_link(
                    self.links@,
                    alphabet.divisions@[j].value as int,
                ) {
                    Option::Some(t) => t.target_state,
                    Option::None => Identifier { id: INVALID_ID },
                }),
    {
        let mut out: Vec<Identifier> = Vec::new();
        let mut j: usize = 0;
        while j < alphabet.divisions.len()
            invariant
                j <= alphabet.divisions@.len(),
                out@.len() == j,
                forall|q: int|
                    0 <= q < j ==> out@[q] == (match chosen_link(
                        self.links@,
                        alphabet.divisions@[q].value as int,
                    ) {
                        Option::Some(t) => t.target_state,
                        Option::None => Identifier { id: INVALID_ID },
                    }),
            decreases alphabet.divisions@.len() - j,
        {
            let code = alphabet.divisions[j].value;
            let mut best: Option<Transition> = None;
            let mut m: usize = 0;
            while m < self.links.len()
                invariant
                    m <= self.links@.len(),
                    best == chosen_link(self.links@.take(m as int), code as int),
                decreases self.links@.len() - m,
            {
                let l = self.links[m];
                proof {
                    assert(self.links@.take(m + 1).drop_last() =~= self.links@.take(m as int));
                    assert(self.links@.take(m + 1).last() == self.links@[m as int]);
                }
                if l.symbols.start.value <= code && code <= l.symbols.end.value {
                    best = match best {
                        None => Some(l),
                        Some(b) => if l.symbols.start.value < b.symbols.start.value {
                            Some(l)
                        } else {
                            Some(b)
                        },
                    };
                }
                m += 1;
            }
            proof {
                assert(self.links@.take(self.links@.len() as int) =~= self.links@);
            }
            let target = match best {
                Some(t) => t.target_state,
                None => Identifier::invalid(),
            };
            out.push(target);
            j += 1;
        }
        out
    }
}


impl From<Vec<usize>> for State {
    /// Creates a state with the given epsilon links.
    fn from(vec: Vec<usize>) -> (r: State)
        ensures
            r.epsilon_links@.len() == vec@.len(),
            forall|i: int|
                0 <= i < vec@.len() ==> (#[trigger] r.epsilon_links@[i]).id == vec@[i],
            r.links@.len() == 0,
            r.name is None,
            r.callback@.len() == 0,
    {
        let mut epsilon_links: Vec<Identifier> = Vec::new();
        let mut i: usize = 0;
        while i < vec.len()
            invariant
                i <= vec@.len(),
                epsilon_links@.len() == i,
                forall|k: int|
                    0 <= k < i ==> (#[trigger] epsilon_links@[k]).id == vec@[k],
            decreases vec@.len() - i,
        {
            epsilon_links.push(Identifier { id: vec[i] });
            i += 1;
        }
        State { epsilon_links, ..State::default() }
    }
}

impl vstd::std_specs::convert::FromSpecImpl<Vec<usize>> for State {
    open spec fn obeys_from_spec() -> bool {
        // The built state cannot be written as a spec value (a vector cannot
        // be built in spec code); the impl's own `ensures` states the result.
        false
    }

    open spec fn from_spec(vec: Vec<usize>) -> State {
        vstd::pervasive::arbitrary()
    }
}

impl From<Vec<Link>> for State {
    /// Creates a state with the given symbol-range links.
    fn from(vec: Vec<Link>) -> (r: State)
        ensures
            r.links@.len() == vec@.len(),
            forall|i: int|
                0 <= i < vec@.len() ==> {
                    let t = #[trigger] r.links@[i];
                    &&& t.symbols.start.value == vec@[i].start
                    &&& t.symbols.end.value == vec@[i].end
                    &&& t.target_state.id == vec@[i].target_id
                },
            r.epsilon_links@.len() == 0,
            r.name is None,
            r.callback@.len() == 0,
    {
        let mut links: Vec<Transition> = Vec::new();
        let mut i: usize = 0;
        while i < vec.len()
            invariant
                i <= vec@.len(),
                links@.len() == i,
                forall|k: int|
                    0 <= k < i ==> {
                        let t = #[trigger] links@[k];
                        &&& t.symbols.start.value == vec@[k].start
                        &&& t.symbols.end.value == vec@[k].end
                        &&& t.target_state.id == vec@[k].target_id
                    },
            decreases vec@.len() - i,
        {
            let link = vec[i];
            let start = crate::symbol::Symbol::new(link.start);
            let end = crate::symbol::Symbol::new(link.end);
            links.push(
                Transition::new(SymbolRange::new(start, end), Identifier::new(link.target_id)),
            );
            i += 1;
        }
        State { links, ..State::default() }
    }
}

impl vstd::std_specs::convert::FromSpecImpl<Vec<Link>> for State {
    open spec fn obeys_from_spec() -> bool {
        // As for the epsilon-link conversion: the impl's own `ensures` states
        // the result.
        false
    }

    open spec fn from_spec(vec: Vec<Link>) -> State {
        vstd::pervasive::arbitrary()
    }
}

} // verus!
