//! Non-deterministic finite automata with epsilon moves, built from patterns
//! by Thompson's construction extended to symbol ranges.

use vstd::prelude::*;

use crate::alphabet::Segmentation;
use crate::matrix::Matrix;
use crate::pattern::{all_nullable, any_nullable, list_divs, list_has_range, nullable, pattern_divs, pattern_has_range, Pattern, PatternView};
use crate::state::{chosen_link, Identifier, State, Transition, INVALID_ID};
use crate::symbol::{Symbol, SymbolRange};

verus! {


/// Whether a sequence of identifiers holds the id `t`.
pub open spec fn contains_id(v: Seq<Identifier>, t: int) -> bool {
    exists|j: int| 0 <= j < v.len() && v[j].id == t
}

/// A sequence of identifiers strictly increasing by id.
pub open spec fn sorted_ids(v: Seq<Identifier>) -> bool {
    forall|i: int, j: int| 0 <= i < j < v.len() ==> v[i].id < v[j].id
}

/// One epsilon move: state `a` has an epsilon link to state `b`.
pub open spec fn eps_step(states: Seq<State>, a: int, b: int) -> bool {
    &&& 0 <= a < states.len()
    &&& exists|j: int|
        0 <= j < states[a].epsilon_links@.len() && states[a].epsilon_links@[j].id == b
}

/// A path along epsilon links: non-empty, each pair of neighbours one move.
pub open spec fn is_eps_path(states: Seq<State>, p: Seq<int>) -> bool {
    &&& p.len() >= 1
    &&& forall|k: int| #![trigger p[k]] 0 <= k < p.len() - 1 ==> eps_step(states, p[k], p[k + 1])
}

/// State `b` is reachable from state `a` along epsilon links alone; every
/// state reaches itself.
pub open spec fn eps_reach(states: Seq<State>, a: int, b: int) -> bool {
    exists|p: Seq<int>| is_eps_path(states, p) && p[0] == a && p.last() == b
}

/// Every state reaches itself along the empty path.
pub proof fn lemma_eps_reach_self(states: Seq<State>, a: int)
    ensures
        eps_reach(states, a, a),
{
    let p = seq![a];
    assert(is_eps_path(states, p) && p[0] == a && p.last() == a);
}

/// Reachability extends along one more epsilon move.
pub proof fn lemma_eps_reach_step(states: Seq<State>, a: int, b: int, c: int)
    requires
        eps_reach(states, a, b),
        eps_step(states, b, c),
    ensures
        eps_reach(states, a, c),
{
    let p = choose|p: Seq<int>| is_eps_path(states, p) && p[0] == a && p.last() == b;
    let q = p.push(c);
    assert forall|k: int| #![trigger q[k]] 0 <= k < q.len() - 1 implies eps_step(
        states,
        q[k],
        q[k + 1],
    ) by {
        if k < p.len() - 1 {
            assert(q[k] == p[k] && q[k + 1] == p[k + 1]);
        } else {
            assert(q[k] == p.last() && q[k + 1] == c);
        }
    }
    assert(is_eps_path(states, q) && q[0] == a && q.last() == c);
}

/// A set of ids that holds the head of a path and is closed under epsilon
/// moves holds the path's last state too.
proof fn lemma_path_in_closed(states: Seq<State>, cs: Seq<Identifier>, p: Seq<int>)
    requires
        is_eps_path(states, p),
        contains_id(cs, p[0]),
        forall|t: int, j: int|
            contains_id(cs, t) && 0 <= t < states.len() && 0 <= j
                < states[t].epsilon_links@.len() ==> contains_id(
                cs,
                #[trigger] states[t].epsilon_links@[j].id as int,
            ),
    ensures
        contains_id(cs, p.last()),
    decreases p.len(),
{
    if p.len() > 1 {
        let q = p.drop_last();
        assert forall|k: int| #![trigger q[k]] 0 <= k < q.len() - 1 implies eps_step(
            states,
            q[k],
            q[k + 1],
        ) by {
            assert(q[k] == p[k] && q[k + 1] == p[k + 1]);
        }
        lemma_path_in_closed(states, cs, q);
        let b = p[p.len() - 2];
        assert(q.last() == b);
        assert(contains_id(cs, b));
        assert(eps_step(states, b, p.last())) by {
            assert(p[p.len() - 2] == b);
        }
        let j = choose|j: int|
            0 <= j < states[b].epsilon_links@.len() && states[b].epsilon_links@[j].id == p.last();
        assert(contains_id(cs, states[b].epsilon_links@[j].id as int));
        assert(states[b].epsilon_links@[j].id as int == p.last());
    } else {
        assert(p.last() == p[0]);
    }
}

/// A strictly increasing sequence of ids below `n` has at most `n` entries.
proof fn lemma_sorted_ids_len(v: Seq<Identifier>, n: int)
    requires
        n >= 0,
        sorted_ids(v),
        forall|j: int| 0 <= j < v.len() ==> 0 <= (#[trigger] v[j]).id < n,
    ensures
        v.len() <= n,
    decreases v.len(),
{
    if v.len() > 0 {
        let w = v.drop_last();
        assert forall|j: int| 0 <= j < w.len() implies 0 <= (#[trigger] w[j]).id < n - 1 by {
            assert(w[j] == v[j]);
            assert(v[j].id < v.last().id);
        }
        assert(0 <= v.last().id < n);
        lemma_sorted_ids_len(w, n - 1);
    }
}

/// Inserts an id absent from a sorted vector, keeping it sorted.
pub(crate) fn insert_sorted_id(list: &mut Vec<Identifier>, value: Identifier)
    requires
        sorted_ids(old(list)@),
        !contains_id(old(list)@, value.id as int),
    ensures
        sorted_ids(final(list)@),
        final(list)@.len() == old(list)@.len() + 1,
        forall|t: int|
            #![trigger contains_id(final(list)@, t)]
            contains_id(final(list)@, t) <==> (contains_id(old(list)@, t) || t == value.id),
{
    let mut idx: usize = 0;
    while idx < list.len() && list[idx].id < value.id
        invariant
            idx <= list@.len(),
            forall|k: int| 0 <= k < idx ==> (#[trigger] list@[k]).id < value.id,
            list == old(list),
        decreases list@.len() - idx,
    {
        idx += 1;
    }
    proof {
        if idx < list@.len() && list@[idx as int].id == value.id {
            assert(contains_id(list@, value.id as int));
        }
    }
    list.insert(idx, value);
    proof {
        let ds = list@;
        let od = old(list)@;
        assert forall|i: int, j: int| 0 <= i < j < ds.len() implies ds[i].id < ds[j].id by {
            if j < idx {
            } else if i > idx {
            } else if j == idx {
                assert(ds[i] == od[i]);
            } else if i == idx {
                assert(ds[j] == od[j - 1]);
                if idx < od.len() {
                    assert(od[idx as int].id > value.id);
                    if j - 1 > idx {
                        assert(od[idx as int].id < od[j - 1].id);
                    }
                }
            } else {
                assert(ds[i] == od[i]);
                assert(ds[j] == od[j - 1]);
                if idx < od.len() {
                    assert(od[i].id < value.id);
                    assert(od[idx as int].id > value.id);
                    if j - 1 > idx {
                        assert(od[idx as int].id < od[j - 1].id);
                    }
                } else {
                    assert(j - 1 < od.len());
                }
            }
        }
        assert forall|t: int|
            contains_id(ds, t) <==> (contains_id(od, t) || t == value.id) by {
            if contains_id(ds, t) {
                let i = choose|i: int| 0 <= i < ds.len() && ds[i].id == t;
                if i < idx {
                    assert(od[i].id == t);
                } else if i > idx {
                    assert(od[i - 1].id == t);
                }
            }
            if contains_id(od, t) {
                let i = choose|i: int| 0 <= i < od.len() && od[i].id == t;
                if i < idx {
                    assert(ds[i].id == t);
                } else {
                    assert(ds[i + 1].id == t);
                }
            }
            if t == value.id {
                assert(ds[idx as int].id == t);
            }
        }
    }
}



/// `s2` extends `s1`: every old state keeps its epsilon links (possibly
/// gaining more), and states are only appended.
pub open spec fn eps_extends(s1: Seq<State>, s2: Seq<State>) -> bool {
    &&& s2.len() >= s1.len()
    &&& forall|i: int|
        0 <= i < s1.len() ==> (#[trigger] s1[i]).epsilon_links@.is_prefix_of(
            s2[i].epsilon_links@,
        )
}

/// Epsilon reachability survives extending the automaton: adding states or
/// epsilon links never removes a path.
pub proof fn lemma_eps_reach_mono(s1: Seq<State>, s2: Seq<State>, a: int, b: int)
    requires
        eps_extends(s1, s2),
        eps_reach(s1, a, b),
    ensures
        eps_reach(s2, a, b),
{
    let p = choose|p: Seq<int>| is_eps_path(s1, p) && p[0] == a && p.last() == b;
    assert forall|k: int| #![trigger p[k]] 0 <= k < p.len() - 1 implies eps_step(
        s2,
        p[k],
        p[k + 1],
    ) by {
        assert(eps_step(s1, p[k], p[k + 1]));
        let j = choose|j: int|
            0 <= j < s1[p[k]].epsilon_links@.len() && s1[p[k]].epsilon_links@[j].id == p[k + 1];
        assert(s1[p[k]].epsilon_links@.is_prefix_of(s2[p[k]].epsilon_links@));
        assert(s2[p[k]].epsilon_links@[j] == s1[p[k]].epsilon_links@[j]);
    }
    assert(is_eps_path(s2, p) && p[0] == a && p.last() == b);
}

/// One epsilon move survives extending the automaton.
pub proof fn lemma_eps_step_mono(s1: Seq<State>, s2: Seq<State>, a: int, b: int)
    requires
        eps_extends(s1, s2),
        eps_step(s1, a, b),
    ensures
        eps_step(s2, a, b),
{
    let j = choose|j: int|
        0 <= j < s1[a].epsilon_links@.len() && s1[a].epsilon_links@[j].id == b;
    assert(s1[a].epsilon_links@.is_prefix_of(s2[a].epsilon_links@));
    assert(s2[a].epsilon_links@[j] == s1[a].epsilon_links@[j]);
}

/// Epsilon reachability is transitive: two paths concatenate.
pub proof fn lemma_eps_reach_trans(states: Seq<State>, a: int, b: int, c: int)
    requires
        eps_reach(states, a, b),
        eps_reach(states, b, c),
    ensures
        eps_reach(states, a, c),
{
    let p = choose|p: Seq<int>| is_eps_path(states, p) && p[0] == a && p.last() == b;
    let q = choose|q: Seq<int>| is_eps_path(states, q) && q[0] == b && q.last() == c;
    let r = p + q.drop_first();
    assert forall|k: int| #![trigger r[k]] 0 <= k < r.len() - 1 implies eps_step(
        states,
        r[k],
        r[k + 1],
    ) by {
        if k < p.len() - 1 {
            assert(r[k] == p[k] && r[k + 1] == p[k + 1]);
        } else if k == p.len() - 1 {
            if q.len() >= 2 {
                assert(r[k] == p.last() && r[k + 1] == q[1]);
                assert(eps_step(states, q[0], q[1]));
            }
        } else {
            assert(r[k] == q[k - p.len() + 1] && r[k + 1] == q[k - p.len() + 2]);
            assert(eps_step(states, q[k - p.len() + 1], q[k - p.len() + 2]));
        }
    }
    assert(r[0] == a);
    assert(r.last() == c) by {
        if q.len() == 1 {
            assert(r.last() == p.last());
        }
    }
    assert(is_eps_path(states, r));
}



/// Canonical sets are unique: two sorted id vectors holding the same ids are
/// equal.
pub proof fn lemma_sorted_ids_unique(a: Seq<Identifier>, b: Seq<Identifier>)
    requires
        sorted_ids(a),
        sorted_ids(b),
        forall|t: int|
            #![trigger contains_id(a, t)]
            #![trigger contains_id(b, t)]
            contains_id(a, t) <==> contains_id(b, t),
    ensures
        a == b,
    decreases a.len(),
{
    if a.len() == 0 {
        if b.len() > 0 {
            assert(contains_id(b, b[0].id as int));
            assert(contains_id(a, b[0].id as int));
        }
        assert(a =~= b);
    } else if b.len() == 0 {
        assert(contains_id(a, a[0].id as int));
        assert(contains_id(b, a[0].id as int));
    } else {
        let x = a.last();
        let y = b.last();
        assert(contains_id(a, x.id as int)) by {
            assert(a[a.len() - 1].id == x.id);
        }
        assert(contains_id(b, y.id as int)) by {
            assert(b[b.len() - 1].id == y.id);
        }
        assert(x.id <= y.id) by {
            assert(contains_id(b, x.id as int));
            let p = choose|p: int| 0 <= p < b.len() && b[p].id == x.id;
            if p < b.len() - 1 {
                assert(b[p].id < y.id);
            }
        }
        assert(y.id <= x.id) by {
            assert(contains_id(a, y.id as int));
            let p = choose|p: int| 0 <= p < a.len() && a[p].id == y.id;
            if p < a.len() - 1 {
                assert(a[p].id < x.id);
            }
        }
        assert(x == y);
        let a2 = a.drop_last();
        let b2 = b.drop_last();
        assert forall|t: int|
            #![trigger contains_id(a2, t)]
            #![trigger contains_id(b2, t)]
            contains_id(a2, t) <==> contains_id(b2, t) by {
            if contains_id(a2, t) {
                let q = choose|q: int| 0 <= q < a2.len() && a2[q].id == t;
                assert(a[q].id == t);
                assert(contains_id(a, t));
                assert(t < x.id);
                let r = choose|r: int| 0 <= r < b.len() && b[r].id == t;
                assert(r < b.len() - 1);
                assert(b2[r].id == t);
            }
            if contains_id(b2, t) {
                let q = choose|q: int| 0 <= q < b2.len() && b2[q].id == t;
                assert(b[q].id == t);
                assert(contains_id(b, t));
                assert(t < y.id);
                let r = choose|r: int| 0 <= r < a.len() && a[r].id == t;
                assert(r < a.len() - 1);
                assert(a2[r].id == t);
            }
        }
        lemma_sorted_ids_unique(a2, b2);
        assert(a =~= a2.push(x));
        assert(b =~= b2.push(y));
    }
}

/// Appending states while leaving the old ones untouched extends the
/// automaton.
pub proof fn lemma_append_eps_extends(s1: Seq<State>, s2: Seq<State>)
    requires
        s2.len() >= s1.len(),
        forall|i: int| 0 <= i < s1.len() ==> s2[i] == s1[i],
    ensures
        eps_extends(s1, s2),
{
    assert forall|i: int|
        0 <= i < s1.len() implies (#[trigger] s1[i]).epsilon_links@.is_prefix_of(
        s2[i].epsilon_links@,
    ) by {
        assert(s1[i].epsilon_links@ =~= s2[i].epsilon_links@.subrange(
            0,
            s1[i].epsilon_links@.len() as int,
        ));
    }
}

/// Pushing one epsilon link onto one state, leaving the others untouched,
/// extends the automaton.
pub proof fn lemma_push_eps_extends(s1: Seq<State>, s2: Seq<State>, src: int, tgt: Identifier)
    requires
        0 <= src < s1.len(),
        s2.len() >= s1.len(),
        forall|i: int| 0 <= i < s1.len() && i != src ==> s2[i] == s1[i],
        s2[src].epsilon_links@ == s1[src].epsilon_links@.push(tgt),
    ensures
        eps_extends(s1, s2),
{
    assert forall|i: int|
        0 <= i < s1.len() implies (#[trigger] s1[i]).epsilon_links@.is_prefix_of(
        s2[i].epsilon_links@,
    ) by {
        assert(s1[i].epsilon_links@ =~= s2[i].epsilon_links@.subrange(
            0,
            s1[i].epsilon_links@.len() as int,
        ));
    }
}


/// The shape of one state: its epsilon links and symbol transitions, the two
/// parts of a state that Thompson's construction writes.
#[verifier::ext_equal]
pub struct StateShape {
    /// The epsilon links of the state, in insertion order.
    pub epsilon_links: Seq<Identifier>,
    /// The symbol transitions of the state, in insertion order.
    pub links: Seq<Transition>,
}

/// The shape of an existing state.
pub open spec fn shape_of(s: State) -> StateShape {
    StateShape { epsilon_links: s.epsilon_links@, links: s.links@ }
}

/// The shapes of the states from index `base` on.
pub open spec fn segment_shapes(states: Seq<State>, base: int) -> Seq<StateShape> {
    Seq::new((states.len() - base) as nat, |k: int| shape_of(states[base + k]))
}

/// A state with no links yet.
pub open spec fn empty_shape() -> StateShape {
    StateShape { epsilon_links: seq![], links: seq![] }
}

/// The segment with one more epsilon link, from the state with absolute id
/// `at` to the state with absolute id `tgt`; `base` is the absolute id of the
/// segment's first state.
pub open spec fn push_eps_at(seg: Seq<StateShape>, base: int, at: int, tgt: int) -> Seq<
    StateShape,
> {
    seg.update(
        at - base,
        StateShape {
            epsilon_links: seg[at - base].epsilon_links.push(Identifier { id: tgt as usize }),
            links: seg[at - base].links,
        },
    )
}

/// What one pattern insertion appends to the automaton: the shapes of the new
/// states and the absolute id of the accepting frontier.
#[verifier::ext_equal]
pub struct BuiltNfa {
    /// The shapes of the appended states, in creation order; the first is the
    /// entry state the epsilon link from the caller's source reaches.
    pub states: Seq<StateShape>,
    /// The absolute id of the state that accepts the sub-expression.
    pub ret: int,
}

/// The partial result of building an alternation: the segment so far and the
/// accepting frontier of every branch built so far.
#[verifier::ext_equal]
pub struct BuiltAlt {
    /// The shapes of the appended states, in creation order.
    pub states: Seq<StateShape>,
    /// The absolute ids of the branches' accepting states, in branch order.
    pub rets: Seq<int>,
}

/// The absolute ids of a vector of identifiers.
pub open spec fn ids_of(v: Seq<Identifier>) -> Seq<int> {
    Seq::new(v.len(), |q: int| v[q].id as int)
}

/// The sub-automaton Thompson's construction appends for `p`, whose first new
/// state (the entry reached from the caller's source) has absolute id `base`.
pub open spec fn build_pattern(p: PatternView, base: int) -> BuiltNfa
    decreases p,
{
    match p {
        PatternView::Range(lo, hi) => BuiltNfa {
            states: seq![
                StateShape {
                    epsilon_links: seq![],
                    links: seq![
                        Transition {
                            symbols: SymbolRange {
                                start: Symbol { value: lo },
                                end: Symbol { value: hi },
                            },
                            target_state: Identifier { id: (base + 1) as usize },
                        },
                    ],
                },
                empty_shape(),
            ],
            ret: base + 1,
        },
        PatternView::Or(ps) => {
            let body = build_alt(ps, base, seq![empty_shape()], seq![]);
            let end = base + body.states.len();
            BuiltNfa {
                states: connect_all(body.states + seq![empty_shape()], base, body.rets, end),
                ret: end,
            }
        },
        PatternView::Cat(ps) => build_cat(ps, base, base, seq![empty_shape()]),
        PatternView::Many(b) => {
            let inner = build_pattern(*b, base + 2);
            let s3 = base + 2 + inner.states.len();
            let seg = seq![
                StateShape {
                    epsilon_links: seq![
                        Identifier { id: (base + 1) as usize },
                        Identifier { id: s3 as usize },
                    ],
                    links: seq![],
                },
                StateShape {
                    epsilon_links: seq![Identifier { id: (base + 2) as usize }],
                    links: seq![],
                },
            ] + inner.states + seq![
                StateShape {
                    epsilon_links: seq![Identifier { id: (base + 1) as usize }],
                    links: seq![],
                },
            ];
            BuiltNfa { states: push_eps_at(seg, base, inner.ret, s3), ret: s3 }
        },
        PatternView::Always => BuiltNfa { states: seq![empty_shape()], ret: base },
        PatternView::Never => BuiltNfa {
            states: seq![empty_shape(), empty_shape()],
            ret: base + 1,
        },
    }
}

/// Folds a concatenation: each part is built from a fresh entry state that
/// the previous part's accepting state (`acc`) gains an epsilon link to.
pub open spec fn build_cat(
    ps: Seq<PatternView>,
    base: int,
    acc: int,
    sofar: Seq<StateShape>,
) -> BuiltNfa
    decreases ps,
{
    if ps.len() == 0 {
        BuiltNfa { states: sofar, ret: acc }
    } else {
        let next = base + sofar.len();
        let with_eps = push_eps_at(sofar, base, acc, next);
        let inner = build_pattern(ps[0], next);
        build_cat(ps.drop_first(), base, inner.ret, with_eps + inner.states)
    }
}

/// Folds an alternation's branches: each is built from a fresh entry state
/// that the shared entry (at `base`) gains an epsilon link to, and its
/// accepting state is collected.
pub open spec fn build_alt(
    ps: Seq<PatternView>,
    base: int,
    sofar: Seq<StateShape>,
    rets: Seq<int>,
) -> BuiltAlt
    decreases ps,
{
    if ps.len() == 0 {
        BuiltAlt { states: sofar, rets }
    } else {
        let next = base + sofar.len();
        let with_eps = push_eps_at(sofar, base, base, next);
        let inner = build_pattern(ps[0], next);
        build_alt(ps.drop_first(), base, with_eps + inner.states, rets.push(inner.ret))
    }
}

/// Epsilon-links every collected accepting state to the shared end state.
pub open spec fn connect_all(
    states: Seq<StateShape>,
    base: int,
    rets: Seq<int>,
    end: int,
) -> Seq<StateShape>
    decreases rets.len(),
{
    if rets.len() == 0 {
        states
    } else {
        connect_all(push_eps_at(states, base, rets[0], end), base, rets.drop_first(), end)
    }
}

/// Whether the sorted vector holds the id `value`.
pub(crate) fn contains_id_exec(list: &Vec<Identifier>, value: usize) -> (r: bool)
    ensures
        r == contains_id(list@, value as int),
{
    let mut k: usize = 0;
    while k < list.len()
        invariant
            k <= list@.len(),
            forall|q: int| 0 <= q < k ==> (#[trigger] list@[q]).id != value,
        decreases list@.len() - k,
    {
        if list[k].id == value {
            return true;
        }
        k += 1;
    }
    false
}

/// Whether the worklist holds the id `t`.
pub open spec fn in_stack(st: Seq<usize>, t: int) -> bool {
    exists|k: int| 0 <= k < st.len() && st[k] == t
}

/// A non-deterministic finite automaton over the segmented alphabet: a vector
/// of states with epsilon links and symbol-range transitions. State id 0 of a
/// rule automaton is its start state.
#[derive(Clone, Debug, PartialEq, Eq)]
pub struct NFA {
    /// The disjoint intervals of the input alphabet the automaton
    /// distinguishes.
    pub alphabet_segmentation: Segmentation,
    /// The states, addressed by index.
    pub states: Vec<State>,
}

impl Default for NFA {
    /// An automaton with no states over the initial one-division alphabet.
    fn default() -> (r: NFA)
        ensures
            r.wf(),
            r.states@.len() == 0,
            r.alphabet_segmentation.divisions@.len() == 1,
            r.alphabet_segmentation.divisions@[0].value == 0,
    {
        NFA { alphabet_segmentation: Segmentation::default(), states: Vec::new() }
    }
}

impl NFA {
    /// Well-formedness: the segmentation is well-formed and every link
    /// targets an existing state.
    pub open spec fn wf(self) -> bool {
        &&& self.alphabet_segmentation.wf()
        &&& forall|i: int|
            0 <= i < self.states@.len() ==> (#[trigger] self.states@[i]).targets_within(
                self.states@.len() as int,
            )
    }

    /// Adds a new state to the NFA and returns its identifier.
    pub fn new_state(&mut self) -> (r: Identifier)
        requires
            old(self).wf(),
        ensures
            final(self).wf(),
            r.id == old(self).states@.len(),
            final(self).states@.len() == old(self).states@.len() + 1,
            forall|i: int|
                0 <= i < old(self).states@.len() ==> final(self).states@[i] == old(self).states@[i],
            final(self).states@[r.id as int].epsilon_links@.len() == 0,
            final(self).states@[r.id as int].links@.len() == 0,
            final(self).states@[r.id as int].name is None,
            final(self).states@[r.id as int].callback@.len() == 0,
            final(self).alphabet_segmentation == old(self).alphabet_segmentation,
    {
        let id = self.states.len();
        self.states.push(State::default());
        proof {
            assert forall|i: int|
                0 <= i < self.states@.len() implies (#[trigger] self.states@[
                i
            ]).targets_within(self.states@.len() as int) by {
                if i < old(self).states@.len() {
                    assert(self.states@[i] == old(self).states@[i]);
                    assert(old(self).states@[i].targets_within(old(self).states@.len() as int));
                }
            }
        }
        Identifier { id }
    }

    /// Creates an epsilon transition from `source` to `target`: whenever the
    /// automaton is in `source` it may transition to `target` without
    /// consuming a symbol.
    pub fn connect(&mut self, source: Identifier, target: Identifier)
        requires
            old(self).wf(),
            source.id < old(self).states@.len(),
            target.id < old(self).states@.len(),
        ensures
            final(self).wf(),
            final(self).states@.len() == old(self).states@.len(),
            final(self).alphabet_segmentation == old(self).alphabet_segmentation,
            forall|i: int|
                0 <= i < old(self).states@.len() && i != source.id ==> final(self).states@[i]
                    == old(self).states@[i],
            final(self).states@[source.id as int].epsilon_links@ == old(self).states@[
                source.id as int
            ].epsilon_links@.push(target),
            final(self).states@[source.id as int].links == old(self).states@[
                source.id as int
            ].links,
            final(self).states@[source.id as int].name == old(self).states@[source.id as int].name,
            final(self).states@[source.id as int].callback == old(self).states@[
                source.id as int
            ].callback,
    {
        let id = source.id;
        let mut st = self.states.remove(id);
        st.add_epsilon_link(target);
        self.states.insert(id, st);
        proof {
            assert forall|i: int|
                0 <= i < old(self).states@.len() && i != source.id implies self.states@[i] == old(
                    self,
                ).states@[i] by {
                if i > source.id {
                    assert(old(self).states@.remove(id as int)[i - 1] == old(self).states@[i]);
                }
            }
            assert forall|i: int|
                0 <= i < self.states@.len() implies (#[trigger] self.states@[i]).targets_within(
                    self.states@.len() as int,
                ) by {
                assert(old(self).states@[i].targets_within(old(self).states@.len() as int));
                if i == source.id {
                    let eps = self.states@[i].epsilon_links@;
                    assert forall|j: int|
                        0 <= j < eps.len() implies (#[trigger] eps[j]).id < self.states@.len() by {
                        if j < eps.len() - 1 {
                            assert(eps[j] == old(self).states@[i].epsilon_links@[j]);
                        }
                    }
                }
            }
        }
    }

    /// Creates an ordinary transition from `source` to `target_state` for a
    /// range of symbols, extending the alphabet segmentation with the range's
    /// endpoints.
    pub fn connect_via(&mut self, source: Identifier, target_state: Identifier, symbols: &SymbolRange)
        requires
            old(self).wf(),
            source.id < old(self).states@.len(),
            target_state.id < old(self).states@.len(),
        ensures
            final(self).wf(),
            final(self).states@.len() == old(self).states@.len(),
            forall|code: int|
                #![trigger final(self).alphabet_segmentation.contains_div(code)]
                #![trigger old(self).alphabet_segmentation.contains_div(code)]
                final(self).alphabet_segmentation.contains_div(code) <==> (old(
                    self,
                ).alphabet_segmentation.contains_div(code) || Segmentation::range_divs(
                    *symbols,
                ).contains(code)),
            forall|i: int|
                0 <= i < old(self).states@.len() && i != source.id ==> final(self).states@[i]
                    == old(self).states@[i],
            final(self).states@[source.id as int].links@ == old(self).states@[
                source.id as int
            ].links@.push(Transition { symbols: *symbols, target_state }),
            final(self).states@[source.id as int].epsilon_links == old(self).states@[
                source.id as int
            ].epsilon_links,
            final(self).states@[source.id as int].name == old(self).states@[source.id as int].name,
            final(self).states@[source.id as int].callback == old(self).states@[
                source.id as int
            ].callback,
    {
        self.alphabet_segmentation.insert(*symbols);
        let id = source.id;
        let mut st = self.states.remove(id);
        st.add_link(Transition::new(*symbols, target_state));
        self.states.insert(id, st);
        proof {
            assert forall|i: int|
                0 <= i < old(self).states@.len() && i != source.id implies self.states@[i] == old(
                    self,
                ).states@[i] by {
                if i > source.id {
                    assert(old(self).states@.remove(id as int)[i - 1] == old(self).states@[i]);
                }
            }
            assert forall|i: int|
                0 <= i < self.states@.len() implies (#[trigger] self.states@[i]).targets_within(
                    self.states@.len() as int,
                ) by {
                assert(old(self).states@[i].targets_within(old(self).states@.len() as int));
                if i == source.id {
                    let links = self.states@[i].links@;
                    assert forall|j: int|
                        0 <= j < links.len() implies (#[trigger] links[j]).target_state.id
                            < self.states@.len() by {
                        if j < links.len() - 1 {
                            assert(links[j] == old(self).states@[i].links@[j]);
                        }
                    }
                }
            }
        }
    }


    /// Extends the automaton with a sub-automaton matching `pattern` by
    /// Thompson's construction: a fresh entry state is linked from `source`
    /// by one epsilon transition, and the returned state is the accepting
    /// frontier of the sub-expression.
    ///
    /// The appended states are exactly those `build_pattern` describes, link
    /// for link, and the returned id is the one it names. Beyond that: every
    /// state the call creates is unnamed; states that existed before are
    /// untouched, except that `source` gains the one epsilon link; the
    /// alphabet gains exactly the division points of the pattern's ranges;
    /// a pattern without ranges adds no symbol transitions at all; and a
    /// pattern that matches the empty word leaves its accepting frontier
    /// epsilon-reachable from `source`.
    #[verifier::rlimit(60)]
    #[verifier::spinoff_prover]
    pub fn new_pattern(&mut self, source: Identifier, pattern: &Pattern) -> (r: Identifier)
        requires
            old(self).wf(),
            source.id < old(self).states@.len(),
        ensures
            final(self).wf(),
            final(self).states@.len() > old(self).states@.len(),
            old(self).states@.len() <= r.id < final(self).states@.len(),
            forall|code: int|
                #![trigger final(self).alphabet_segmentation.contains_div(code)]
                #![trigger old(self).alphabet_segmentation.contains_div(code)]
                final(self).alphabet_segmentation.contains_div(code) <==> (old(
                    self,
                ).alphabet_segmentation.contains_div(code) || pattern_divs(pattern@).contains(
                    code,
                )),
            forall|i: int|
                0 <= i < old(self).states@.len() && i != source.id ==> final(self).states@[i]
                    == old(self).states@[i],
            final(self).states@[source.id as int].epsilon_links@ == old(self).states@[
                source.id as int
            ].epsilon_links@.push(Identifier { id: old(self).states@.len() as usize }),
            final(self).states@[source.id as int].links == old(self).states@[
                source.id as int
            ].links,
            final(self).states@[source.id as int].name == old(self).states@[source.id as int].name,
            final(self).states@[source.id as int].callback == old(self).states@[
                source.id as int
            ].callback,
            forall|i: int|
                #![trigger final(self).states@[i]]
                old(self).states@.len() <= i < final(self).states@.len()
                    ==> final(self).states@[i].name is None,
            !pattern_has_range(pattern@) ==> forall|i: int|
                #![trigger final(self).states@[i]]
                old(self).states@.len() <= i < final(self).states@.len()
                    ==> final(self).states@[i].links@.len() == 0,
            nullable(pattern@) ==> eps_reach(final(self).states@, source.id as int, r.id as int),
            final(self).states@.len() == old(self).states@.len() + build_pattern(
                pattern@,
                old(self).states@.len() as int,
            ).states.len(),
            r.id == build_pattern(pattern@, old(self).states@.len() as int).ret,
            segment_shapes(final(self).states@, old(self).states@.len() as int) == build_pattern(
                pattern@,
                old(self).states@.len() as int,
            ).states,
        decreases pattern,
    {
        let ghost n0 = old(self).states@.len() as int;
        let current = self.new_state();
        self.connect(source, current);
        proof {
            lemma_eps_reach_self(self.states@, source.id as int);
            assert(eps_step(self.states@, source.id as int, current.id as int)) by {
                let eps = self.states@[source.id as int].epsilon_links@;
                assert(eps[eps.len() - 1].id == current.id);
            }
            lemma_eps_reach_step(
                self.states@,
                source.id as int,
                source.id as int,
                current.id as int,
            );
        }
        match pattern {
            Pattern::Range(range) => {
                let state = self.new_state();
                self.connect_via(current, state, range);
                proof {
                    assert(pattern_divs(pattern@) =~= Segmentation::range_divs(*range));
                    let built = build_pattern(pattern@, n0);
                    assert(self.states@[n0].epsilon_links@ =~= Seq::<Identifier>::empty());
                    assert(self.states@[n0].links@ =~= seq![
                        Transition { symbols: *range, target_state: state },
                    ]);
                    assert(*range == SymbolRange {
                        start: Symbol { value: range.start.value },
                        end: Symbol { value: range.end.value },
                    });
                    assert(shape_of(self.states@[n0]) =~= built.states[0]);
                    assert(self.states@[n0 + 1].epsilon_links@ =~= Seq::<Identifier>::empty());
                    assert(self.states@[n0 + 1].links@ =~= Seq::<Transition>::empty());
                    assert(shape_of(self.states@[n0 + 1]) =~= built.states[1]);
                    assert(segment_shapes(self.states@, n0) =~= built.states);
                }
                state
            },
            Pattern::Many(body) => {
                let s1 = self.new_state();
                proof {
                    assert(decreases_to!(*pattern => pattern->Many_0));
                }
                let ghost st_s1 = self.states@;
                let s2 = self.new_pattern(s1, body);
                let ghost st_rec = self.states@;
                let s3 = self.new_state();
                self.connect(current, s1);
                self.connect(current, s3);
                self.connect(s2, s3);
                self.connect(s3, s1);
                proof {
                    assert(pattern_divs(pattern@) =~= pattern_divs(body@));
                    assert(pattern_has_range(pattern@) == pattern_has_range(body@));
                    let inner = build_pattern(body@, n0 + 2);
                    let built = build_pattern(pattern@, n0);
                    let s3g = n0 + 2 + inner.states.len();
                    assert(segment_shapes(st_rec, n0 + 2) == inner.states);
                    assert(s3.id == s3g);
                    assert(s2.id == inner.ret);
                    assert(n0 + 2 <= inner.ret < s3g);
                    assert(built.states.len() == inner.states.len() + 3);
                    assert(self.states@[n0].epsilon_links@ =~= seq![
                        Identifier { id: (n0 + 1) as usize },
                        Identifier { id: s3g as usize },
                    ]);
                    assert(self.states@[n0].links@ =~= Seq::<Transition>::empty());
                    assert(self.states@[n0 + 1].epsilon_links@ =~= seq![
                        Identifier { id: (n0 + 2) as usize },
                    ]);
                    assert(self.states@[n0 + 1].links@ =~= Seq::<Transition>::empty());
                    assert(self.states@[s3g].epsilon_links@ =~= seq![
                        Identifier { id: (n0 + 1) as usize },
                    ]);
                    assert(self.states@[s3g].links@ =~= Seq::<Transition>::empty());
                    assert forall|k: int|
                        0 <= k < built.states.len() implies segment_shapes(self.states@, n0)[k]
                        == built.states[k] by {
                        if k == 0 {
                            assert(shape_of(self.states@[n0]) =~= built.states[0]);
                        } else if k == 1 {
                            assert(shape_of(self.states@[n0 + 1]) =~= built.states[1]);
                        } else if k == built.states.len() - 1 {
                            assert(shape_of(self.states@[s3g]) =~= built.states[k]);
                        } else {
                            // A state of the inner sub-automaton: unchanged
                            // afterwards, except that the accepting state
                            // gained the epsilon link to the exit.
                            let idx = n0 + k;
                            assert(st_rec[idx] == self.states@[idx] || idx == inner.ret);
                            assert(shape_of(st_rec[idx]) == inner.states[k - 2]);
                            if idx == inner.ret {
                                assert(self.states@[idx].epsilon_links@ == st_rec[
                                    idx
                                ].epsilon_links@.push(Identifier { id: s3g as usize }));
                                assert(self.states@[idx].links == st_rec[idx].links);
                                assert(shape_of(self.states@[idx]) =~= built.states[k]);
                            } else {
                                assert(shape_of(self.states@[idx]) =~= built.states[k]);
                            }
                        }
                    }
                    assert(segment_shapes(self.states@, n0) =~= built.states);
                    assert(built.ret == s3g);
                    let st = self.states@;
                    lemma_eps_reach_self(st, source.id as int);
                    assert(eps_step(st, source.id as int, current.id as int)) by {
                        let eps = st[source.id as int].epsilon_links@;
                        assert(eps[eps.len() - 1].id == current.id);
                    }
                    lemma_eps_reach_step(
                        st,
                        source.id as int,
                        source.id as int,
                        current.id as int,
                    );
                    assert(eps_step(st, current.id as int, s3.id as int)) by {
                        let eps = st[current.id as int].epsilon_links@;
                        assert(eps[1].id == s3.id);
                    }
                    lemma_eps_reach_step(st, source.id as int, current.id as int, s3.id as int);
                }
                s3
            },
            Pattern::Sequence(ps) => {
                let ghost vs = pattern@->Cat_0;
                let mut acc = current;
                proof {
                    assert(self.states@[n0].epsilon_links@ =~= Seq::<Identifier>::empty());
                    assert(self.states@[n0].links@ =~= Seq::<Transition>::empty());
                    assert(shape_of(self.states@[n0]) =~= empty_shape());
                    assert(segment_shapes(self.states@, n0) =~= seq![empty_shape()]);
                    assert(vs.skip(0) =~= vs);
                    assert(build_pattern(pattern@, n0) == build_cat(
                        vs,
                        n0,
                        n0,
                        seq![empty_shape()],
                    ));
                }
                let mut i: usize = 0;
                while i < ps.len()
                    invariant
                        *pattern == Pattern::Sequence(*ps),
                        vs == pattern@->Cat_0,
                        i <= ps@.len(),
                        vs.len() == ps@.len(),
                        forall|k: int| 0 <= k < ps@.len() ==> vs[k] == ps@[k]@,
                        self.wf(),
                        self.states@.len() > n0,
                        n0 <= acc.id < self.states@.len(),
                        source.id < n0,
                        old(self).states@.len() == n0,
                        forall|q: int|
                            0 <= q < n0 && q != source.id ==> self.states@[q] == old(
                                self,
                            ).states@[q],
                        self.states@[source.id as int].epsilon_links@ == old(self).states@[
                            source.id as int
                        ].epsilon_links@.push(Identifier { id: n0 as usize }),
                        self.states@[source.id as int].links == old(self).states@[
                            source.id as int
                        ].links,
                        self.states@[source.id as int].name == old(self).states@[
                            source.id as int
                        ].name,
                        self.states@[source.id as int].callback == old(self).states@[
                            source.id as int
                        ].callback,
                        forall|q: int|
                            n0 <= q < self.states@.len() ==> (#[trigger] self.states@[
                                q
                            ]).name is None,
                        forall|code: int|
                            self.alphabet_segmentation.contains_div(code) <==> (old(
                                self,
                            ).alphabet_segmentation.contains_div(code) || list_divs(
                                vs.take(i as int),
                            ).contains(code)),
                        !list_has_range(vs) ==> forall|q: int|
                            n0 <= q < self.states@.len() ==> (#[trigger] self.states@[
                                q
                            ]).links@.len() == 0,
                        all_nullable(vs.take(i as int)) ==> eps_reach(
                            self.states@,
                            source.id as int,
                            acc.id as int,
                        ),
                        build_cat(
                            vs.skip(i as int),
                            n0,
                            acc.id as int,
                            segment_shapes(self.states@, n0),
                        ) == build_pattern(pattern@, n0),
                    decreases ps@.len() - i,
                {
                    proof {
                        assert(decreases_to!(*pattern => pattern->Sequence_0));
                        assert(decreases_to!(pattern->Sequence_0 => pattern->Sequence_0@));
                        assert(decreases_to!(pattern->Sequence_0@ => pattern->Sequence_0@[
                            i as int
                        ]));
                        if !list_has_range(vs) {
                            crate::pattern::lemma_list_has_range_elem(vs, i as int);
                        }
                    }
                    let prev = acc;
                    let ghost st_pre = self.states@;
                    acc = self.new_pattern(prev, &ps[i]);
                    proof {
                        assert(vs.take(i + 1).drop_last() =~= vs.take(i as int));
                        assert(vs.take(i + 1).last() == vs[i as int]);
                        assert(list_divs(vs.take(i + 1)) =~= list_divs(vs.take(i as int)).union(
                            pattern_divs(vs[i as int]),
                        ));
                        lemma_push_eps_extends(
                            st_pre,
                            self.states@,
                            prev.id as int,
                            Identifier { id: st_pre.len() as usize },
                        );
                        if all_nullable(vs.take(i + 1)) {
                            assert(all_nullable(vs.take(i as int)) && nullable(vs[i as int]));
                            lemma_eps_reach_mono(
                                st_pre,
                                self.states@,
                                source.id as int,
                                prev.id as int,
                            );
                            lemma_eps_reach_trans(
                                self.states@,
                                source.id as int,
                                prev.id as int,
                                acc.id as int,
                            );
                        }
                        let seg_pre = segment_shapes(st_pre, n0);
                        let next = st_pre.len() as int;
                        let inner = build_pattern(vs[i as int], next);
                        assert(segment_shapes(self.states@, next) == inner.states);
                        assert(acc.id == inner.ret);
                        assert(segment_shapes(self.states@, n0) =~= push_eps_at(
                            seg_pre,
                            n0,
                            prev.id as int,
                            next,
                        ) + inner.states) by {
                            assert forall|k: int|
                                0 <= k < self.states@.len() - n0 implies segment_shapes(
                                self.states@,
                                n0,
                            )[k] == (push_eps_at(seg_pre, n0, prev.id as int, next)
                                + inner.states)[k] by {
                                let idx = n0 + k;
                                if idx < next {
                                    if idx == prev.id {
                                        assert(self.states@[idx].epsilon_links@ == st_pre[
                                            idx
                                        ].epsilon_links@.push(
                                            Identifier { id: next as usize },
                                        ));
                                        assert(self.states@[idx].links == st_pre[idx].links);
                                        assert(shape_of(self.states@[idx]) =~= push_eps_at(
                                            seg_pre,
                                            n0,
                                            prev.id as int,
                                            next,
                                        )[k]);
                                    } else {
                                        assert(self.states@[idx] == st_pre[idx]);
                                        assert(shape_of(self.states@[idx]) =~= push_eps_at(
                                            seg_pre,
                                            n0,
                                            prev.id as int,
                                            next,
                                        )[k]);
                                    }
                                } else {
                                    assert(shape_of(self.states@[idx]) == segment_shapes(
                                        self.states@,
                                        next,
                                    )[idx - next]);
                                }
                            }
                        }
                        assert(vs.skip(i as int).drop_first() =~= vs.skip(i + 1));
                        assert(vs.skip(i as int)[0] == vs[i as int]);
                        assert(build_cat(
                            vs.skip(i + 1),
                            n0,
                            acc.id as int,
                            segment_shapes(self.states@, n0),
                        ) == build_pattern(pattern@, n0));
                    }
                    i += 1;
                }
                proof {
                    assert(vs.take(vs.len() as int) =~= vs);
                    assert(pattern_divs(pattern@) =~= list_divs(vs));
                    assert(pattern_has_range(pattern@) == list_has_range(vs));
                    assert(nullable(pattern@) == all_nullable(vs));
                    assert(vs.skip(vs.len() as int).len() == 0);
                    assert(build_cat(
                        vs.skip(vs.len() as int),
                        n0,
                        acc.id as int,
                        segment_shapes(self.states@, n0),
                    ) == BuiltNfa {
                        states: segment_shapes(self.states@, n0),
                        ret: acc.id as int,
                    });
                }
                acc
            },
            Pattern::Or(ps) => {
                let ghost vs = pattern@->Or_0;
                let ghost total_alt = build_alt(vs, n0, seq![empty_shape()], seq![]);
                let mut ends: Vec<Identifier> = Vec::new();
                proof {
                    assert(self.states@[n0].epsilon_links@ =~= Seq::<Identifier>::empty());
                    assert(self.states@[n0].links@ =~= Seq::<Transition>::empty());
                    assert(shape_of(self.states@[n0]) =~= empty_shape());
                    assert(segment_shapes(self.states@, n0) =~= seq![empty_shape()]);
                    assert(vs.skip(0) =~= vs);
                    assert(ids_of(ends@) =~= Seq::<int>::empty());
                }
                let mut i: usize = 0;
                while i < ps.len()
                    invariant
                        *pattern == Pattern::Or(*ps),
                        vs == pattern@->Or_0,
                        i <= ps@.len(),
                        vs.len() == ps@.len(),
                        forall|k: int| 0 <= k < ps@.len() ==> vs[k] == ps@[k]@,
                        self.wf(),
                        self.states@.len() > n0,
                        current.id == n0,
                        source.id < n0,
                        old(self).states@.len() == n0,
                        ends@.len() == i,
                        forall|k: int|
                            0 <= k < i ==> n0 <= (#[trigger] ends@[k]).id < self.states@.len(),
                        forall|q: int|
                            0 <= q < n0 && q != source.id ==> self.states@[q] == old(
                                self,
                            ).states@[q],
                        self.states@[source.id as int].epsilon_links@ == old(self).states@[
                            source.id as int
                        ].epsilon_links@.push(Identifier { id: n0 as usize }),
                        self.states@[source.id as int].links == old(self).states@[
                            source.id as int
                        ].links,
                        self.states@[source.id as int].name == old(self).states@[
                            source.id as int
                        ].name,
                        self.states@[source.id as int].callback == old(self).states@[
                            source.id as int
                        ].callback,
                        forall|q: int|
                            n0 <= q < self.states@.len() ==> (#[trigger] self.states@[
                                q
                            ]).name is None,
                        forall|code: int|
                            self.alphabet_segmentation.contains_div(code) <==> (old(
                                self,
                            ).alphabet_segmentation.contains_div(code) || list_divs(
                                vs.take(i as int),
                            ).contains(code)),
                        !list_has_range(vs) ==> forall|q: int|
                            n0 <= q < self.states@.len() ==> (#[trigger] self.states@[
                                q
                            ]).links@.len() == 0,
                        eps_reach(self.states@, source.id as int, current.id as int),
                        any_nullable(vs.take(i as int)) ==> exists|kq: int|
                            0 <= kq < i && eps_reach(
                                self.states@,
                                source.id as int,
                                (#[trigger] ends@[kq]).id as int,
                            ),
                        build_alt(
                            vs.skip(i as int),
                            n0,
                            segment_shapes(self.states@, n0),
                            ids_of(ends@),
                        ) == total_alt,
                    decreases ps@.len() - i,
                {
                    proof {
                        assert(decreases_to!(*pattern => pattern->Or_0));
                        assert(decreases_to!(pattern->Or_0 => pattern->Or_0@));
                        assert(decreases_to!(pattern->Or_0@ => pattern->Or_0@[i as int]));
                    }
                    proof {
                        if !list_has_range(vs) {
                            crate::pattern::lemma_list_has_range_elem(vs, i as int);
                        }
                    }
                    let ghost st_pre = self.states@;
                    let ghost ends_pre = ends@;
                    let e = self.new_pattern(current, &ps[i]);
                    ends.push(e);
                    proof {
                        assert(vs.take(i + 1).drop_last() =~= vs.take(i as int));
                        assert(vs.take(i + 1).last() == vs[i as int]);
                        assert(list_divs(vs.take(i + 1)) =~= list_divs(vs.take(i as int)).union(
                            pattern_divs(vs[i as int]),
                        ));
                        lemma_push_eps_extends(
                            st_pre,
                            self.states@,
                            current.id as int,
                            Identifier { id: st_pre.len() as usize },
                        );
                        lemma_eps_reach_mono(
                            st_pre,
                            self.states@,
                            source.id as int,
                            current.id as int,
                        );
                        if any_nullable(vs.take(i + 1)) {
                            assert(any_nullable(vs.take(i as int)) || nullable(vs[i as int]));
                            if nullable(vs[i as int]) {
                                lemma_eps_reach_trans(
                                    self.states@,
                                    source.id as int,
                                    current.id as int,
                                    e.id as int,
                                );
                                assert(ends@[i as int] == e);
                            } else {
                                let kq = choose|kq: int|
                                    0 <= kq < i && eps_reach(
                                        st_pre,
                                        source.id as int,
                                        ends_pre[kq].id as int,
                                    );
                                lemma_eps_reach_mono(
                                    st_pre,
                                    self.states@,
                                    source.id as int,
                                    ends_pre[kq].id as int,
                                );
                                assert(ends@[kq] == ends_pre[kq]);
                            }
                        }
                        let seg_pre = segment_shapes(st_pre, n0);
                        let next = st_pre.len() as int;
                        let inner = build_pattern(vs[i as int], next);
                        assert(segment_shapes(self.states@, next) == inner.states);
                        assert(e.id == inner.ret);
                        assert(segment_shapes(self.states@, n0) =~= push_eps_at(
                            seg_pre,
                            n0,
                            n0,
                            next,
                        ) + inner.states) by {
                            assert forall|kx: int|
                                0 <= kx < self.states@.len() - n0 implies segment_shapes(
                                self.states@,
                                n0,
                            )[kx] == (push_eps_at(seg_pre, n0, n0, next) + inner.states)[kx] by {
                                let idx = n0 + kx;
                                if idx < next {
                                    if idx == n0 {
                                        assert(self.states@[idx].epsilon_links@ == st_pre[
                                            idx
                                        ].epsilon_links@.push(
                                            Identifier { id: next as usize },
                                        ));
                                        assert(self.states@[idx].links == st_pre[idx].links);
                                        assert(shape_of(self.states@[idx]) =~= push_eps_at(
                                            seg_pre,
                                            n0,
                                            n0,
                                            next,
                                        )[kx]);
                                    } else {
                                        assert(self.states@[idx] == st_pre[idx]);
                                        assert(shape_of(self.states@[idx]) =~= push_eps_at(
                                            seg_pre,
                                            n0,
                                            n0,
                                            next,
                                        )[kx]);
                                    }
                                } else {
                                    assert(shape_of(self.states@[idx]) == segment_shapes(
                                        self.states@,
                                        next,
                                    )[idx - next]);
                                }
                            }
                        }
                        assert(vs.skip(i as int).drop_first() =~= vs.skip(i + 1));
                        assert(vs.skip(i as int)[0] == vs[i as int]);
                        assert(ids_of(ends@) =~= ids_of(ends_pre).push(inner.ret));
                        assert(build_alt(
                            vs.skip(i + 1),
                            n0,
                            segment_shapes(self.states@, n0),
                            ids_of(ends@),
                        ) == total_alt);
                    }
                    i += 1;
                }
                proof {
                    assert(vs.take(vs.len() as int) =~= vs);
                    assert(pattern_divs(pattern@) =~= list_divs(vs));
                    assert(pattern_has_range(pattern@) == list_has_range(vs));
                    assert(nullable(pattern@) == any_nullable(vs));
                    assert(vs.skip(vs.len() as int).len() == 0);
                    assert(total_alt == BuiltAlt {
                        states: segment_shapes(self.states@, n0),
                        rets: ids_of(ends@),
                    });
                }
                let ghost st_mid = self.states@;
                let end = self.new_state();
                proof {
                    lemma_append_eps_extends(st_mid, self.states@);
                    assert(self.states@[end.id as int].epsilon_links@
                        =~= Seq::<Identifier>::empty());
                    assert(self.states@[end.id as int].links@ =~= Seq::<Transition>::empty());
                    assert(segment_shapes(self.states@, n0) =~= total_alt.states + seq![
                        empty_shape(),
                    ]) by {
                        assert forall|kx: int|
                            0 <= kx < self.states@.len() - n0 implies segment_shapes(
                            self.states@,
                            n0,
                        )[kx] == (total_alt.states + seq![empty_shape()])[kx] by {
                            if n0 + kx < st_mid.len() {
                                assert(self.states@[n0 + kx] == st_mid[n0 + kx]);
                                assert(shape_of(st_mid[n0 + kx]) == total_alt.states[kx]);
                            } else {
                                assert(shape_of(self.states@[n0 + kx]) =~= empty_shape());
                            }
                        }
                    }
                    assert(end.id == n0 + total_alt.states.len());
                    assert(build_pattern(pattern@, n0) == BuiltNfa {
                        states: connect_all(
                            total_alt.states + seq![empty_shape()],
                            n0,
                            total_alt.rets,
                            end.id as int,
                        ),
                        ret: end.id as int,
                    });
                    assert(ids_of(ends@).skip(0) =~= ids_of(ends@));
                    if any_nullable(vs) {
                        let kq = choose|kq: int|
                            0 <= kq < ends@.len() && eps_reach(
                                st_mid,
                                source.id as int,
                                ends@[kq].id as int,
                            );
                        lemma_eps_reach_mono(
                            st_mid,
                            self.states@,
                            source.id as int,
                            ends@[kq].id as int,
                        );
                    }
                }
                let mut k: usize = 0;
                while k < ends.len()
                    invariant
                        k <= ends@.len(),
                        self.wf(),
                        self.states@.len() > n0,
                        end.id < self.states@.len(),
                        source.id < n0,
                        old(self).states@.len() == n0,
                        forall|q: int|
                            0 <= q < ends@.len() ==> n0 <= (#[trigger] ends@[q]).id
                                < self.states@.len(),
                        forall|q: int|
                            0 <= q < n0 && q != source.id ==> self.states@[q] == old(
                                self,
                            ).states@[q],
                        self.states@[source.id as int].epsilon_links@ == old(self).states@[
                            source.id as int
                        ].epsilon_links@.push(Identifier { id: n0 as usize }),
                        self.states@[source.id as int].links == old(self).states@[
                            source.id as int
                        ].links,
                        self.states@[source.id as int].name == old(self).states@[
                            source.id as int
                        ].name,
                        self.states@[source.id as int].callback == old(self).states@[
                            source.id as int
                        ].callback,
                        forall|q: int|
                            n0 <= q < self.states@.len() ==> (#[trigger] self.states@[
                                q
                            ]).name is None,
                        forall|code: int|
                            self.alphabet_segmentation.contains_div(code) <==> (old(
                                self,
                            ).alphabet_segmentation.contains_div(code) || pattern_divs(
                                pattern@,
                            ).contains(code)),
                        !pattern_has_range(pattern@) ==> forall|q: int|
                            n0 <= q < self.states@.len() ==> (#[trigger] self.states@[
                                q
                            ]).links@.len() == 0,
                        any_nullable(vs) ==> exists|kq: int|
                            0 <= kq < ends@.len() && eps_reach(
                                self.states@,
                                source.id as int,
                                (#[trigger] ends@[kq]).id as int,
                            ),
                        forall|q: int|
                            0 <= q < k ==> eps_step(
                                self.states@,
                                (#[trigger] ends@[q]).id as int,
                                end.id as int,
                            ),
                        n0 <= end.id,
                        connect_all(
                            segment_shapes(self.states@, n0),
                            n0,
                            ids_of(ends@).skip(k as int),
                            end.id as int,
                        ) == build_pattern(pattern@, n0).states,
                        end.id == build_pattern(pattern@, n0).ret,
                    decreases ends@.len() - k,
                {
                    let e = ends[k];
                    let ghost st_pre = self.states@;
                    self.connect(e, end);
                    proof {
                        lemma_push_eps_extends(st_pre, self.states@, e.id as int, end);
                        if any_nullable(vs) {
                            let kq = choose|kq: int|
                                0 <= kq < ends@.len() && eps_reach(
                                    st_pre,
                                    source.id as int,
                                    ends@[kq].id as int,
                                );
                            lemma_eps_reach_mono(
                                st_pre,
                                self.states@,
                                source.id as int,
                                ends@[kq].id as int,
                            );
                        }
                        assert forall|q: int|
                            0 <= q < k + 1 implies eps_step(
                            self.states@,
                            (#[trigger] ends@[q]).id as int,
                            end.id as int,
                        ) by {
                            if q < k {
                                lemma_eps_step_mono(
                                    st_pre,
                                    self.states@,
                                    ends@[q].id as int,
                                    end.id as int,
                                );
                            } else {
                                let eps = self.states@[e.id as int].epsilon_links@;
                                assert(eps[eps.len() - 1].id == end.id);
                            }
                        }
                        let seg_pre = segment_shapes(st_pre, n0);
                        assert(segment_shapes(self.states@, n0) =~= push_eps_at(
                            seg_pre,
                            n0,
                            e.id as int,
                            end.id as int,
                        )) by {
                            assert forall|kx: int|
                                0 <= kx < self.states@.len() - n0 implies segment_shapes(
                                self.states@,
                                n0,
                            )[kx] == push_eps_at(seg_pre, n0, e.id as int, end.id as int)[
                                kx
                            ] by {
                                let idx = n0 + kx;
                                if idx == e.id {
                                    assert(self.states@[idx].epsilon_links@ == st_pre[
                                        idx
                                    ].epsilon_links@.push(end));
                                    assert(end == Identifier { id: end.id as usize });
                                    assert(self.states@[idx].links == st_pre[idx].links);
                                    assert(shape_of(self.states@[idx]) =~= push_eps_at(
                                        seg_pre,
                                        n0,
                                        e.id as int,
                                        end.id as int,
                                    )[kx]);
                                } else {
                                    assert(self.states@[idx] == st_pre[idx]);
                                    assert(shape_of(self.states@[idx]) =~= push_eps_at(
                                        seg_pre,
                                        n0,
                                        e.id as int,
                                        end.id as int,
                                    )[kx]);
                                }
                            }
                        }
                        assert(ids_of(ends@).skip(k as int).drop_first() =~= ids_of(ends@).skip(
                            k + 1,
                        ));
                        assert(ids_of(ends@).skip(k as int)[0] == e.id);
                        assert(connect_all(
                            segment_shapes(self.states@, n0),
                            n0,
                            ids_of(ends@).skip(k + 1),
                            end.id as int,
                        ) == build_pattern(pattern@, n0).states);
                    }
                    k += 1;
                }
                proof {
                    if nullable(pattern@) {
                        let kq = choose|kq: int|
                            0 <= kq < ends@.len() && eps_reach(
                                self.states@,
                                source.id as int,
                                ends@[kq].id as int,
                            );
                        lemma_eps_reach_step(
                            self.states@,
                            source.id as int,
                            ends@[kq].id as int,
                            end.id as int,
                        );
                    }
                    assert(ids_of(ends@).skip(ends@.len() as int).len() == 0);
                    assert(segment_shapes(self.states@, n0) == build_pattern(
                        pattern@,
                        n0,
                    ).states);
                }
                end
            },
            Pattern::Always => {
                proof {
                    assert(pattern_divs(pattern@) =~= Set::<int>::empty());
                    assert(self.states@[n0].epsilon_links@ =~= Seq::<Identifier>::empty());
                    assert(self.states@[n0].links@ =~= Seq::<Transition>::empty());
                    assert(shape_of(self.states@[n0]) =~= empty_shape());
                    assert(segment_shapes(self.states@, n0) =~= build_pattern(
                        pattern@,
                        n0,
                    ).states);
                }
                current
            },
            Pattern::Never => {
                // A fresh state with no incoming transition beyond the
                // epsilon from `source` to `current`: the sub-expression is
                // unreachable, so the pattern matches nothing.
                let orphan = self.new_state();
                proof {
                    assert(pattern_divs(pattern@) =~= Set::<int>::empty());
                    assert(self.states@[n0].epsilon_links@ =~= Seq::<Identifier>::empty());
                    assert(self.states@[n0].links@ =~= Seq::<Transition>::empty());
                    assert(shape_of(self.states@[n0]) =~= empty_shape());
                    assert(self.states@[n0 + 1].epsilon_links@ =~= Seq::<Identifier>::empty());
                    assert(self.states@[n0 + 1].links@ =~= Seq::<Transition>::empty());
                    assert(shape_of(self.states@[n0 + 1]) =~= empty_shape());
                    assert(segment_shapes(self.states@, n0) =~= build_pattern(
                        pattern@,
                        n0,
                    ).states);
                }
                orphan
            },
        }
    }


    /// The canonical epsilon-closure of one state: the sorted set of states
    /// reachable from `s` along epsilon links alone, `s` itself included.
    fn eps_closure_of(&self, s: usize) -> (r: Vec<Identifier>)
        requires
            self.wf(),
            s < self.states@.len(),
        ensures
            sorted_ids(r@),
            forall|j: int| 0 <= j < r@.len() ==> (#[trigger] r@[j]).id < self.states@.len(),
            forall|t: int|
                #![trigger contains_id(r@, t)]
                contains_id(r@, t) <==> eps_reach(self.states@, s as int, t),
    {
        let n = self.states.len();
        let mut visited: Vec<bool> = Vec::new();
        let mut i: usize = 0;
        while i < n
            invariant
                i <= n,
                visited@.len() == i,
                forall|k: int| 0 <= k < i ==> !(#[trigger] visited@[k]),
            decreases n - i,
        {
            visited.push(false);
            i += 1;
        }
        let mut cset: Vec<Identifier> = Vec::new();
        cset.push(Identifier { id: s });
        visited[s] = true;
        let mut stack: Vec<usize> = Vec::new();
        stack.push(s);
        proof {
            lemma_eps_reach_self(self.states@, s as int);
            assert(cset@[0].id == s);
            assert forall|t: int| #![trigger contains_id(cset@, t)]
                contains_id(cset@, t) implies t == s by {
                let j = choose|j: int| 0 <= j < cset@.len() && cset@[j].id == t;
            }
            assert(stack@[0] == s);
        }
        while stack.len() > 0
            invariant
                n == self.states@.len(),
                self.wf(),
                s < n,
                visited@.len() == n,
                sorted_ids(cset@),
                cset@.len() <= n,
                forall|t: int|
                    #![trigger contains_id(cset@, t)]
                    contains_id(cset@, t) ==> 0 <= t < n && eps_reach(self.states@, s as int, t),
                forall|t: int| 0 <= t < n ==> ((#[trigger] visited@[t]) <==> contains_id(cset@, t)),
                contains_id(cset@, s as int),
                forall|k: int|
                    0 <= k < stack@.len() ==> (#[trigger] stack@[k]) < n && contains_id(
                        cset@,
                        stack@[k] as int,
                    ),
                forall|t: int, j: int|
                    contains_id(cset@, t) && !in_stack(stack@, t) && 0 <= t < n && 0 <= j
                        < self.states@[t].epsilon_links@.len() ==> contains_id(
                        cset@,
                        #[trigger] self.states@[t].epsilon_links@[j].id as int,
                    ),
            decreases stack@.len() + n - cset@.len(),
        {
            let ghost stack0 = stack@;
            let ghost cset0 = cset@;
            let x = stack.pop().unwrap();
            proof {
                assert(stack0[stack0.len() - 1] == x);
                assert(contains_id(cset@, x as int));
                assert forall|t: int, jj: int|
                    t != x && contains_id(cset@, t) && !in_stack(stack@, t) && 0 <= t < n && 0
                        <= jj < self.states@[t].epsilon_links@.len() implies contains_id(
                    cset@,
                    #[trigger] self.states@[t].epsilon_links@[jj].id as int,
                ) by {
                    assert(!in_stack(stack0, t)) by {
                        if in_stack(stack0, t) {
                            let k = choose|k: int| 0 <= k < stack0.len() && stack0[k] == t;
                            if k < stack0.len() - 1 {
                                assert(stack@[k] == t);
                            }
                        }
                    }
                }
            }
            let mut j: usize = 0;
            let links = self.states[x].epsilon_links.len();
            while j < links
                invariant
                    n == self.states@.len(),
                    self.wf(),
                    s < n,
                    x < n,
                    j <= links,
                    links == self.states@[x as int].epsilon_links@.len(),
                    visited@.len() == n,
                    sorted_ids(cset@),
                    cset@.len() <= n,
                    forall|t: int|
                        #![trigger contains_id(cset@, t)]
                        contains_id(cset@, t) ==> 0 <= t < n && eps_reach(
                            self.states@,
                            s as int,
                            t,
                        ),
                    forall|t: int|
                        0 <= t < n ==> ((#[trigger] visited@[t]) <==> contains_id(cset@, t)),
                    contains_id(cset@, s as int),
                    contains_id(cset@, x as int),
                    forall|k: int|
                        0 <= k < stack@.len() ==> (#[trigger] stack@[k]) < n && contains_id(
                            cset@,
                            stack@[k] as int,
                        ),
                    forall|t: int, jj: int|
                        t != x && contains_id(cset@, t) && !in_stack(stack@, t) && 0 <= t < n && 0
                            <= jj < self.states@[t].epsilon_links@.len() ==> contains_id(
                            cset@,
                            #[trigger] self.states@[t].epsilon_links@[jj].id as int,
                        ),
                    forall|jj: int|
                        0 <= jj < j ==> contains_id(
                            cset@,
                            #[trigger] self.states@[x as int].epsilon_links@[jj].id as int,
                        ),
                    stack@.len() + n - cset@.len() < stack0.len() + n - cset0.len(),
                decreases links - j,
            {
                let t = self.states[x].epsilon_links[j];
                proof {
                    assert(self.states@[x as int].targets_within(n as int));
                    assert(t.id < n);
                }
                if !visited[t.id] {
                    proof {
                        assert(!contains_id(cset@, t.id as int));
                        assert(eps_step(self.states@, x as int, t.id as int)) by {
                            assert(self.states@[x as int].epsilon_links@[j as int].id == t.id);
                        }
                        lemma_eps_reach_step(self.states@, s as int, x as int, t.id as int);
                    }
                    let ghost csetp = cset@;
                    let ghost stackp = stack@;
                    visited[t.id] = true;
                    insert_sorted_id(&mut cset, Identifier { id: t.id });
                    stack.push(t.id);
                    proof {
                        assert forall|jx: int|
                            0 <= jx < cset@.len() implies 0 <= (#[trigger] cset@[jx]).id < n by {
                            assert(contains_id(cset@, cset@[jx].id as int));
                            if contains_id(csetp, cset@[jx].id as int) {
                            } else {
                                assert(cset@[jx].id == t.id);
                            }
                        }
                        lemma_sorted_ids_len(cset@, n as int);
                        assert(in_stack(stack@, t.id as int)) by {
                            assert(stack@[stack@.len() - 1] == t.id);
                        }
                        assert forall|q: int, jj: int|
                            q != x && contains_id(cset@, q) && !in_stack(stack@, q) && 0 <= q < n
                                && 0 <= jj < self.states@[q].epsilon_links@.len() implies contains_id(
                            cset@,
                            #[trigger] self.states@[q].epsilon_links@[jj].id as int,
                        ) by {
                            assert(q != t.id);
                            assert(contains_id(csetp, q));
                            assert(!in_stack(stackp, q)) by {
                                if in_stack(stackp, q) {
                                    let k = choose|k: int|
                                        0 <= k < stackp.len() && stackp[k] == q;
                                    assert(stack@[k] == q);
                                }
                            }
                            assert(contains_id(csetp, self.states@[q].epsilon_links@[jj].id as int));
                        }
                    }
                }
                j += 1;
            }
            proof {
                assert forall|t: int, jj: int|
                    contains_id(cset@, t) && !in_stack(stack@, t) && 0 <= t < n && 0 <= jj
                        < self.states@[t].epsilon_links@.len() implies contains_id(
                    cset@,
                    #[trigger] self.states@[t].epsilon_links@[jj].id as int,
                ) by {
                    if t != x {
                    } else {
                        assert(contains_id(cset@, self.states@[x as int].epsilon_links@[jj].id as int));
                    }
                }
            }
        }
        proof {
            assert forall|t: int|
                eps_reach(self.states@, s as int, t) implies contains_id(cset@, t) by {
                let p = choose|p: Seq<int>|
                    is_eps_path(self.states@, p) && p[0] == s as int && p.last() == t;
                lemma_path_in_closed(self.states@, cset@, p);
            }
            assert forall|jx: int| 0 <= jx < cset@.len() implies (#[trigger] cset@[jx]).id < n by {
                assert(contains_id(cset@, cset@[jx].id as int));
            }
        }
        cset
    }

    /// The epsilon-closure of every state, in state order: row `s` is the
    /// canonical sorted set of states reachable from `s` along epsilon links
    /// alone, which gives subset construction its canonical keys.
    pub fn eps_matrix(&self) -> (r: Vec<Vec<Identifier>>)
        requires
            self.wf(),
        ensures
            r@.len() == self.states@.len(),
            forall|s: int| 0 <= s < r@.len() ==> sorted_ids((#[trigger] r@[s])@),
            forall|s: int, j: int|
                0 <= s < r@.len() && 0 <= j < r@[s]@.len() ==> (#[trigger] r@[s]@[j]).id
                    < self.states@.len(),
            forall|s: int, t: int|
                #![trigger contains_id(r@[s]@, t)]
                0 <= s < r@.len() ==> (contains_id(r@[s]@, t) <==> eps_reach(
                    self.states@,
                    s,
                    t,
                )),
    {
        let n = self.states.len();
        let mut result: Vec<Vec<Identifier>> = Vec::new();
        let mut s: usize = 0;
        while s < n
            invariant
                n == self.states@.len(),
                self.wf(),
                s <= n,
                result@.len() == s,
                forall|q: int| 0 <= q < s ==> sorted_ids((#[trigger] result@[q])@),
                forall|q: int, j: int|
                    0 <= q < s && 0 <= j < result@[q]@.len() ==> (#[trigger] result@[q]@[j]).id
                        < n,
                forall|q: int, t: int|
                    #![trigger contains_id(result@[q]@, t)]
                    0 <= q < s ==> (contains_id(result@[q]@, t) <==> eps_reach(
                        self.states@,
                        q,
                        t,
                    )),
            decreases n - s,
        {
            let closure = self.eps_closure_of(s);
            let ghost r0 = result@;
            result.push(closure);
            proof {
                assert forall|q: int, t: int|
                    #![trigger contains_id(result@[q]@, t)]
                    0 <= q < s + 1 implies (contains_id(result@[q]@, t) <==> eps_reach(
                    self.states@,
                    q,
                    t,
                )) by {
                    if q < s {
                        assert(result@[q] == r0[q]);
                    } else {
                        assert(result@[q] == closure);
                    }
                }
            }
            s += 1;
        }
        result
    }

    /// The state-and-column transition snapshot of the automaton, ignoring
    /// epsilon links: one row per state, one column per alphabet division,
    /// each cell the target claimed by that division or the invalid state.
    pub fn nfa_matrix(&self) -> (m: Matrix)
        ensures
            m.wf(),
            m.spec_rows() == self.states@.len(),
            m.cols == self.alphabet_segmentation.divisions@.len(),
            forall|i: int, j: int|
                0 <= i < self.states@.len() && 0 <= j < m.cols ==> m.cell(i, j) == (
                match chosen_link(
                    self.states@[i].links@,
                    self.alphabet_segmentation.divisions@[j].value as int,
                ) {
                    Option::Some(t) => t.target_state,
                    Option::None => Identifier { id: INVALID_ID },
                }),
    {
        let cols = self.alphabet_segmentation.len();
        let mut m = Matrix { cols, cells: Vec::new() };
        let mut i: usize = 0;
        while i < self.states.len()
            invariant
                i <= self.states@.len(),
                m.cols == self.alphabet_segmentation.divisions@.len(),
                m.spec_rows() == i,
                m.wf(),
                forall|q: int, j: int|
                    0 <= q < i && 0 <= j < m.cols ==> m.cell(q, j) == (match chosen_link(
                        self.states@[q].links@,
                        self.alphabet_segmentation.divisions@[j].value as int,
                    ) {
                        Option::Some(t) => t.target_state,
                        Option::None => Identifier { id: INVALID_ID },
                    }),
            decreases self.states@.len() - i,
        {
            let row = self.states[i].targets(&self.alphabet_segmentation);
            let ghost m0 = m;
            m.cells.push(row);
            proof {
                assert forall|q: int, j: int|
                    0 <= q < i + 1 && 0 <= j < m.cols implies m.cell(q, j) == (match chosen_link(
                        self.states@[q].links@,
                        self.alphabet_segmentation.divisions@[j].value as int,
                    ) {
                        Option::Some(t) => t.target_state,
                        Option::None => Identifier { id: INVALID_ID },
                    }) by {
                    if q < i {
                        assert(m.cells@[q] == m0.cells@[q]);
                        assert(m0.cell(q, j) == (match chosen_link(
                            self.states@[q].links@,
                            self.alphabet_segmentation.divisions@[j].value as int,
                        ) {
                            Option::Some(t) => t.target_state,
                            Option::None => Identifier { id: INVALID_ID },
                        }));
                    } else {
                        assert(m.cells@[q] == row);
                    }
                }
            }
            i += 1;
        }
        m
    }
}

} // verus!
