//! Deterministic finite automata, built from an NFA by subset construction
//! over epsilon-closures: a transition matrix indexed by state and alphabet
//! class, plus the callback binding of every accepting state.

use vstd::prelude::*;

use crate::alphabet::Segmentation;
use crate::matrix::Matrix;
use crate::nfa::{contains_id, contains_id_exec, eps_reach, insert_sorted_id, sorted_ids, NFA};
use crate::state::{chosen_link, State};
use crate::symbol::Symbol;
use crate::state::{Identifier, INVALID_ID};

verus! {

/// The callback bound to an accepting state of a DFA: the canonical name of
/// the rule the state accepts, with the priority downstream code generators
/// use to stage several automata.
#[derive(Clone, Debug, PartialEq, Eq)]
pub struct RuleExecutable {
    /// The priority with which the callback is staged during code
    /// generation.
    pub priority: usize,
    /// The code to run when the callback triggers.
    pub code: String,
}

impl RuleExecutable {
    /// Creates a new rule executable with the provided priority and code.
    pub fn new(priority: usize, code_str: &str) -> (r: RuleExecutable)
        ensures
            r.priority == priority,
            r.code@ == code_str@,
    {
        RuleExecutable { priority, code: code_str.to_owned() }
    }
}

/// A deterministic finite automaton: a transition matrix over the alphabet
/// segmentation inherited from its NFA, and one optional callback per state.
/// The start state is row 0; a cell holding the invalid state rejects.
#[derive(Clone, Debug, PartialEq, Eq)]
pub struct DFA {
    /// The disjoint intervals of the input alphabet.
    pub alphabet_segmentation: Segmentation,
    /// The transition matrix: `(state, class) -> state`.
    pub links: Matrix,
    /// The callback of each accepting state, indexed by state.
    pub callbacks: Vec<Option<RuleExecutable>>,
}

impl DFA {
    /// Whether the DFA binds a rule callback to `target_state`.
    pub fn has_rule_for(&self, target_state: Identifier) -> (r: bool)
        ensures
            r == (target_state.id < self.callbacks@.len() && self.callbacks@[
                target_state.id as int
            ] is Some),
    {
        target_state.id < self.callbacks.len() && self.callbacks[target_state.id].is_some()
    }
}


impl DFA {
    /// Transforms an NFA into a DFA by subset construction over
    /// epsilon-closures.
    ///
    /// The DFA keeps the NFA's alphabet; row 0 stands for the epsilon-closure
    /// of the NFA start; every live cell indexes a row of the matrix; every
    /// bound callback carries the name of an accepting NFA state and the
    /// priority shared by the whole compilation, the number of DFA states; an
    /// NFA without symbol transitions yields the single all-rejecting row; an
    /// NFA without named states binds no callback; and the start row's
    /// callback is the name of the least accepting state the NFA start
    /// reaches by epsilon links, when one exists.
    pub fn from_nfa(nfa: &NFA) -> (r: DFA)
        requires
            nfa.wf(),
            nfa.states@.len() >= 1,
        ensures
            r.alphabet_segmentation.divisions@ == nfa.alphabet_segmentation.divisions@,
            r.links.wf(),
            r.links.cols == nfa.alphabet_segmentation.divisions@.len(),
            r.links.spec_rows() == r.callbacks@.len(),
            r.links.spec_rows() >= 1,
            forall|i: int, j: int|
                0 <= i < r.links.spec_rows() && 0 <= j < r.links.cols && (#[trigger] r.links.cell(
                    i,
                    j,
                )).id != INVALID_ID ==> r.links.cell(i, j).id < r.links.spec_rows(),
            forall|d: int|
                0 <= d < r.callbacks@.len() ==> ((#[trigger] r.callbacks@[d]) matches Some(re)
                    ==> re.priority == r.callbacks@.len()),
            forall|d: int|
                0 <= d < r.callbacks@.len() ==> ((#[trigger] r.callbacks@[d]) matches Some(re)
                    ==> exists|t: int|
                    0 <= t < nfa.states@.len() && ((#[trigger] nfa.states@[t]).name matches Some(
                        nm,
                    ) && nm@ == re.code@)),
            (forall|q: int|
                0 <= q < nfa.states@.len() ==> (#[trigger] nfa.states@[q]).links@.len() == 0) ==> (
            r.links.spec_rows() == 1 && forall|j: int|
                0 <= j < r.links.cols ==> r.links.cell(0, j).id == INVALID_ID),
            (forall|q: int|
                0 <= q < nfa.states@.len() ==> (#[trigger] nfa.states@[q]).name is None)
                ==> forall|d: int| 0 <= d < r.callbacks@.len() ==> r.callbacks@[d] is None,
            (r.callbacks@[0] is Some <==> exists|t: int|
                0 <= t < nfa.states@.len() && eps_reach(nfa.states@, 0, t) && (
                #[trigger] nfa.states@[t]).name is Some),
            r.callbacks@[0] matches Some(re) ==> exists|t: int|
                0 <= t < nfa.states@.len() && eps_reach(nfa.states@, 0, t) && ((
                #[trigger] nfa.states@[t]).name matches Some(nm) && nm@ == re.code@) && forall|
                    u: int,
                |
                    0 <= u < t && eps_reach(nfa.states@, 0, u) ==> nfa.states@[u].name is None,
            exists|sets: Seq<Vec<Identifier>>| #[trigger] subset_construction(*nfa, r, sets),
    {
        let n = nfa.states.len();
        let nfa_mat = nfa.nfa_matrix();
        let eps_mat = nfa.eps_matrix();
        let cols = nfa.alphabet_segmentation.len();
        let ghost linkless = forall|q: int|
            0 <= q < nfa.states@.len() ==> (#[trigger] nfa.states@[q]).links@.len() == 0;
        proof {
            assert forall|a: int, b: int|
                0 <= a < n && 0 <= b < cols && (#[trigger] nfa_mat.cell(a, b)).id
                    != INVALID_ID implies nfa_mat.cell(a, b).id < n by {
                let code = nfa.alphabet_segmentation.divisions@[b].value as int;
                crate::state::lemma_chosen_link(nfa.states@[a].links@, code);
                match crate::state::chosen_link(nfa.states@[a].links@, code) {
                    Option::Some(t) => {
                        let ix = choose|ix: int|
                            0 <= ix < nfa.states@[a].links@.len() && nfa.states@[a].links@[ix]
                                == t;
                        assert(nfa.states@[a].targets_within(n as int));
                        assert(nfa.states@[a].links@[ix].target_state.id < n);
                    },
                    Option::None => {},
                }
            }
            assert forall|a: int, b: int|
                linkless && 0 <= a < n && 0 <= b < cols implies (#[trigger] nfa_mat.cell(a, b)).id
                    == INVALID_ID by {
                if linkless {
                    assert(nfa.states@[a].links@.len() == 0);
                }
            }
        }
        proof {
            assert(matrix_matches(*nfa, nfa_mat));
            assert(closures_match(*nfa, eps_mat@));
        }
        let mut dfa_mat = Matrix::new(0, cols);
        let mut dfa_eps_ixs: Vec<Vec<Identifier>> = Vec::new();
        let first = copy_ids(&eps_mat[0]);
        dfa_eps_ixs.push(first);
        let mut i: usize = 0;
        while i < dfa_eps_ixs.len()
            invariant
                n == nfa.states@.len(),
                n >= 1,
                nfa.wf(),
                cols == nfa.alphabet_segmentation.divisions@.len(),
                nfa_mat.wf(),
                nfa_mat.spec_rows() == n,
                nfa_mat.cols == cols,
                forall|a: int, b: int|
                    0 <= a < n && 0 <= b < cols && (#[trigger] nfa_mat.cell(a, b)).id
                        != INVALID_ID ==> nfa_mat.cell(a, b).id < n,
                linkless == (forall|q: int|
                    0 <= q < nfa.states@.len() ==> (#[trigger] nfa.states@[q]).links@.len() == 0),
                linkless ==> forall|a: int, b: int|
                    0 <= a < n && 0 <= b < cols ==> (#[trigger] nfa_mat.cell(a, b)).id
                        == INVALID_ID,
                eps_mat@.len() == n,
                forall|sq: int, jq: int|
                    0 <= sq < n && 0 <= jq < eps_mat@[sq]@.len() ==> (#[trigger] eps_mat@[sq]@[
                        jq
                    ]).id < n,
                forall|sq: int| 0 <= sq < n ==> sorted_ids((#[trigger] eps_mat@[sq])@),
                dfa_eps_ixs@.len() >= 1,
                dfa_eps_ixs@[0]@ == eps_mat@[0]@,
                i <= dfa_eps_ixs@.len(),
                forall|d: int|
                    0 <= d < dfa_eps_ixs@.len() ==> sorted_ids((#[trigger] dfa_eps_ixs@[d])@),
                forall|d: int, k: int|
                    0 <= d < dfa_eps_ixs@.len() && 0 <= k < dfa_eps_ixs@[d]@.len() ==> (
                    #[trigger] dfa_eps_ixs@[d]@[k]).id < n,
                matrix_matches(*nfa, nfa_mat),
                closures_match(*nfa, eps_mat@),
                forall|d: int, d2: int|
                    #![trigger dfa_eps_ixs@[d], dfa_eps_ixs@[d2]]
                    0 <= d < d2 < dfa_eps_ixs@.len() ==> dfa_eps_ixs@[d]@ != dfa_eps_ixs@[d2]@,
                dfa_mat.wf(),
                dfa_mat.cols == cols,
                dfa_mat.spec_rows() == i,
                forall|a: int, b: int|
                    0 <= a < i && 0 <= b < cols && (#[trigger] dfa_mat.cell(a, b)).id != INVALID_ID
                        ==> dfa_mat.cell(a, b).id < dfa_eps_ixs@.len(),
                forall|a: int, j: int|
                    0 <= a < i && 0 <= j < cols ==> #[trigger] cell_resolved(
                        *nfa,
                        dfa_mat,
                        dfa_eps_ixs@,
                        a,
                        j,
                    ),
                forall|e: int|
                    1 <= e < dfa_eps_ixs@.len() ==> #[trigger] row_discovered(
                        dfa_mat,
                        e,
                        i as int,
                        cols as int,
                    ),
                linkless ==> (dfa_eps_ixs@.len() == 1 && forall|a: int, b: int|
                    0 <= a < i && 0 <= b < cols ==> (#[trigger] dfa_mat.cell(a, b)).id
                        == INVALID_ID),
            decreases usize::MAX - i,
        {
            let ghost m0 = dfa_mat;
            dfa_mat.new_row();
            proof {
                assert forall|a: int, b: int|
                    0 <= a <= i && 0 <= b < cols && (#[trigger] dfa_mat.cell(a, b)).id
                        != INVALID_ID implies dfa_mat.cell(a, b).id < dfa_eps_ixs@.len() by {
                    if a < i {
                        assert(dfa_mat.cells@[a] == m0.cells@[a]);
                        assert(m0.cell(a, b).id != INVALID_ID ==> m0.cell(a, b).id
                            < dfa_eps_ixs@.len());
                    } else {
                        assert(dfa_mat.cell(a, b).id == INVALID_ID);
                    }
                }
                if linkless {
                    assert forall|a: int, b: int|
                        0 <= a <= i && 0 <= b < cols implies (#[trigger] dfa_mat.cell(a, b)).id
                            == INVALID_ID by {
                        if a < i {
                            assert(dfa_mat.cells@[a] == m0.cells@[a]);
                            assert(m0.cell(a, b).id == INVALID_ID);
                        } else {
                            assert(dfa_mat.cell(a, b).id == INVALID_ID);
                        }
                    }
                }
                assert forall|a: int, j: int|
                    0 <= a < i && 0 <= j < cols implies #[trigger] cell_resolved(
                    *nfa,
                    dfa_mat,
                    dfa_eps_ixs@,
                    a,
                    j,
                ) by {
                    assert(dfa_mat.cells@[a] == m0.cells@[a]);
                    assert(dfa_mat.cell(a, j) == m0.cell(a, j));
                    lemma_cell_resolved_stable(
                        *nfa,
                        m0,
                        dfa_mat,
                        dfa_eps_ixs@,
                        dfa_eps_ixs@,
                        a,
                        j,
                    );
                }
                assert forall|e: int|
                    1 <= e < dfa_eps_ixs@.len() implies #[trigger] row_discovered(
                    dfa_mat,
                    e,
                    i + 1,
                    cols as int,
                ) by {
                    assert(row_discovered(m0, e, i as int, cols as int));
                    let (dq, jq) = choose|dq: int, jq: int|
                        0 <= dq < e && dq < i && 0 <= jq < cols && (#[trigger] m0.cell(dq, jq)).id
                            == e;
                    assert(dfa_mat.cells@[dq] == m0.cells@[dq]);
                    assert(dfa_mat.cell(dq, jq).id == e);
                }
            }
            let mut voc_ix: usize = 0;
            while voc_ix < cols
                invariant
                    n == nfa.states@.len(),
                    n >= 1,
                    nfa.wf(),
                    cols == nfa.alphabet_segmentation.divisions@.len(),
                    nfa_mat.wf(),
                    nfa_mat.spec_rows() == n,
                    nfa_mat.cols == cols,
                    forall|a: int, b: int|
                        0 <= a < n && 0 <= b < cols && (#[trigger] nfa_mat.cell(a, b)).id
                            != INVALID_ID ==> nfa_mat.cell(a, b).id < n,
                    linkless == (forall|q: int|
                        0 <= q < nfa.states@.len() ==> (#[trigger] nfa.states@[q]).links@.len()
                            == 0),
                    linkless ==> forall|a: int, b: int|
                        0 <= a < n && 0 <= b < cols ==> (#[trigger] nfa_mat.cell(a, b)).id
                            == INVALID_ID,
                    eps_mat@.len() == n,
                    forall|sq: int, jq: int|
                        0 <= sq < n && 0 <= jq < eps_mat@[sq]@.len() ==> (#[trigger] eps_mat@[sq]@[
                            jq
                        ]).id < n,
                    forall|sq: int| 0 <= sq < n ==> sorted_ids((#[trigger] eps_mat@[sq])@),
                    dfa_eps_ixs@.len() >= 1,
                    dfa_eps_ixs@[0]@ == eps_mat@[0]@,
                    i < dfa_eps_ixs@.len(),
                    voc_ix <= cols,
                    forall|d: int|
                        0 <= d < dfa_eps_ixs@.len() ==> sorted_ids((#[trigger] dfa_eps_ixs@[d])@),
                    forall|d: int, k: int|
                        0 <= d < dfa_eps_ixs@.len() && 0 <= k < dfa_eps_ixs@[d]@.len() ==> (
                        #[trigger] dfa_eps_ixs@[d]@[k]).id < n,
                    matrix_matches(*nfa, nfa_mat),
                    closures_match(*nfa, eps_mat@),
                    forall|d: int, d2: int|
                        #![trigger dfa_eps_ixs@[d], dfa_eps_ixs@[d2]]
                        0 <= d < d2 < dfa_eps_ixs@.len() ==> dfa_eps_ixs@[d]@ != dfa_eps_ixs@[d2]@,
                    dfa_mat.wf(),
                    dfa_mat.cols == cols,
                    dfa_mat.spec_rows() == i + 1,
                    forall|a: int, b: int|
                        0 <= a <= i && 0 <= b < cols && (#[trigger] dfa_mat.cell(a, b)).id
                            != INVALID_ID ==> dfa_mat.cell(a, b).id < dfa_eps_ixs@.len(),
                    forall|a: int, j: int|
                        0 <= a < i && 0 <= j < cols ==> #[trigger] cell_resolved(
                            *nfa,
                            dfa_mat,
                            dfa_eps_ixs@,
                            a,
                            j,
                        ),
                    forall|j: int|
                        0 <= j < voc_ix ==> #[trigger] cell_resolved(
                            *nfa,
                            dfa_mat,
                            dfa_eps_ixs@,
                            i as int,
                            j,
                        ),
                    forall|j: int|
                        voc_ix <= j < cols ==> dfa_mat.cell(i as int, j).id == INVALID_ID,
                    forall|e: int|
                        1 <= e < dfa_eps_ixs@.len() ==> #[trigger] row_discovered(
                            dfa_mat,
                            e,
                            i + 1,
                            cols as int,
                        ),
                    linkless ==> (dfa_eps_ixs@.len() == 1 && forall|a: int, b: int|
                        0 <= a <= i && 0 <= b < cols ==> (#[trigger] dfa_mat.cell(a, b)).id
                            == INVALID_ID),
                decreases cols - voc_ix,
            {
                let mut eps_set: Vec<Identifier> = Vec::new();
                let set_len = dfa_eps_ixs[i].len();
                let ghost src = dfa_eps_ixs@[i as int]@;
                let ghost states = nfa.states@;
                let ghost divisions = nfa.alphabet_segmentation.divisions@;
                let mut k: usize = 0;
                while k < set_len
                    invariant
                        n == nfa.states@.len(),
                        nfa.wf(),
                        states == nfa.states@,
                        divisions == nfa.alphabet_segmentation.divisions@,
                        nfa_mat.wf(),
                        nfa_mat.spec_rows() == n,
                        nfa_mat.cols == cols,
                        voc_ix < cols,
                        cols == divisions.len(),
                        matrix_matches(*nfa, nfa_mat),
                        closures_match(*nfa, eps_mat@),
                        forall|a: int, b: int|
                            0 <= a < n && 0 <= b < cols && (#[trigger] nfa_mat.cell(a, b)).id
                                != INVALID_ID ==> nfa_mat.cell(a, b).id < n,
                        linkless == (forall|q: int|
                            0 <= q < nfa.states@.len() ==> (#[trigger] nfa.states@[
                                q
                            ]).links@.len() == 0),
                        linkless ==> forall|a: int, b: int|
                            0 <= a < n && 0 <= b < cols ==> (#[trigger] nfa_mat.cell(a, b)).id
                                == INVALID_ID,
                        eps_mat@.len() == n,
                        forall|sq: int, jq: int|
                            0 <= sq < n && 0 <= jq < eps_mat@[sq]@.len() ==> (#[trigger] eps_mat@[
                                sq
                            ]@[jq]).id < n,
                        i < dfa_eps_ixs@.len(),
                        src == dfa_eps_ixs@[i as int]@,
                        set_len == src.len(),
                        k <= set_len,
                        forall|d: int, kq: int|
                            0 <= d < dfa_eps_ixs@.len() && 0 <= kq < dfa_eps_ixs@[d]@.len() ==> (
                            #[trigger] dfa_eps_ixs@[d]@[kq]).id < n,
                        sorted_ids(eps_set@),
                        forall|t: int|
                            #![trigger contains_id(eps_set@, t)]
                            contains_id(eps_set@, t) ==> 0 <= t < n,
                        forall|t: int|
                            #![trigger contains_id(eps_set@, t)]
                            contains_id(eps_set@, t) <==> exists|k2: int|
                                0 <= k2 < k && ((#[trigger] chosen_link(
                                    states[src[k2].id as int].links@,
                                    divisions[voc_ix as int].value as int,
                                )) matches Some(tr) && eps_reach(
                                    states,
                                    tr.target_state.id as int,
                                    t,
                                )),
                        linkless ==> eps_set@.len() == 0,
                    decreases set_len - k,
                {
                    let st = dfa_eps_ixs[i][k];
                    let tgt = nfa_mat.get(st.id, voc_ix);
                    let ghost before = eps_set@;
                    if tgt.id != INVALID_ID {
                        proof {
                            if linkless {
                                assert(nfa_mat.cell(st.id as int, voc_ix as int).id
                                    == INVALID_ID);
                            }
                        }
                        merge_ids(&mut eps_set, &eps_mat[tgt.id]);
                        proof {
                            assert forall|t: int|
                                #![trigger contains_id(eps_set@, t)]
                                contains_id(eps_set@, t) implies 0 <= t < n by {
                                if !contains_id(before, t) {
                                    assert(contains_id(eps_mat@[tgt.id as int]@, t));
                                    let q = choose|q: int|
                                        0 <= q < eps_mat@[tgt.id as int]@.len() && eps_mat@[
                                            tgt.id as int
                                        ]@[q].id == t;
                                }
                            }
                            // The consumed transition is the chosen link of the
                            // member just visited.
                            let cl = chosen_link(
                                states[src[k as int].id as int].links@,
                                divisions[voc_ix as int].value as int,
                            );
                            assert(cl matches Some(tr) && tr.target_state == tgt);
                            assert forall|t: int|
                                #![trigger contains_id(eps_set@, t)]
                                contains_id(eps_set@, t) <==> exists|k2: int|
                                    0 <= k2 < k + 1 && ((#[trigger] chosen_link(
                                        states[src[k2].id as int].links@,
                                        divisions[voc_ix as int].value as int,
                                    )) matches Some(tr) && eps_reach(
                                        states,
                                        tr.target_state.id as int,
                                        t,
                                    )) by {
                                if contains_id(eps_set@, t) {
                                    if contains_id(before, t) {
                                    } else {
                                        assert(contains_id(eps_mat@[tgt.id as int]@, t));
                                        assert(eps_reach(states, tgt.id as int, t));
                                    }
                                } else {
                                    assert(!contains_id(before, t));
                                    assert(!contains_id(eps_mat@[tgt.id as int]@, t));
                                }
                            }
                        }
                    } else {
                        proof {
                            let cl = chosen_link(
                                states[src[k as int].id as int].links@,
                                divisions[voc_ix as int].value as int,
                            );
                            assert(cl is None) by {
                                match cl {
                                    Option::Some(tr) => {
                                        assert(nfa_mat.cell(st.id as int, voc_ix as int)
                                            == tr.target_state);
                                        crate::state::lemma_chosen_link(
                                            states[st.id as int].links@,
                                            divisions[voc_ix as int].value as int,
                                        );
                                        let ix = choose|ix: int|
                                            0 <= ix < states[st.id as int].links@.len()
                                                && states[st.id as int].links@[ix] == tr;
                                        assert(nfa.states@[st.id as int].targets_within(n as int));
                                        assert(states[st.id as int].links@[ix].target_state.id
                                            < n);
                                    },
                                    Option::None => {},
                                }
                            }
                            assert forall|t: int|
                                #![trigger contains_id(eps_set@, t)]
                                contains_id(eps_set@, t) <==> exists|k2: int|
                                    0 <= k2 < k + 1 && ((#[trigger] chosen_link(
                                        states[src[k2].id as int].links@,
                                        divisions[voc_ix as int].value as int,
                                    )) matches Some(tr) && eps_reach(
                                        states,
                                        tr.target_state.id as int,
                                        t,
                                    )) by {}
                        }
                    }
                    k += 1;
                }
                proof {
                    assert forall|t: int|
                        #![trigger contains_id(eps_set@, t)]
                        contains_id(eps_set@, t) <==> class_successor_of(
                        states,
                        divisions,
                        src,
                        voc_ix as int,
                        t,
                    ) by {}
                }
                let ghost sets_before = dfa_eps_ixs@;
                let ghost mat_before = dfa_mat;
                if eps_set.len() > 0 {
                    proof {
                        assert(!linkless);
                        assert(contains_id(eps_set@, eps_set@[0].id as int));
                        assert(class_successor_of(
                            states,
                            divisions,
                            src,
                            voc_ix as int,
                            eps_set@[0].id as int,
                        ));
                    }
                    let ghost target_view = eps_set@;
                    let id = match find_set(&dfa_eps_ixs, &eps_set) {
                        Some(ix) => ix,
                        None => {
                            let ix = dfa_eps_ixs.len();
                            let ghost sets0 = dfa_eps_ixs@;
                            proof {
                                assert forall|t: int|
                                    0 <= t < eps_set@.len() implies (#[trigger] eps_set@[t]).id
                                        < n by {
                                    assert(contains_id(eps_set@, eps_set@[t].id as int));
                                }
                            }
                            dfa_eps_ixs.push(eps_set);
                            proof {
                                assert forall|d: int|
                                    0 <= d < dfa_eps_ixs@.len() implies sorted_ids((
                                #[trigger] dfa_eps_ixs@[d])@) by {
                                    if d < sets0.len() {
                                        assert(dfa_eps_ixs@[d] == sets0[d]);
                                    }
                                }
                                assert forall|d: int, kq: int|
                                    0 <= d < dfa_eps_ixs@.len() && 0 <= kq
                                        < dfa_eps_ixs@[d]@.len() implies (
                                #[trigger] dfa_eps_ixs@[d]@[kq]).id < n by {
                                    if d < sets0.len() {
                                        assert(dfa_eps_ixs@[d] == sets0[d]);
                                    }
                                }
                                assert(dfa_eps_ixs@[0] == sets0[0]);
                                assert forall|dq: int, d2: int|
                                    #![trigger dfa_eps_ixs@[dq], dfa_eps_ixs@[d2]]
                                    0 <= dq < d2 < dfa_eps_ixs@.len() implies dfa_eps_ixs@[dq]@
                                    != dfa_eps_ixs@[d2]@ by {
                                    if d2 < sets0.len() {
                                        assert(dfa_eps_ixs@[dq] == sets0[dq]);
                                        assert(dfa_eps_ixs@[d2] == sets0[d2]);
                                    } else {
                                        assert(dfa_eps_ixs@[dq] == sets0[dq]);
                                        assert(sets0[dq]@ != target_view);
                                    }
                                }
                            }
                            ix
                        },
                    };
                    proof {
                        assert(dfa_eps_ixs@[id as int]@ == target_view);
                    }
                    let total_sets = dfa_eps_ixs.len();
                    dfa_mat.set(i, voc_ix, Identifier { id });
                    proof {
                        assert(dfa_eps_ixs@.len() == total_sets);
                        assert forall|e: int|
                            1 <= e < dfa_eps_ixs@.len() implies #[trigger] row_discovered(
                            dfa_mat,
                            e,
                            i + 1,
                            cols as int,
                        ) by {
                            if e < sets_before.len() {
                                assert(row_discovered(mat_before, e, i + 1, cols as int));
                                let (dq, jq) = choose|dq: int, jq: int|
                                    0 <= dq < e && dq < i + 1 && 0 <= jq < cols && (
                                    #[trigger] mat_before.cell(dq, jq)).id == e;
                                assert(e < usize::MAX);
                                assert(!(dq == i && jq == voc_ix)) by {
                                    assert(mat_before.cell(i as int, voc_ix as int).id
                                        == INVALID_ID);
                                }
                                assert(dfa_mat.cell(dq, jq) == mat_before.cell(dq, jq));
                            } else {
                                assert(e == id);
                                assert(dfa_mat.cell(i as int, voc_ix as int).id == e);
                            }
                        }
                        assert forall|a: int, j: int|
                            0 <= a < i && 0 <= j < cols implies #[trigger] cell_resolved(
                            *nfa,
                            dfa_mat,
                            dfa_eps_ixs@,
                            a,
                            j,
                        ) by {
                            assert(dfa_mat.cell(a, j) == mat_before.cell(a, j));
                            assert(forall|dq: int|
                                0 <= dq < sets_before.len() ==> #[trigger] dfa_eps_ixs@[dq]
                                    == sets_before[dq]);
                            lemma_cell_resolved_stable(
                                *nfa,
                                mat_before,
                                dfa_mat,
                                sets_before,
                                dfa_eps_ixs@,
                                a,
                                j,
                            );
                        }
                        assert forall|j: int|
                            0 <= j < voc_ix + 1 implies #[trigger] cell_resolved(
                            *nfa,
                            dfa_mat,
                            dfa_eps_ixs@,
                            i as int,
                            j,
                        ) by {
                            if j < voc_ix {
                                assert(dfa_mat.cell(i as int, j) == mat_before.cell(i as int, j));
                                assert(forall|dq: int|
                                    0 <= dq < sets_before.len() ==> #[trigger] dfa_eps_ixs@[dq]
                                        == sets_before[dq]);
                                lemma_cell_resolved_stable(
                                    *nfa,
                                    mat_before,
                                    dfa_mat,
                                    sets_before,
                                    dfa_eps_ixs@,
                                    i as int,
                                    j,
                                );
                            } else {
                                assert(dfa_mat.cell(i as int, j).id == id);
                                assert(dfa_eps_ixs@[i as int]@ == src);
                            }
                        }
                    }
                } else {
                    proof {
                        assert forall|t: int|
                            !class_successor_of(states, divisions, src, voc_ix as int, t) by {
                            if class_successor_of(states, divisions, src, voc_ix as int, t) {
                                assert(contains_id(eps_set@, t));
                            }
                        }
                        assert forall|j: int|
                            0 <= j < voc_ix + 1 implies #[trigger] cell_resolved(
                            *nfa,
                            dfa_mat,
                            dfa_eps_ixs@,
                            i as int,
                            j,
                        ) by {
                            if j == voc_ix {
                                assert(dfa_mat.cell(i as int, j).id == INVALID_ID);
                                assert(dfa_eps_ixs@[i as int]@ == src);
                            }
                        }
                    }
                }
                voc_ix += 1;
            }
            i += 1;
            proof {
                assert forall|e: int|
                    1 <= e < dfa_eps_ixs@.len() implies #[trigger] row_discovered(
                    dfa_mat,
                    e,
                    i as int,
                    cols as int,
                ) by {
                    assert(row_discovered(dfa_mat, e, (i - 1) + 1, cols as int));
                }
            }
        }
        let num_states = dfa_eps_ixs.len();
        let ghost unnamed = forall|q: int|
            0 <= q < nfa.states@.len() ==> (#[trigger] nfa.states@[q]).name is None;
        let mut callbacks: Vec<Option<RuleExecutable>> = Vec::new();
        let mut d: usize = 0;
        while d < num_states
            invariant
                n == nfa.states@.len(),
                n >= 1,
                nfa.wf(),
                num_states == dfa_eps_ixs@.len(),
                num_states >= 1,
                dfa_eps_ixs@[0]@ == eps_mat@[0]@,
                eps_mat@.len() == n,
                sorted_ids(eps_mat@[0]@),
                forall|t: int|
                    #![trigger contains_id(eps_mat@[0]@, t)]
                    contains_id(eps_mat@[0]@, t) <==> eps_reach(nfa.states@, 0, t),
                forall|dq: int|
                    0 <= dq < dfa_eps_ixs@.len() ==> sorted_ids((#[trigger] dfa_eps_ixs@[dq])@),
                forall|dq: int, kq: int|
                    0 <= dq < dfa_eps_ixs@.len() && 0 <= kq < dfa_eps_ixs@[dq]@.len() ==> (
                    #[trigger] dfa_eps_ixs@[dq]@[kq]).id < n,
                unnamed == (forall|q: int|
                    0 <= q < nfa.states@.len() ==> (#[trigger] nfa.states@[q]).name is None),
                d <= num_states,
                callbacks@.len() == d,
                forall|dd: int|
                    0 <= dd < d ==> ((#[trigger] callbacks@[dd]) matches Some(re) ==> re.priority
                        == num_states && exists|t: int|
                        0 <= t < n && ((#[trigger] nfa.states@[t]).name matches Some(nm) && nm@
                            == re.code@)),
                unnamed ==> forall|dd: int| 0 <= dd < d ==> (#[trigger] callbacks@[dd]) is None,
                forall|dd: int|
                    0 <= dd < d ==> #[trigger] callback_resolved(
                        nfa.states@,
                        callbacks@[dd],
                        dfa_eps_ixs@[dd]@,
                    ),
                d >= 1 ==> (callbacks@[0] is Some <==> exists|t: int|
                    0 <= t < n && eps_reach(nfa.states@, 0, t) && (
                    #[trigger] nfa.states@[t]).name is Some),
                d >= 1 ==> (callbacks@[0] matches Some(re) ==> exists|t: int|
                    0 <= t < n && eps_reach(nfa.states@, 0, t) && ((
                    #[trigger] nfa.states@[t]).name matches Some(nm) && nm@ == re.code@) && forall|
                        u: int,
                    |
                        0 <= u < t && eps_reach(nfa.states@, 0, u) ==> nfa.states@[
                            u
                        ].name is None),
            decreases num_states - d,
        {
            let ghost set = dfa_eps_ixs@[d as int]@;
            let set_len = dfa_eps_ixs[d].len();
            let mut res: Option<RuleExecutable> = None;
            let mut k: usize = 0;
            while k < set_len
                invariant
                    n == nfa.states@.len(),
                    nfa.wf(),
                    d < num_states,
                    num_states == dfa_eps_ixs@.len(),
                    set == dfa_eps_ixs@[d as int]@,
                    set_len == set.len(),
                    k <= set_len,
                    forall|kq: int| 0 <= kq < set.len() ==> (#[trigger] set[kq]).id < n,
                    res is None ==> forall|kk: int|
                        0 <= kk < k ==> nfa.states@[(#[trigger] set[kk]).id as int].name is None,
                    res matches Some(re) ==> re.priority == num_states && exists|kk: int|
                        0 <= kk < k && ((#[trigger] nfa.states@[set[kk].id as int].name) matches Some(
                            nm,
                        ) && nm@ == re.code@) && forall|ll: int|
                            0 <= ll < kk ==> nfa.states@[set[ll].id as int].name is None,
                decreases set_len - k,
            {
                if res.is_none() {
                    let sid = dfa_eps_ixs[d][k].id;
                    match nfa.states[sid].name() {
                        Some(nm) => {
                            res = Some(RuleExecutable { priority: num_states, code: nm.clone() });
                            proof {
                                assert(nfa.states@[set[k as int].id as int].name matches Some(nmq)
                                    && nmq@ == res->Some_0.code@);
                            }
                        },
                        None => {},
                    }
                }
                k += 1;
            }
            proof {
                let ghost resg = res;
                match resg {
                    Option::Some(re) => {
                        let kk = choose|kk: int|
                            0 <= kk < set.len() && ((#[trigger] nfa.states@[set[
                                kk
                            ].id as int].name) matches Some(nm) && nm@ == re.code@) && forall|
                                ll: int,
                            |
                                0 <= ll < kk ==> nfa.states@[set[ll].id as int].name is None;
                        let t = set[kk].id as int;
                        assert(contains_id(set, t)) by {
                            assert(set[kk].id == t);
                        }
                        assert forall|u: int|
                            0 <= u < t && contains_id(set, u) implies nfa.states@[
                            u
                        ].name is None by {
                            let p = choose|p: int| 0 <= p < set.len() && set[p].id == u;
                            assert(p < kk) by {
                                if p >= kk {
                                    if p > kk {
                                        assert(set[kk].id < set[p].id);
                                    }
                                }
                            }
                            assert(nfa.states@[set[p].id as int].name is None);
                        }
                        assert(callback_resolved(nfa.states@, resg, set));
                    },
                    Option::None => {
                        assert forall|t: int|
                            0 <= t < n && contains_id(set, t) implies (
                        #[trigger] nfa.states@[t]).name is None by {
                            let p = choose|p: int| 0 <= p < set.len() && set[p].id == t;
                            assert(nfa.states@[set[p].id as int].name is None);
                        }
                        assert(callback_resolved(nfa.states@, resg, set));
                    },
                }
                if d == 0 {
                    match resg {
                        Option::Some(re) => {
                            let t = choose|t: int|
                                0 <= t < n && contains_id(set, t) && ((
                                #[trigger] nfa.states@[t]).name matches Some(nm) && nm@
                                    == re.code@) && (forall|u: int|
                                    0 <= u < t && contains_id(set, u) ==> nfa.states@[
                                        u
                                    ].name is None);
                            assert(eps_reach(nfa.states@, 0, t));
                            assert forall|u: int|
                                0 <= u < t && eps_reach(nfa.states@, 0, u) implies nfa.states@[
                                u
                            ].name is None by {
                                assert(contains_id(set, u));
                            }
                        },
                        Option::None => {
                            assert forall|t: int|
                                0 <= t < n && eps_reach(nfa.states@, 0, t) implies !((
                            #[trigger] nfa.states@[t]).name is Some) by {
                                assert(contains_id(set, t));
                            }
                        },
                    }
                }
                if unnamed {
                    match resg {
                        Option::Some(re) => {
                            let kk = choose|kk: int|
                                0 <= kk < set.len() && ((#[trigger] nfa.states@[set[
                                    kk
                                ].id as int].name) matches Some(nm) && nm@ == re.code@);
                            assert(nfa.states@[set[kk].id as int].name is None);
                            assert(false);
                        },
                        Option::None => {},
                    }
                }
            }
            let ghost cbs0 = callbacks@;
            callbacks.push(res);
            proof {
                assert forall|dd: int|
                    0 <= dd < d + 1 implies #[trigger] callback_resolved(
                    nfa.states@,
                    callbacks@[dd],
                    dfa_eps_ixs@[dd]@,
                ) by {
                    if dd < d {
                        assert(callbacks@[dd] == cbs0[dd]);
                        assert(callback_resolved(nfa.states@, cbs0[dd], dfa_eps_ixs@[dd]@));
                    } else {
                        assert(callbacks@[dd] == res);
                    }
                }
                assert forall|dd: int|
                    0 <= dd < d + 1 implies ((#[trigger] callbacks@[dd]) matches Some(re)
                    ==> re.priority == num_states && exists|t: int|
                    0 <= t < n && ((#[trigger] nfa.states@[t]).name matches Some(nm) && nm@
                        == re.code@)) by {
                    if dd < d {
                        assert(callbacks@[dd] == cbs0[dd]);
                    } else {
                        assert(callbacks@[dd] == res);
                        match callbacks@[dd] {
                            Option::Some(re) => {
                                let kk = choose|kk: int|
                                    0 <= kk < set.len() && ((#[trigger] nfa.states@[set[
                                        kk
                                    ].id as int].name) matches Some(nm) && nm@ == re.code@);
                                let t = set[kk].id as int;
                            },
                            Option::None => {},
                        }
                    }
                }
            }
            d += 1;
        }
        proof {
            assert(dfa_mat.spec_rows() == num_states);
        }
        let result = DFA {
            alphabet_segmentation: nfa.alphabet_segmentation.clone(),
            links: dfa_mat,
            callbacks,
        };
        proof {
            assert forall|e: int|
                1 <= e < dfa_eps_ixs@.len() implies #[trigger] row_discovered(
                result.links,
                e,
                e,
                nfa.alphabet_segmentation.divisions@.len() as int,
            ) by {
                assert(row_discovered(dfa_mat, e, i as int, cols as int));
                let (dq, jq) = choose|dq: int, jq: int|
                    0 <= dq < e && dq < i && 0 <= jq < cols && (#[trigger] dfa_mat.cell(
                        dq,
                        jq,
                    )).id == e;
                assert(result.links.cell(dq, jq).id == e);
            }
            assert(subset_construction(*nfa, result, dfa_eps_ixs@));
        }
        result
    }
}



/// The transition snapshot `m` agrees with the NFA: one row per state, one
/// column per division, each cell the claimed target of its division.
pub open spec fn matrix_matches(nfa: NFA, m: Matrix) -> bool {
    &&& m.wf()
    &&& m.spec_rows() == nfa.states@.len()
    &&& m.cols == nfa.alphabet_segmentation.divisions@.len()
    &&& forall|a: int, b: int|
        0 <= a < m.spec_rows() && 0 <= b < m.cols ==> #[trigger] m.cell(a, b) == (
        match chosen_link(
            nfa.states@[a].links@,
            nfa.alphabet_segmentation.divisions@[b].value as int,
        ) {
            Option::Some(t) => t.target_state,
            Option::None => Identifier { id: INVALID_ID },
        })
}

/// The rows of `eps` are the epsilon-closures of the NFA's states, canonical
/// and within bounds.
pub open spec fn closures_match(nfa: NFA, eps: Seq<Vec<Identifier>>) -> bool {
    &&& eps.len() == nfa.states@.len()
    &&& forall|sq: int| 0 <= sq < eps.len() ==> sorted_ids((#[trigger] eps[sq])@)
    &&& forall|sq: int, jq: int|
        0 <= sq < eps.len() && 0 <= jq < eps[sq]@.len() ==> (#[trigger] eps[sq]@[jq]).id
            < nfa.states@.len()
    &&& forall|sq: int, t: int|
        #![trigger contains_id(eps[sq]@, t)]
        0 <= sq < eps.len() ==> (contains_id(eps[sq]@, t) <==> eps_reach(nfa.states@, sq, t))
}

/// Whether NFA state `t` is a successor of the row set `src` under alphabet
/// class `j`: some member of `src` has a transition claiming class `j`, and
/// `t` lies in the epsilon-closure of its target.
pub open spec fn class_successor_of(
    states: Seq<State>,
    divisions: Seq<Symbol>,
    src: Seq<Identifier>,
    j: int,
    t: int,
) -> bool {
    exists|k: int|
        0 <= k < src.len() && ((#[trigger] chosen_link(
            states[src[k].id as int].links@,
            divisions[j].value as int,
        )) matches Some(tr) && eps_reach(states, tr.target_state.id as int, t))
}

/// Whether the matrix cell `(d, j)` is resolved correctly for the row sets:
/// where the row set has successors under class `j`, the cell indexes the row
/// whose set holds exactly those successors; where it has none, the cell is
/// invalid.
pub open spec fn cell_resolved(
    nfa: NFA,
    m: Matrix,
    sets: Seq<Vec<Identifier>>,
    d: int,
    j: int,
) -> bool {
    let states = nfa.states@;
    let divisions = nfa.alphabet_segmentation.divisions@;
    let cell = m.cell(d, j).id;
    if exists|t: int| class_successor_of(states, divisions, sets[d]@, j, t) {
        &&& cell < sets.len()
        &&& forall|t: int|
            #![trigger contains_id(sets[cell as int]@, t)]
            contains_id(sets[cell as int]@, t) <==> class_successor_of(
                states,
                divisions,
                sets[d]@,
                j,
                t,
            )
    } else {
        cell == INVALID_ID
    }
}

/// Whether row `e` of the matrix is discovered by some earlier row: a cell
/// of a row below both `e` and `bound` holds `e`.
pub open spec fn row_discovered(m: Matrix, e: int, bound: int, cols: int) -> bool {
    exists|d: int, j: int|
        0 <= d < e && d < bound && 0 <= j < cols && (#[trigger] m.cell(d, j)).id == e
}

/// Whether the callback is resolved correctly for one row set: it is bound
/// exactly when the set holds a named state, and then carries the name of the
/// least named state of the set.
pub open spec fn callback_resolved(
    states: Seq<State>,
    cb: Option<RuleExecutable>,
    set: Seq<Identifier>,
) -> bool {
    match cb {
        Option::Some(re) => exists|t: int|
            0 <= t < states.len() && contains_id(set, t) && ((#[trigger] states[t]).name matches Some(
                nm,
            ) && nm@ == re.code@) && (forall|u: int|
                0 <= u < t && contains_id(set, u) ==> states[u].name is None),
        Option::None => forall|t: int|
            0 <= t < states.len() && contains_id(set, t) ==> (#[trigger] states[t]).name is None,
    }
}

/// The relation subset construction establishes between an NFA, its DFA, and
/// the epsilon-closed row sets: row 0 stands for the closure of the NFA
/// start; the sets are canonical (sorted) and pairwise distinct; every row
/// beyond the first is discovered as the target of a cell of an earlier row,
/// so every row is reachable from the start; every cell points at the row
/// holding exactly the successors of its row's set under its class, or
/// rejects where there are none; and every callback carries the name of the
/// least named state of its row's set, where one exists.
pub open spec fn subset_construction(nfa: NFA, dfa: DFA, sets: Seq<Vec<Identifier>>) -> bool {
    let states = nfa.states@;
    let divisions = nfa.alphabet_segmentation.divisions@;
    &&& sets.len() == dfa.links.spec_rows()
    &&& sets.len() == dfa.callbacks@.len()
    &&& sets.len() >= 1
    &&& forall|t: int|
        #![trigger contains_id(sets[0]@, t)]
        contains_id(sets[0]@, t) <==> eps_reach(states, 0, t)
    &&& forall|d: int| 0 <= d < sets.len() ==> sorted_ids((#[trigger] sets[d])@)
    &&& forall|d: int, k: int|
        0 <= d < sets.len() && 0 <= k < sets[d]@.len() ==> (#[trigger] sets[d]@[k]).id
            < states.len()
    &&& forall|d: int, d2: int|
        #![trigger sets[d], sets[d2]]
        0 <= d < d2 < sets.len() ==> sets[d]@ != sets[d2]@
    &&& forall|e: int|
        1 <= e < sets.len() ==> #[trigger] row_discovered(dfa.links, e, e, divisions.len() as int)
    &&& forall|d: int, j: int|
        0 <= d < sets.len() && 0 <= j < divisions.len() ==> #[trigger] cell_resolved(
            nfa,
            dfa.links,
            sets,
            d,
            j,
        )
    &&& forall|d: int|
        0 <= d < sets.len() ==> #[trigger] callback_resolved(states, dfa.callbacks@[d], sets[d]@)
}



/// Compiling the same automaton twice is deterministic at the start: both
/// constructions have the same canonical start-row set, bind a start callback
/// under the same condition, and where both bind one they carry the same
/// code.
pub proof fn lemma_subset_construction_same_start(
    nfa: NFA,
    d1: DFA,
    s1: Seq<Vec<Identifier>>,
    d2: DFA,
    s2: Seq<Vec<Identifier>>,
)
    requires
        subset_construction(nfa, d1, s1),
        subset_construction(nfa, d2, s2),
    ensures
        s1[0]@ == s2[0]@,
        d1.callbacks@[0] is Some <==> d2.callbacks@[0] is Some,
        d1.callbacks@[0] matches Some(re1) ==> (d2.callbacks@[0] matches Some(re2) ==> re1.code@
            == re2.code@),
{
    let states = nfa.states@;
    assert forall|t: int|
        #![trigger contains_id(s1[0]@, t)]
        #![trigger contains_id(s2[0]@, t)]
        contains_id(s1[0]@, t) <==> contains_id(s2[0]@, t) by {
        assert(contains_id(s1[0]@, t) <==> eps_reach(states, 0, t));
        assert(contains_id(s2[0]@, t) <==> eps_reach(states, 0, t));
    }
    crate::nfa::lemma_sorted_ids_unique(s1[0]@, s2[0]@);
    assert(callback_resolved(states, d1.callbacks@[0], s1[0]@));
    assert(callback_resolved(states, d2.callbacks@[0], s2[0]@));
    match d1.callbacks@[0] {
        Option::Some(re1) => {
            let t1 = choose|t: int|
                0 <= t < states.len() && contains_id(s1[0]@, t) && ((
                #[trigger] states[t]).name matches Some(nm) && nm@ == re1.code@) && (forall|u: int|
                    0 <= u < t && contains_id(s1[0]@, u) ==> states[u].name is None);
            match d2.callbacks@[0] {
                Option::Some(re2) => {
                    let t2 = choose|t: int|
                        0 <= t < states.len() && contains_id(s2[0]@, t) && ((
                        #[trigger] states[t]).name matches Some(nm) && nm@ == re2.code@) && (forall|
                            u: int,
                        |
                            0 <= u < t && contains_id(s2[0]@, u) ==> states[u].name is None);
                    // The least named member of the shared set is unique.
                    assert(t1 == t2) by {
                        if t1 < t2 {
                            assert(states[t1].name is None);
                        }
                        if t2 < t1 {
                            assert(states[t2].name is None);
                        }
                    }
                },
                Option::None => {
                    assert(states[t1].name is None);
                },
            }
        },
        Option::None => {
            match d2.callbacks@[0] {
                Option::Some(re2) => {
                    let t2 = choose|t: int|
                        0 <= t < states.len() && contains_id(s2[0]@, t) && ((
                        #[trigger] states[t]).name matches Some(nm) && nm@ == re2.code@) && (forall|
                            u: int,
                        |
                            0 <= u < t && contains_id(s2[0]@, u) ==> states[u].name is None);
                    assert(contains_id(s1[0]@, t2));
                    assert(states[t2].name is None);
                },
                Option::None => {},
            }
        },
    }
}

/// A resolved cell stays resolved when rows are appended to the sets and the
/// cell itself is unchanged.
proof fn lemma_cell_resolved_stable(
    nfa: NFA,
    m1: Matrix,
    m2: Matrix,
    s1: Seq<Vec<Identifier>>,
    s2: Seq<Vec<Identifier>>,
    a: int,
    j: int,
)
    requires
        cell_resolved(nfa, m1, s1, a, j),
        0 <= a < s1.len(),
        s2.len() >= s1.len(),
        forall|d: int| 0 <= d < s1.len() ==> #[trigger] s2[d] == s1[d],
        m2.cell(a, j) == m1.cell(a, j),
    ensures
        cell_resolved(nfa, m2, s2, a, j),
{
    let states = nfa.states@;
    let divisions = nfa.alphabet_segmentation.divisions@;
    assert(s2[a] == s1[a]);
    if exists|t: int| class_successor_of(states, divisions, s1[a]@, j, t) {
        let cell = m1.cell(a, j).id;
        assert(cell < s1.len());
        assert(s2[cell as int] == s1[cell as int]);
        assert forall|t: int|
            #![trigger contains_id(s2[cell as int]@, t)]
            contains_id(s2[cell as int]@, t) <==> class_successor_of(
            states,
            divisions,
            s2[a]@,
            j,
            t,
        ) by {
            assert(contains_id(s1[cell as int]@, t) <==> class_successor_of(
                states,
                divisions,
                s1[a]@,
                j,
                t,
            ));
        }
        assert(exists|t: int| class_successor_of(states, divisions, s2[a]@, j, t));
    } else {
        assert(!exists|t: int| class_successor_of(states, divisions, s2[a]@, j, t)) by {
            if exists|t: int| class_successor_of(states, divisions, s2[a]@, j, t) {
                let t = choose|t: int| class_successor_of(states, divisions, s2[a]@, j, t);
                assert(class_successor_of(states, divisions, s1[a]@, j, t));
            }
        }
    }
}

/// A copy of a vector of identifiers.
fn copy_ids(v: &Vec<Identifier>) -> (r: Vec<Identifier>)
    ensures
        r@ == v@,
{
    let mut out: Vec<Identifier> = Vec::new();
    let mut i: usize = 0;
    while i < v.len()
        invariant
            i <= v@.len(),
            out@ == v@.take(i as int),
        decreases v@.len() - i,
    {
        out.push(v[i]);
        proof {
            assert(out@ =~= v@.take(i + 1));
        }
        i += 1;
    }
    proof {
        assert(v@.take(v@.len() as int) =~= v@);
    }
    out
}

/// Whether two id vectors hold the same ids in the same order.
fn ids_equal(a: &Vec<Identifier>, b: &Vec<Identifier>) -> (r: bool)
    ensures
        r == (a@ == b@),
{
    if a.len() != b.len() {
        return false;
    }
    let mut i: usize = 0;
    while i < a.len()
        invariant
            a@.len() == b@.len(),
            i <= a@.len(),
            forall|k: int| 0 <= k < i ==> a@[k] == b@[k],
        decreases a@.len() - i,
    {
        if a[i].id != b[i].id {
            return false;
        }
        i += 1;
    }
    proof {
        assert(a@ =~= b@);
    }
    true
}

/// The position of the first set equal to `target`, if one is recorded.
fn find_set(sets: &Vec<Vec<Identifier>>, target: &Vec<Identifier>) -> (r: Option<usize>)
    ensures
        r matches Some(ix) ==> ix < sets@.len() && sets@[ix as int]@ == target@ && forall|q: int|
            0 <= q < ix ==> (#[trigger] sets@[q])@ != target@,
        r is None ==> forall|q: int| 0 <= q < sets@.len() ==> (#[trigger] sets@[q])@ != target@,
{
    let mut i: usize = 0;
    while i < sets.len()
        invariant
            i <= sets@.len(),
            forall|q: int| 0 <= q < i ==> (#[trigger] sets@[q])@ != target@,
        decreases sets@.len() - i,
    {
        if ids_equal(&sets[i], target) {
            return Some(i);
        }
        i += 1;
    }
    None
}

/// Merges the ids of `src` into the sorted vector `dst`.
fn merge_ids(dst: &mut Vec<Identifier>, src: &Vec<Identifier>)
    requires
        sorted_ids(old(dst)@),
    ensures
        sorted_ids(final(dst)@),
        forall|t: int|
            #![trigger contains_id(final(dst)@, t)]
            contains_id(final(dst)@, t) <==> (contains_id(old(dst)@, t) || contains_id(src@, t)),
    {
    let mut k: usize = 0;
    while k < src.len()
        invariant
            k <= src@.len(),
            sorted_ids(dst@),
            forall|t: int|
                #![trigger contains_id(dst@, t)]
                contains_id(dst@, t) <==> (contains_id(old(dst)@, t) || exists|q: int|
                    0 <= q < k && src@[q].id == t),
        decreases src@.len() - k,
    {
        let e = src[k];
        if !contains_id_exec(dst, e.id) {
            insert_sorted_id(dst, e);
        }
        proof {
            assert forall|t: int|
                #![trigger contains_id(dst@, t)]
                contains_id(dst@, t) <==> (contains_id(old(dst)@, t) || exists|q: int|
                    0 <= q < k + 1 && src@[q].id == t) by {
                if exists|q: int| 0 <= q < k + 1 && src@[q].id == t {
                    let q = choose|q: int| 0 <= q < k + 1 && src@[q].id == t;
                    if q == k {
                        assert(src@[k as int].id == t);
                    }
                }
            }
        }
        k += 1;
    }
    proof {
        assert forall|t: int|
            #![trigger contains_id(dst@, t)]
            contains_id(dst@, t) <==> (contains_id(old(dst)@, t) || contains_id(src@, t)) by {
            if contains_id(src@, t) {
                let q = choose|q: int| 0 <= q < src@.len() && src@[q].id == t;
            }
        }
    }
}

} // verus!
