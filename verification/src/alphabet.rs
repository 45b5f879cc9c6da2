//! The alphabet of a finite state automaton, kept as a segmentation: the
//! ordered set of division points that partitions the symbol space into the
//! minimal equivalence classes the rules distinguish.

use vstd::prelude::*;

use crate::symbol::{Symbol, SymbolRange, EOF_CODE, NULL_CODE};

verus! {

/// An ordered partition of the symbol space `0..=EOF_CODE`.
///
/// The partition is represented by its division points, kept as a strictly
/// increasing vector of symbols. Division points `{d0 < d1 < ... < dn}`
/// induce the intervals `[d_i, d_{i+1})` plus the tail `[d_n, EOF]`. The
/// division `0` is always present, so the first interval starts at the bottom
/// of the space.
#[derive(Debug, PartialEq, Eq)]
pub struct Segmentation {
    /// The division points, strictly increasing by code.
    pub divisions: Vec<Symbol>,
}

impl Segmentation {
    /// The division points as a sequence of codes.
    pub open spec fn div_seq(self) -> Seq<u32> {
        self.divisions@.map_values(|s: Symbol| s.value)
    }

    /// Well-formedness: the divisions are strictly increasing and start at
    /// the NULL code.
    pub open spec fn wf(self) -> bool {
        &&& self.divisions@.len() >= 1
        &&& self.divisions@[0].value == NULL_CODE
        &&& forall|i: int, j: int|
            0 <= i < j < self.divisions@.len() ==> self.divisions@[i].value < self.divisions@[
                j
            ].value
    }

    /// Whether `code` is a division point of this segmentation.
    pub open spec fn contains_div(self, code: int) -> bool {
        exists|i: int| 0 <= i < self.divisions@.len() && self.divisions@[i].value == code
    }

    /// The set of codes inserted by one range: the range's start, and the
    /// code one past its end unless the range already reaches EOF.
    pub open spec fn range_divs(range: SymbolRange) -> Set<int> {
        if range.end.value == EOF_CODE {
            set![range.start.value as int]
        } else {
            set![range.start.value as int, range.end.value + 1]
        }
    }

    /// Inserts one division point, keeping the vector sorted; a point already
    /// present is left alone.
    fn insert_division(&mut self, value: u32)
        requires
            old(self).wf(),
        ensures
            final(self).wf(),
            forall|code: int|
                #![trigger final(self).contains_div(code)]
                #![trigger old(self).contains_div(code)]
                final(self).contains_div(code) <==> (old(self).contains_div(code) || code
                    == value),
    {
        let mut idx: usize = 0;
        while idx < self.divisions.len() && self.divisions[idx].value < value
            invariant
                idx <= self.divisions@.len(),
                forall|k: int| 0 <= k < idx ==> self.divisions@[k].value < value,
                self == old(self),
            decreases self.divisions@.len() - idx,
        {
            idx += 1;
        }
        if idx < self.divisions.len() && self.divisions[idx].value == value {
            proof {
                assert(old(self).contains_div(value as int));
            }
            return ;
        }
        self.divisions.insert(idx, Symbol { value });
        proof {
            let ds = self.divisions@;
            let od = old(self).divisions@;
            assert forall|i: int, j: int| 0 <= i < j < ds.len() implies ds[i].value
                < ds[j].value by {
                if j < idx {
                } else if i > idx {
                } else if j == idx {
                    assert(ds[i] == od[i]);
                } else if i == idx {
                    // Every element at or after idx in the old vector exceeds value.
                    assert(ds[j] == od[j - 1]);
                    if idx < od.len() {
                        assert(od[idx as int].value > value);
                        if j - 1 > idx {
                            assert(od[idx as int].value < od[j - 1].value);
                        }
                    }
                } else {
                    // i < idx < j
                    assert(ds[i] == od[i]);
                    assert(ds[j] == od[j - 1]);
                    if idx < od.len() {
                        assert(od[i].value < value);
                        assert(od[idx as int].value > value);
                        if j - 1 > idx {
                            assert(od[idx as int].value < od[j - 1].value);
                        }
                    } else {
                        assert(j - 1 < od.len());
                    }
                }
            }
            assert(ds[0].value == NULL_CODE) by {
                if idx == 0 {
                    // Inserting at the front means value is below the least
                    // old division, which is 0.
                    assert(od[0].value == NULL_CODE);
                    if value != NULL_CODE {
                        assert(od[0].value < value);
                    }
                } else {
                    assert(ds[0] == od[0]);
                }
            }
            assert forall|code: int|
                self.contains_div(code) <==> (old(self).contains_div(code) || code
                    == value) by {
                if self.contains_div(code) {
                    let i = choose|i: int| 0 <= i < ds.len() && ds[i].value == code;
                    if i < idx {
                        assert(od[i].value == code);
                    } else if i == idx {
                    } else {
                        assert(od[i - 1].value == code);
                    }
                }
                if old(self).contains_div(code) {
                    let i = choose|i: int| 0 <= i < od.len() && od[i].value == code;
                    if i < idx {
                        assert(ds[i].value == code);
                    } else {
                        assert(ds[i + 1].value == code);
                    }
                }
                if code == value {
                    assert(ds[idx as int].value == code);
                }
            }
        }
    }

    /// Inserts a range of symbols into the alphabet: its start becomes a
    /// division, and so does the code one past its end unless the range
    /// already reaches EOF (so the sentinel never overflows).
    pub fn insert(&mut self, range: SymbolRange)
        requires
            old(self).wf(),
        ensures
            final(self).wf(),
            forall|code: int|
                #![trigger final(self).contains_div(code)]
                #![trigger old(self).contains_div(code)]
                final(self).contains_div(code) <==> (old(self).contains_div(code)
                    || Self::range_divs(range).contains(code)),
    {
        self.insert_division(range.start.value);
        if range.end.value != EOF_CODE {
            self.insert_division(range.end.value + 1);
        }
    }

    /// Creates a segmentation whose divisions are the given codes, together
    /// with the always-present division `0`.
    pub fn from_divisions(divisions: &[u32]) -> (r: Self)
        ensures
            r.wf(),
            forall|code: int|
                #![trigger r.contains_div(code)]
                r.contains_div(code) <==> (code == NULL_CODE || exists|k: int|
                    0 <= k < divisions@.len() && divisions@[k] == code),
    {
        let mut dict = Self::default();
        let mut i: usize = 0;
        while i < divisions.len()
            invariant
                i <= divisions@.len(),
                dict.wf(),
                forall|code: int|
                    dict.contains_div(code) <==> (code == NULL_CODE || exists|k: int|
                        0 <= k < i && divisions@[k] == code),
            decreases divisions@.len() - i,
        {
            let v = divisions[i];
            dict.insert_division(v);
            proof {
                assert forall|code: int|
                    dict.contains_div(code) <==> (code == NULL_CODE || exists|k: int|
                        0 <= k < i + 1 && divisions@[k] == code) by {
                    if code == v {
                        assert(divisions@[i as int] == code);
                    }
                }
            }
            i += 1;
        }
        dict
    }

    /// Enumerates the divisions in ascending order, pairing each with its
    /// 0-based position: the alphabet-class id used as the matrix column.
    pub fn divisions_as_vec(&self) -> (r: Vec<Division>)
        ensures
            r@.len() == self.divisions@.len(),
            forall|i: int|
                0 <= i < r@.len() ==> r@[i].position == i && r@[i].symbol == self.divisions@[i],
    {
        let mut out: Vec<Division> = Vec::new();
        let mut i: usize = 0;
        while i < self.divisions.len()
            invariant
                i <= self.divisions@.len(),
                out@.len() == i,
                forall|k: int| #![trigger out@[k]]
                    0 <= k < i ==> out@[k].position == k && out@[k].symbol == self.divisions@[k],
            decreases self.divisions@.len() - i,
        {
            let d = Division { position: i, symbol: self.divisions[i] };
            let ghost prev = out@;
            out.push(d);
            proof {
                assert forall|k: int|
                    0 <= k < i + 1 implies (out@[k].position == k && out@[k].symbol
                    == self.divisions@[k]) by {
                    assert(out@[k] == prev.push(d)[k]);
                    if k < i as int {
                        assert(prev.push(d)[k] == prev[k]);
                        assert(prev[k].position == k && prev[k].symbol == self.divisions@[k]);
                    } else {
                        assert(prev.push(d)[k] == d);
                    }
                }
            }
            i += 1;
        }
        out
    }

    /// The divisions in ascending order.
    pub fn divisions(&self) -> (r: &Vec<Symbol>)
        ensures
            r == &self.divisions,
    {
        &self.divisions
    }

    /// The number of divisions in the segmentation.
    pub fn len(&self) -> (r: usize)
        ensures
            r == self.divisions@.len(),
    {
        self.divisions.len()
    }
}

impl Clone for Segmentation {
    /// A copy with the same divisions.
    fn clone(&self) -> (r: Self)
        ensures
            r.divisions@ == self.divisions@,
    {
        let mut divisions: Vec<Symbol> = Vec::new();
        let mut i: usize = 0;
        while i < self.divisions.len()
            invariant
                i <= self.divisions@.len(),
                divisions@ == self.divisions@.take(i as int),
            decreases self.divisions@.len() - i,
        {
            divisions.push(self.divisions[i]);
            proof {
                assert(divisions@ =~= self.divisions@.take(i + 1));
            }
            i += 1;
        }
        proof {
            assert(self.divisions@.take(self.divisions@.len() as int) =~= self.divisions@);
        }
        Segmentation { divisions }
    }
}

impl Default for Segmentation {
    /// The initial segmentation: the single division `0`, whose presence the
    /// NFA-to-DFA conversion assumes.
    fn default() -> (r: Self)
        ensures
            r.wf(),
            r.divisions@.len() == 1,
            r.divisions@[0].value == NULL_CODE,
    {
        let divisions = vec![Symbol { value: NULL_CODE }];
        Segmentation { divisions }
    }
}

/// One division of the alphabet: a symbol paired with its position among the
/// ordered divisions.
#[derive(Copy, Clone, Debug, PartialEq, Eq, Structural)]
pub struct Division {
    /// The position of the division.
    pub position: usize,
    /// The symbol at which it divides the alphabet.
    pub symbol: Symbol,
}

impl Division {
    /// Creates a new division.
    pub fn new(position: usize, symbol: Symbol) -> (r: Division)
        ensures
            r.position == position,
            r.symbol == symbol,
    {
        Division { position, symbol }
    }
}

} // verus!
