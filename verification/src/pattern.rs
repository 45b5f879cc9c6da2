//! The pattern algebra: an immutable tree of regular-expression combinators
//! over symbol ranges, built by composition and consumed by the NFA builder.

use vstd::prelude::*;
use vstd::string::StrSliceExecFns;

use crate::symbol::{Symbol, SymbolRange, EOF_CODE, NULL_CODE};

verus! {

/// The mathematical model of a pattern: the same tree with sequences in place
/// of vectors and plain codes in place of symbols.
#[verifier::ext_equal]
pub enum PatternView {
    /// One symbol whose code lies in the inclusive range.
    Range(u32, u32),
    /// Alternation over the listed patterns.
    Or(Seq<PatternView>),
    /// Concatenation of the listed patterns.
    Cat(Seq<PatternView>),
    /// Zero or more repetitions of the body.
    Many(Box<PatternView>),
    /// The empty word.
    Always,
    /// The empty language.
    Never,
}

/// A simple regular pattern over symbols.
#[derive(Debug, PartialEq)]
pub enum Pattern {
    /// The pattern that triggers on any symbol from the given range.
    Range(SymbolRange),
    /// The pattern that triggers on any pattern from the list.
    Or(Vec<Pattern>),
    /// The pattern that triggers when the patterns match one after another.
    Sequence(Vec<Pattern>),
    /// The pattern that triggers on zero or more repetitions of the body.
    Many(Box<Pattern>),
    /// The pattern that always triggers.
    Always,
    /// The pattern that never triggers.
    Never,
}

/// The mathematical model of a pattern: vectors become sequences and symbols
/// become their codes.
pub open spec fn pattern_view(p: &Pattern) -> PatternView
    decreases p,
    via pattern_view_decreases
{
    match p {
        Pattern::Range(r) => PatternView::Range(r.start.value, r.end.value),
        // The closures guard their index so that the recursive call is only
        // demanded (and its termination only checked) on patterns the vector
        // actually holds.
        Pattern::Or(ps) => PatternView::Or(
            Seq::new(
                ps@.len(),
                |i: int|
                    if 0 <= i < ps@.len() {
                        pattern_view(&ps@[i])
                    } else {
                        PatternView::Never
                    },
            ),
        ),
        Pattern::Sequence(ps) => PatternView::Cat(
            Seq::new(
                ps@.len(),
                |i: int|
                    if 0 <= i < ps@.len() {
                        pattern_view(&ps@[i])
                    } else {
                        PatternView::Never
                    },
            ),
        ),
        Pattern::Many(q) => PatternView::Many(Box::new(pattern_view(&**q))),
        Pattern::Always => PatternView::Always,
        Pattern::Never => PatternView::Never,
    }
}

/// Justifies the termination of `pattern_view`: each pattern in a vector held
/// by a pattern is structurally smaller than the pattern itself.
#[via_fn]
proof fn pattern_view_decreases(p: &Pattern) {
    match p {
        Pattern::Or(ps) => {
            assert forall|i: int| 0 <= i < ps@.len() implies #[trigger] (decreases_to!(*p
                => ps@[i])) by {
                assert(decreases_to!(*p => *ps));
                assert(decreases_to!(*ps => ps@[i]));
            }
        },
        Pattern::Sequence(ps) => {
            assert forall|i: int| 0 <= i < ps@.len() implies #[trigger] (decreases_to!(*p
                => ps@[i])) by {
                assert(decreases_to!(*p => *ps));
                assert(decreases_to!(*ps => ps@[i]));
            }
        },
        _ => {},
    }
}

impl View for Pattern {
    type V = PatternView;

    open spec fn view(&self) -> PatternView {
        pattern_view(self)
    }
}

/// The views of the patterns in a sequence, in order.
pub open spec fn views_of(ps: Seq<Pattern>) -> Seq<PatternView> {
    Seq::new(ps.len(), |i: int| ps[i]@)
}

/// The view of an `Or` pattern is the alternation of its members' views.
pub proof fn lemma_view_or(ps: Vec<Pattern>)
    ensures
        Pattern::Or(ps)@ == PatternView::Or(views_of(ps@)),
{
    let s1 = Pattern::Or(ps)@->Or_0;
    let s2 = views_of(ps@);
    assert forall|i: int| 0 <= i < s1.len() implies s1[i] == s2[i] by {
        assert(s1[i] == ps@[i]@);
        assert(s2[i] == ps@[i]@);
    }
    assert(s1 =~= s2);
}

/// The view of a `Sequence` pattern is the concatenation of its members'
/// views.
pub proof fn lemma_view_cat(ps: Vec<Pattern>)
    ensures
        Pattern::Sequence(ps)@ == PatternView::Cat(views_of(ps@)),
{
    let s1 = Pattern::Sequence(ps)@->Cat_0;
    let s2 = views_of(ps@);
    assert forall|i: int| 0 <= i < s1.len() implies s1[i] == s2[i] by {
        assert(s1[i] == ps@[i]@);
        assert(s2[i] == ps@[i]@);
    }
    assert(s1 =~= s2);
}

/// Alternation with the flattening the `|` operator performs: an `Or` is
/// never nested directly inside an `Or`.
pub open spec fn alt_of(lhs: PatternView, rhs: PatternView) -> PatternView {
    match (lhs, rhs) {
        (PatternView::Or(l), PatternView::Or(r)) => PatternView::Or(l + r),
        (PatternView::Or(l), r) => PatternView::Or(l.push(r)),
        (l, PatternView::Or(r)) => PatternView::Or(seq![l] + r),
        (l, r) => PatternView::Or(seq![l, r]),
    }
}

/// Concatenation with the flattening the `>>` operator performs: a `Cat` is
/// never nested directly inside a `Cat`.
pub open spec fn cat_of(lhs: PatternView, rhs: PatternView) -> PatternView {
    match (lhs, rhs) {
        (PatternView::Cat(l), PatternView::Cat(r)) => PatternView::Cat(l + r),
        (PatternView::Cat(l), r) => PatternView::Cat(l.push(r)),
        (l, PatternView::Cat(r)) => PatternView::Cat(seq![l] + r),
        (l, r) => PatternView::Cat(seq![l, r]),
    }
}

impl Clone for Pattern {
    /// A structural copy: the clone has the same view as the original.
    fn clone(&self) -> (r: Self)
        ensures
            r@ == self@,
        decreases self,
    {
        match self {
            Pattern::Range(r0) => Pattern::Range(*r0),
            Pattern::Or(ps) => {
                let cloned = clone_patterns(ps);
                proof {
                    lemma_view_or(cloned);
                    lemma_view_or(*ps);
                    assert(views_of(cloned@) =~= views_of(ps@)) by {
                        assert forall|i: int| 0 <= i < cloned@.len() implies views_of(cloned@)[i]
                            == views_of(ps@)[i] by {
                            assert(cloned@[i]@ == ps@[i]@);
                        }
                    }
                    assert(*self == Pattern::Or(*ps));
                }
                Pattern::Or(cloned)
            },
            Pattern::Sequence(ps) => {
                let cloned = clone_patterns(ps);
                proof {
                    lemma_view_cat(cloned);
                    lemma_view_cat(*ps);
                    assert(views_of(cloned@) =~= views_of(ps@)) by {
                        assert forall|i: int| 0 <= i < cloned@.len() implies views_of(cloned@)[i]
                            == views_of(ps@)[i] by {
                            assert(cloned@[i]@ == ps@[i]@);
                        }
                    }
                    assert(*self == Pattern::Sequence(*ps));
                }
                Pattern::Sequence(cloned)
            },
            Pattern::Many(p) => Pattern::Many(Box::new((**p).clone())),
            Pattern::Always => Pattern::Always,
            Pattern::Never => Pattern::Never,
        }
    }
}

/// Clones every pattern of a vector, preserving the views.
fn clone_patterns(ps: &Vec<Pattern>) -> (r: Vec<Pattern>)
    ensures
        r@.len() == ps@.len(),
        forall|i: int| #![trigger r@[i]] 0 <= i < ps@.len() ==> r@[i]@ == ps@[i]@,
    decreases ps,
{
    let mut out: Vec<Pattern> = Vec::new();
    let mut i: usize = 0;
    while i < ps.len()
        invariant
            i <= ps@.len(),
            out@.len() == i,
            forall|k: int| #![trigger out@[k]] 0 <= k < i ==> out@[k]@ == ps@[k]@,
        decreases ps@.len() - i,
    {
        proof {
            assert(decreases_to!(*ps => ps@[i as int]));
        }
        let p = ps[i].clone();
        out.push(p);
        i += 1;
    }
    out
}

impl core::ops::BitOr<Pattern> for Pattern {
    type Output = Pattern;

    /// Alternation; an `Or` on either side is extended rather than nested.
    fn bitor(self, rhs: Pattern) -> (r: Pattern)
        ensures
            r@ == alt_of(self@, rhs@),
    {
        let ghost lv = self@;
        let ghost rv = rhs@;
        match (self, rhs) {
            (Pattern::Or(mut l), Pattern::Or(mut r)) => {
                let ghost l0 = l;
                let ghost r0 = r;
                l.append(&mut r);
                proof {
                    lemma_view_or(l0);
                    lemma_view_or(r0);
                    lemma_view_or(l);
                    assert(views_of(l@) =~= views_of(l0@) + views_of(r0@)) by {
                        assert forall|i: int| 0 <= i < l@.len() implies views_of(l@)[i] == (
                        views_of(l0@) + views_of(r0@))[i] by {
                            if i < l0@.len() {
                                assert(l@[i] == l0@[i]);
                            } else {
                                assert(l@[i] == r0@[i - l0@.len()]);
                            }
                        }
                    }
                }
                Pattern::Or(l)
            },
            (Pattern::Or(mut l), r) => {
                let ghost l0 = l;
                let ghost r0 = r;
                l.push(r);
                proof {
                    lemma_view_or(l0);
                    lemma_view_or(l);
                    assert(views_of(l@) =~= views_of(l0@).push(r0@)) by {
                        assert forall|i: int| 0 <= i < l@.len() implies views_of(l@)[i]
                            == views_of(l0@).push(r0@)[i] by {
                            if i < l0@.len() {
                                assert(l@[i] == l0@[i]);
                            } else {
                                assert(l@[i] == r0);
                            }
                        }
                    }
                }
                Pattern::Or(l)
            },
            (l, Pattern::Or(mut r)) => {
                let ghost l0 = l;
                let ghost r0 = r;
                r.insert(0, l);
                proof {
                    lemma_view_or(r0);
                    lemma_view_or(r);
                    assert(views_of(r@) =~= seq![l0@] + views_of(r0@)) by {
                        assert forall|i: int| 0 <= i < r@.len() implies views_of(r@)[i] == (
                        seq![l0@] + views_of(r0@))[i] by {
                            if i == 0 {
                                assert(r@[i] == l0);
                            } else {
                                assert(r@[i] == r0@[i - 1]);
                            }
                        }
                    }
                }
                Pattern::Or(r)
            },
            (l, r) => {
                let ghost l0 = l;
                let ghost r0 = r;
                let out = vec![l, r];
                proof {
                    lemma_view_or(out);
                    assert(views_of(out@) =~= seq![l0@, r0@]) by {
                        assert(out@[0] == l0);
                        assert(out@[1] == r0);
                    }
                }
                Pattern::Or(out)
            },
        }
    }
}

impl vstd::std_specs::ops::BitOrSpecImpl<Pattern> for Pattern {
    open spec fn obeys_bitor_spec() -> bool {
        // The flattened result cannot be written as a `Pattern`-valued spec
        // (a vector cannot be built in spec code); the operator impl states
        // the result's view in its own `ensures` instead.
        false
    }

    open spec fn bitor_req(self, rhs: Pattern) -> bool {
        true
    }

    open spec fn bitor_spec(self, rhs: Pattern) -> Pattern {
        self
    }
}

impl core::ops::Shr<Pattern> for Pattern {
    type Output = Pattern;

    /// Concatenation; a `Sequence` on either side is extended rather than
    /// nested.
    fn shr(self, rhs: Pattern) -> (r: Pattern)
        ensures
            r@ == cat_of(self@, rhs@),
    {
        let ghost lv = self@;
        let ghost rv = rhs@;
        match (self, rhs) {
            (Pattern::Sequence(mut l), Pattern::Sequence(mut r)) => {
                let ghost l0 = l;
                let ghost r0 = r;
                l.append(&mut r);
                proof {
                    lemma_view_cat(l0);
                    lemma_view_cat(r0);
                    lemma_view_cat(l);
                    assert(views_of(l@) =~= views_of(l0@) + views_of(r0@)) by {
                        assert forall|i: int| 0 <= i < l@.len() implies views_of(l@)[i] == (
                        views_of(l0@) + views_of(r0@))[i] by {
                            if i < l0@.len() {
                                assert(l@[i] == l0@[i]);
                            } else {
                                assert(l@[i] == r0@[i - l0@.len()]);
                            }
                        }
                    }
                }
                Pattern::Sequence(l)
            },
            (Pattern::Sequence(mut l), r) => {
                let ghost l0 = l;
                let ghost r0 = r;
                l.push(r);
                proof {
                    lemma_view_cat(l0);
                    lemma_view_cat(l);
                    assert(views_of(l@) =~= views_of(l0@).push(r0@)) by {
                        assert forall|i: int| 0 <= i < l@.len() implies views_of(l@)[i]
                            == views_of(l0@).push(r0@)[i] by {
                            if i < l0@.len() {
                                assert(l@[i] == l0@[i]);
                            } else {
                                assert(l@[i] == r0);
                            }
                        }
                    }
                }
                Pattern::Sequence(l)
            },
            (l, Pattern::Sequence(mut r)) => {
                let ghost l0 = l;
                let ghost r0 = r;
                r.insert(0, l);
                proof {
                    lemma_view_cat(r0);
                    lemma_view_cat(r);
                    assert(views_of(r@) =~= seq![l0@] + views_of(r0@)) by {
                        assert forall|i: int| 0 <= i < r@.len() implies views_of(r@)[i] == (
                        seq![l0@] + views_of(r0@))[i] by {
                            if i == 0 {
                                assert(r@[i] == l0);
                            } else {
                                assert(r@[i] == r0@[i - 1]);
                            }
                        }
                    }
                }
                Pattern::Sequence(r)
            },
            (l, r) => {
                let ghost l0 = l;
                let ghost r0 = r;
                let out = vec![l, r];
                proof {
                    lemma_view_cat(out);
                    assert(views_of(out@) =~= seq![l0@, r0@]) by {
                        assert(out@[0] == l0);
                        assert(out@[1] == r0);
                    }
                }
                Pattern::Sequence(out)
            },
        }
    }
}

impl vstd::std_specs::ops::ShrSpecImpl<Pattern> for Pattern {
    open spec fn obeys_shr_spec() -> bool {
        // As for `|`: the impl's own `ensures` states the result's view.
        false
    }

    open spec fn shr_req(self, rhs: Pattern) -> bool {
        true
    }

    open spec fn shr_spec(self, rhs: Pattern) -> Pattern {
        self
    }
}

impl<'a> core::ops::BitOr<Pattern> for &'a Pattern {
    type Output = Pattern;

    fn bitor(self, rhs: Pattern) -> (r: Pattern)
        ensures
            r@ == alt_of(self@, rhs@),
    {
        (*self).clone() | rhs
    }
}

impl<'a> vstd::std_specs::ops::BitOrSpecImpl<Pattern> for &'a Pattern {
    open spec fn obeys_bitor_spec() -> bool {
        false
    }

    open spec fn bitor_req(self, rhs: Pattern) -> bool {
        true
    }

    open spec fn bitor_spec(self, rhs: Pattern) -> Pattern {
        rhs
    }
}

impl<'a> core::ops::BitOr<&'a Pattern> for Pattern {
    type Output = Pattern;

    fn bitor(self, rhs: &'a Pattern) -> (r: Pattern)
        ensures
            r@ == alt_of(self@, rhs@),
    {
        self | (*rhs).clone()
    }
}

impl<'a> vstd::std_specs::ops::BitOrSpecImpl<&'a Pattern> for Pattern {
    open spec fn obeys_bitor_spec() -> bool {
        false
    }

    open spec fn bitor_req(self, rhs: &'a Pattern) -> bool {
        true
    }

    open spec fn bitor_spec(self, rhs: &'a Pattern) -> Pattern {
        self
    }
}

impl<'a, 'b> core::ops::BitOr<&'a Pattern> for &'b Pattern {
    type Output = Pattern;

    fn bitor(self, rhs: &'a Pattern) -> (r: Pattern)
        ensures
            r@ == alt_of(self@, rhs@),
    {
        (*self).clone() | (*rhs).clone()
    }
}

impl<'a, 'b> vstd::std_specs::ops::BitOrSpecImpl<&'a Pattern> for &'b Pattern {
    open spec fn obeys_bitor_spec() -> bool {
        false
    }

    open spec fn bitor_req(self, rhs: &'a Pattern) -> bool {
        true
    }

    open spec fn bitor_spec(self, rhs: &'a Pattern) -> Pattern {
        *self
    }
}

impl<'a> core::ops::Shr<Pattern> for &'a Pattern {
    type Output = Pattern;

    fn shr(self, rhs: Pattern) -> (r: Pattern)
        ensures
            r@ == cat_of(self@, rhs@),
    {
        (*self).clone() >> rhs
    }
}

impl<'a> vstd::std_specs::ops::ShrSpecImpl<Pattern> for &'a Pattern {
    open spec fn obeys_shr_spec() -> bool {
        false
    }

    open spec fn shr_req(self, rhs: Pattern) -> bool {
        true
    }

    open spec fn shr_spec(self, rhs: Pattern) -> Pattern {
        rhs
    }
}

impl<'a> core::ops::Shr<&'a Pattern> for Pattern {
    type Output = Pattern;

    fn shr(self, rhs: &'a Pattern) -> (r: Pattern)
        ensures
            r@ == cat_of(self@, rhs@),
    {
        self >> (*rhs).clone()
    }
}

impl<'a> vstd::std_specs::ops::ShrSpecImpl<&'a Pattern> for Pattern {
    open spec fn obeys_shr_spec() -> bool {
        false
    }

    open spec fn shr_req(self, rhs: &'a Pattern) -> bool {
        true
    }

    open spec fn shr_spec(self, rhs: &'a Pattern) -> Pattern {
        self
    }
}

impl<'a, 'b> core::ops::Shr<&'a Pattern> for &'b Pattern {
    type Output = Pattern;

    fn shr(self, rhs: &'a Pattern) -> (r: Pattern)
        ensures
            r@ == cat_of(self@, rhs@),
    {
        (*self).clone() >> (*rhs).clone()
    }
}

impl<'a, 'b> vstd::std_specs::ops::ShrSpecImpl<&'a Pattern> for &'b Pattern {
    open spec fn obeys_shr_spec() -> bool {
        false
    }

    open spec fn shr_req(self, rhs: &'a Pattern) -> bool {
        true
    }

    open spec fn shr_spec(self, rhs: &'a Pattern) -> Pattern {
        *self
    }
}


/// The codes of the characters of a string, in order.
pub open spec fn codes_of(s: Seq<char>) -> Seq<u32> {
    s.map_values(|c: char| c as u32)
}

/// The pattern `all_of` builds for the word `s`: a concatenation folded from
/// `Always`, one character pattern at a time.
pub open spec fn spec_all_of(s: Seq<char>) -> PatternView
    decreases s.len(),
{
    if s.len() == 0 {
        PatternView::Always
    } else {
        cat_of(
            spec_all_of(s.drop_last()),
            PatternView::Range(s.last() as u32, s.last() as u32),
        )
    }
}

/// The pattern `any_of` builds for the characters of `s`: an alternation
/// folded from `Never`, one character pattern at a time.
pub open spec fn spec_any_of(s: Seq<char>) -> PatternView
    decreases s.len(),
{
    if s.len() == 0 {
        PatternView::Never
    } else {
        alt_of(
            spec_any_of(s.drop_last()),
            PatternView::Range(s.last() as u32, s.last() as u32),
        )
    }
}

/// The pattern `repeat` builds: `num` copies of `p` folded from `Always`.
pub open spec fn spec_repeat(p: PatternView, num: nat) -> PatternView
    decreases num,
{
    if num == 0 {
        PatternView::Always
    } else {
        cat_of(spec_repeat(p, (num - 1) as nat), p)
    }
}

/// The pattern `repeat_between` builds: the alternation of `n` copies of `p`
/// for every `n` in `min..max`, folded from `Never`.
pub open spec fn spec_repeat_between(p: PatternView, min: nat, max: nat) -> PatternView
    decreases max,
{
    if max <= min {
        PatternView::Never
    } else {
        alt_of(spec_repeat_between(p, min, (max - 1) as nat), spec_repeat(p, (max - 1) as nat))
    }
}


/// The division points that building `p` into an NFA inserts into the
/// alphabet segmentation: for every range of `p`, its start and, unless the
/// range reaches EOF, the code one past its end.
pub open spec fn pattern_divs(p: PatternView) -> Set<int>
    decreases p,
{
    match p {
        PatternView::Range(lo, hi) => if hi == EOF_CODE {
            set![lo as int]
        } else {
            set![lo as int, hi + 1]
        },
        PatternView::Or(ps) => list_divs(ps),
        PatternView::Cat(ps) => list_divs(ps),
        PatternView::Many(b) => pattern_divs(*b),
        PatternView::Always => Set::empty(),
        PatternView::Never => Set::empty(),
    }
}

/// The union of the division points of the listed patterns.
pub open spec fn list_divs(ps: Seq<PatternView>) -> Set<int>
    decreases ps,
{
    if ps.len() == 0 {
        Set::empty()
    } else {
        list_divs(ps.drop_last()).union(pattern_divs(ps.last()))
    }
}

/// Whether `p` holds any symbol range at all; a pattern without one can
/// consume no symbol, so building it adds no transitions.
pub open spec fn pattern_has_range(p: PatternView) -> bool
    decreases p,
{
    match p {
        PatternView::Range(lo, hi) => true,
        PatternView::Or(ps) => list_has_range(ps),
        PatternView::Cat(ps) => list_has_range(ps),
        PatternView::Many(b) => pattern_has_range(*b),
        PatternView::Always => false,
        PatternView::Never => false,
    }
}

/// Whether any of the listed patterns holds a symbol range.
pub open spec fn list_has_range(ps: Seq<PatternView>) -> bool
    decreases ps,
{
    if ps.len() == 0 {
        false
    } else {
        list_has_range(ps.drop_last()) || pattern_has_range(ps.last())
    }
}

/// A pattern of a list without ranges holds no range itself.
pub proof fn lemma_list_has_range_elem(ps: Seq<PatternView>, i: int)
    requires
        0 <= i < ps.len(),
        !list_has_range(ps),
    ensures
        !pattern_has_range(ps[i]),
    decreases ps.len(),
{
    if i < ps.len() - 1 {
        assert(ps.drop_last()[i] == ps[i]);
        lemma_list_has_range_elem(ps.drop_last(), i);
    }
}

/// Whether `p` matches the empty word.
pub open spec fn nullable(p: PatternView) -> bool
    decreases p,
{
    match p {
        PatternView::Range(lo, hi) => false,
        PatternView::Or(ps) => any_nullable(ps),
        PatternView::Cat(ps) => all_nullable(ps),
        PatternView::Many(b) => true,
        PatternView::Always => true,
        PatternView::Never => false,
    }
}

/// Whether some listed pattern matches the empty word.
pub open spec fn any_nullable(ps: Seq<PatternView>) -> bool
    decreases ps,
{
    if ps.len() == 0 {
        false
    } else {
        any_nullable(ps.drop_last()) || nullable(ps.last())
    }
}

/// Whether every listed pattern matches the empty word.
pub open spec fn all_nullable(ps: Seq<PatternView>) -> bool
    decreases ps,
{
    if ps.len() == 0 {
        true
    } else {
        all_nullable(ps.drop_last()) && nullable(ps.last())
    }
}

/// A strictly increasing sequence of codes.
pub open spec fn is_sorted_strict(s: Seq<u32>) -> bool {
    forall|i: int, j: int| 0 <= i < j < s.len() ==> s[i] < s[j]
}

/// Inserts a code into a sorted sequence, keeping it sorted and dropping a
/// duplicate.
pub open spec fn insert_code(s: Seq<u32>, v: u32) -> Seq<u32>
    decreases s.len(),
{
    if s.len() == 0 {
        seq![v]
    } else if v < s[0] {
        seq![v] + s
    } else if v == s[0] {
        s
    } else {
        seq![s[0]] + insert_code(s.drop_first(), v)
    }
}

/// The codes of `codes` sorted in ascending order with duplicates removed.
pub open spec fn sorted_codes(codes: Seq<u32>) -> Seq<u32>
    decreases codes.len(),
{
    if codes.len() == 0 {
        Seq::empty()
    } else {
        insert_code(sorted_codes(codes.drop_last()), codes.last())
    }
}

/// The alternation of the ranges lying strictly between adjacent codes of the
/// sorted sequence `s`, folded left from `Never`; an empty gap adds nothing.
pub open spec fn gaps_pattern(s: Seq<u32>) -> PatternView
    decreases s.len(),
{
    if s.len() < 2 {
        PatternView::Never
    } else {
        let prefix = gaps_pattern(s.drop_last());
        let prev = s[s.len() - 2];
        let next = s.last();
        if next - 1 < prev + 1 {
            prefix
        } else {
            alt_of(prefix, PatternView::Range((prev + 1) as u32, (next - 1) as u32))
        }
    }
}

/// The pattern matching every code the sorted, duplicate-free, non-empty
/// sequence `s` leaves out: the gaps between its codes, extended below its
/// least code unless that is NULL and above its greatest code unless that is
/// EOF.
pub open spec fn spec_none_of_codes(s: Seq<u32>) -> PatternView {
    let base = gaps_pattern(s);
    if s[0] == NULL_CODE && s.last() == EOF_CODE {
        base
    } else if s[0] == NULL_CODE {
        alt_of(base, PatternView::Range((s.last() + 1) as u32, EOF_CODE))
    } else if s.last() == EOF_CODE {
        alt_of(PatternView::Range(NULL_CODE, (s[0] - 1) as u32), base)
    } else {
        alt_of(
            alt_of(PatternView::Range(NULL_CODE, (s[0] - 1) as u32), base),
            PatternView::Range((s.last() + 1) as u32, EOF_CODE),
        )
    }
}

/// `insert_code` keeps a sorted sequence sorted and adds exactly the new
/// code; the result is never empty and keeps the old codes.
proof fn lemma_insert_code(s: Seq<u32>, v: u32)
    requires
        is_sorted_strict(s),
    ensures
        is_sorted_strict(insert_code(s, v)),
        insert_code(s, v).len() >= 1,
        forall|x: u32|
            #![trigger insert_code(s, v).contains(x)]
            #![trigger s.contains(x)]
            insert_code(s, v).contains(x) <==> (s.contains(x) || x == v),
    decreases s.len(),
{
    let r = insert_code(s, v);
    if s.len() == 0 {
        assert forall|x: u32| r.contains(x) implies (s.contains(x) || x == v) by {
            let i = choose|i: int| 0 <= i < r.len() && r[i] == x;
        }
        assert(r.contains(v)) by {
            assert(r[0] == v);
        }
    } else if v < s[0] {
        assert forall|x: u32| r.contains(x) implies (s.contains(x) || x == v) by {
            let i = choose|i: int| 0 <= i < r.len() && r[i] == x;
            if i > 0 {
                assert(s[i - 1] == x);
            }
        }
        assert forall|x: u32| s.contains(x) implies r.contains(x) by {
            let i = choose|i: int| 0 <= i < s.len() && s[i] == x;
            assert(r[i + 1] == x);
        }
        assert(r.contains(v)) by {
            assert(r[0] == v);
        }
    } else if v == s[0] {
        assert(r.contains(v)) by {
            assert(r[0] == v);
        }
    } else {
        let tail = s.drop_first();
        assert(is_sorted_strict(tail));
        lemma_insert_code(tail, v);
        let rt = insert_code(tail, v);
        // r == seq![s[0]] + rt; s[0] is below everything in rt.
        assert forall|j: int| 0 <= j < rt.len() implies s[0] < rt[j] by {
            assert(rt.contains(rt[j]));
            if tail.contains(rt[j]) {
                let k = choose|k: int| 0 <= k < tail.len() && tail[k] == rt[j];
                assert(s[k + 1] == rt[j]);
            }
        }
        assert forall|i: int, j: int| 0 <= i < j < r.len() implies r[i] < r[j] by {
            if i > 0 {
                assert(r[i] == rt[i - 1]);
                assert(r[j] == rt[j - 1]);
            } else {
                assert(r[j] == rt[j - 1]);
            }
        }
        assert forall|x: u32| r.contains(x) implies (s.contains(x) || x == v) by {
            let i = choose|i: int| 0 <= i < r.len() && r[i] == x;
            if i > 0 {
                assert(rt[i - 1] == x);
                assert(rt.contains(x));
                if tail.contains(x) {
                    let k = choose|k: int| 0 <= k < tail.len() && tail[k] == x;
                    assert(s[k + 1] == x);
                }
            }
        }
        assert forall|x: u32| (s.contains(x) || x == v) implies r.contains(x) by {
            if x == v {
                assert(rt.contains(x));
                let k = choose|k: int| 0 <= k < rt.len() && rt[k] == x;
                assert(r[k + 1] == x);
            } else {
                let i = choose|i: int| 0 <= i < s.len() && s[i] == x;
                if i == 0 {
                    assert(r[0] == x);
                } else {
                    assert(tail[i - 1] == x);
                    assert(rt.contains(x));
                    let k = choose|k: int| 0 <= k < rt.len() && rt[k] == x;
                    assert(r[k + 1] == x);
                }
            }
        }
    }
}

/// The sorted form of a code sequence is sorted, duplicate-free by
/// construction, holds exactly the input's codes, and is empty only when the
/// input is.
proof fn lemma_sorted_codes(codes: Seq<u32>)
    ensures
        is_sorted_strict(sorted_codes(codes)),
        forall|x: u32|
            #![trigger sorted_codes(codes).contains(x)]
            #![trigger codes.contains(x)]
            sorted_codes(codes).contains(x) <==> codes.contains(x),
        codes.len() > 0 ==> sorted_codes(codes).len() >= 1,
    decreases codes.len(),
{
    if codes.len() == 0 {
    } else {
        let prefix = codes.drop_last();
        lemma_sorted_codes(prefix);
        lemma_insert_code(sorted_codes(prefix), codes.last());
        assert forall|x: u32| sorted_codes(codes).contains(x) implies codes.contains(x) by {
            if prefix.contains(x) {
                let i = choose|i: int| 0 <= i < prefix.len() && prefix[i] == x;
                assert(codes[i] == x);
            } else {
                assert(codes.last() == x);
            }
        }
        assert forall|x: u32| codes.contains(x) implies sorted_codes(codes).contains(x) by {
            let i = choose|i: int| 0 <= i < codes.len() && codes[i] == x;
            if i < codes.len() - 1 {
                assert(prefix[i] == x);
                assert(prefix.contains(x));
            }
        }
    }
}

impl Pattern {
    /// A pattern that never triggers.
    pub fn never() -> (r: Self)
        ensures
            r@ == PatternView::Never,
    {
        Pattern::Never
    }

    /// A pattern that always triggers.
    pub fn always() -> (r: Self)
        ensures
            r@ == PatternView::Always,
    {
        Pattern::Always
    }

    /// A pattern that triggers on any symbol, EOF included.
    pub fn any() -> (r: Self)
        ensures
            r@ == PatternView::Range(NULL_CODE, EOF_CODE),
    {
        Pattern::symbols(SymbolRange::of_codes(NULL_CODE, EOF_CODE))
    }

    /// A pattern that triggers on zero or more repetitions of `self`.
    pub fn many(&self) -> (r: Self)
        ensures
            r@ == PatternView::Many(Box::new(self@)),
    {
        Pattern::Many(Box::new(self.clone()))
    }

    /// A pattern that triggers on one or more repetitions of `self`.
    pub fn many1(&self) -> (r: Self)
        ensures
            r@ == cat_of(self@, PatternView::Many(Box::new(self@))),
    {
        self.clone() >> self.many()
    }

    /// A pattern that triggers on zero or one occurrence of `self`.
    pub fn opt(&self) -> (r: Self)
        ensures
            r@ == alt_of(self@, PatternView::Always),
    {
        self.clone() | Self::always()
    }

    /// A pattern that triggers on the given character.
    pub fn char(character: char) -> (r: Self)
        ensures
            r@ == PatternView::Range(character as u32, character as u32),
    {
        Self::symbol(Symbol::new(character as u32))
    }

    /// A pattern that triggers on the given symbol.
    pub fn symbol(symbol: Symbol) -> (r: Self)
        ensures
            r@ == PatternView::Range(symbol.value, symbol.value),
    {
        Pattern::symbols(SymbolRange::new(symbol, symbol))
    }

    /// A pattern that triggers on any of the symbols in the range.
    pub fn symbols(symbols: SymbolRange) -> (r: Self)
        ensures
            r@ == PatternView::Range(symbols.start.value, symbols.end.value),
    {
        Pattern::Range(symbols)
    }

    /// A pattern that triggers at the end of the input.
    pub fn eof() -> (r: Self)
        ensures
            r@ == PatternView::Range(EOF_CODE, EOF_CODE),
    {
        Self::symbol(Symbol::eof_code())
    }

    /// A pattern that triggers on any character from `start` to `end`
    /// inclusive.
    pub fn range(start: char, end: char) -> (r: Self)
        ensures
            r@ == PatternView::Range(start as u32, end as u32),
    {
        Pattern::symbols(SymbolRange::new(Symbol::new(start as u32), Symbol::new(end as u32)))
    }

    /// The pattern that triggers when the characters of `chars` are
    /// encountered one after another.
    pub fn all_of(chars: &str) -> (r: Self)
        ensures
            r@ == spec_all_of(chars@),
    {
        let n = chars.unicode_len();
        let mut pat = Self::always();
        let mut i: usize = 0;
        while i < n
            invariant
                i <= n,
                n == chars@.len(),
                pat@ == spec_all_of(chars@.take(i as int)),
            decreases n - i,
        {
            let c = chars.get_char(i);
            pat = pat >> Self::char(c);
            proof {
                assert(chars@.take(i + 1).drop_last() =~= chars@.take(i as int));
                assert(chars@.take(i + 1).last() == chars@[i as int]);
            }
            i += 1;
        }
        proof {
            assert(chars@.take(n as int) =~= chars@);
        }
        pat
    }

    /// The pattern that triggers on any one character contained in `chars`.
    pub fn any_of(chars: &str) -> (r: Self)
        ensures
            r@ == spec_any_of(chars@),
    {
        let n = chars.unicode_len();
        let mut pat = Self::never();
        let mut i: usize = 0;
        while i < n
            invariant
                i <= n,
                n == chars@.len(),
                pat@ == spec_any_of(chars@.take(i as int)),
            decreases n - i,
        {
            let c = chars.get_char(i);
            pat = pat | Self::char(c);
            proof {
                assert(chars@.take(i + 1).drop_last() =~= chars@.take(i as int));
                assert(chars@.take(i + 1).last() == chars@[i as int]);
            }
            i += 1;
        }
        proof {
            assert(chars@.take(n as int) =~= chars@);
        }
        pat
    }

    /// The pattern that triggers on any character not contained in `chars`.
    ///
    /// NULL and EOF are always excluded as well; use
    /// [`Pattern::none_of_codes`] to keep them.
    pub fn none_of(chars: &str) -> (r: Self)
        ensures
            r@ == spec_none_of_codes(
                sorted_codes(seq![NULL_CODE] + codes_of(chars@) + seq![EOF_CODE]),
            ),
    {
        let n = chars.unicode_len();
        let mut codes: Vec<u32> = Vec::new();
        codes.push(NULL_CODE);
        let mut i: usize = 0;
        while i < n
            invariant
                i <= n,
                n == chars@.len(),
                codes@ =~= seq![NULL_CODE] + codes_of(chars@.take(i as int)),
            decreases n - i,
        {
            let c = chars.get_char(i);
            codes.push(c as u32);
            proof {
                assert(codes@ =~= seq![NULL_CODE] + codes_of(chars@.take(i + 1)));
            }
            i += 1;
        }
        codes.push(EOF_CODE);
        proof {
            assert(chars@.take(n as int) =~= chars@);
            assert(codes@ =~= seq![NULL_CODE] + codes_of(chars@) + seq![EOF_CODE]);
        }
        Self::none_of_codes(codes.as_slice())
    }

    /// The pattern that triggers on any code not contained in `codes`.
    ///
    /// The result covers the whole symbol space except the given codes: the
    /// gaps between them, everything below their least code unless that is
    /// NULL, and everything above their greatest code unless that is EOF.
    pub fn none_of_codes(codes: &[u32]) -> (r: Self)
        requires
            codes@.len() > 0,
        ensures
            r@ == spec_none_of_codes(sorted_codes(codes@)),
    {
        let mut sorted: Vec<u32> = Vec::new();
        let mut i: usize = 0;
        while i < codes.len()
            invariant
                i <= codes@.len(),
                sorted@ == sorted_codes(codes@.take(i as int)),
            decreases codes@.len() - i,
        {
            proof {
                lemma_sorted_codes(codes@.take(i as int));
            }
            let v = codes[i];
            insert_sorted_code(&mut sorted, v);
            proof {
                assert(codes@.take(i + 1).drop_last() =~= codes@.take(i as int));
            }
            i += 1;
        }
        proof {
            assert(codes@.take(codes@.len() as int) =~= codes@);
            lemma_sorted_codes(codes@);
            assert(sorted@.contains(codes@[0]));
        }
        let mut pat = Self::never();
        let mut k: usize = 1;
        while k < sorted.len()
            invariant
                1 <= k,
                k <= sorted@.len() || sorted@.len() == 0,
                is_sorted_strict(sorted@),
                pat@ == gaps_pattern(sorted@.take(k as int)),
            decreases sorted@.len() - k,
        {
            let prev = sorted[k - 1];
            let next = sorted[k];
            proof {
                assert(sorted@.take(k + 1).drop_last() =~= sorted@.take(k as int));
                assert(sorted@.take(k + 1).last() == sorted@[k as int]);
                assert(sorted@.take(k + 1)[k - 1] == sorted@[k - 1]);
            }
            if next - 1 >= prev + 1 {
                pat = pat | Pattern::symbols(SymbolRange::of_codes(prev + 1, next - 1));
            }
            k += 1;
        }
        proof {
            assert(sorted@.take(sorted@.len() as int) =~= sorted@);
        }
        let first = sorted[0];
        let last = sorted[sorted.len() - 1];
        if first == NULL_CODE && last == EOF_CODE {
            pat
        } else if first == NULL_CODE {
            pat | Pattern::symbols(SymbolRange::of_codes(last + 1, EOF_CODE))
        } else if last == EOF_CODE {
            Pattern::symbols(SymbolRange::of_codes(NULL_CODE, first - 1)) | pat
        } else {
            Pattern::symbols(SymbolRange::of_codes(NULL_CODE, first - 1)) | pat | Pattern::symbols(
                SymbolRange::of_codes(last + 1, EOF_CODE),
            )
        }
    }

    /// The pattern that triggers on any character but `character`.
    ///
    /// NULL and EOF are excluded as well, as in [`Pattern::none_of`].
    pub fn not(character: char) -> (r: Self)
        ensures
            r@ == spec_none_of_codes(
                sorted_codes(seq![NULL_CODE, character as u32, EOF_CODE]),
            ),
    {
        let codes = vec![NULL_CODE, character as u32, EOF_CODE];
        proof {
            assert(codes@ =~= seq![NULL_CODE, character as u32, EOF_CODE]);
        }
        Self::none_of_codes(codes.as_slice())
    }

    /// The pattern that triggers on any symbol but `symbol`.
    pub fn not_symbol(symbol: Symbol) -> (r: Self)
        ensures
            r@ == (if symbol.value == NULL_CODE {
                PatternView::Range(1u32, EOF_CODE)
            } else if symbol.value == EOF_CODE {
                PatternView::Range(NULL_CODE, (EOF_CODE - 1) as u32)
            } else {
                alt_of(
                    PatternView::Range(NULL_CODE, (symbol.value - 1) as u32),
                    PatternView::Range((symbol.value + 1) as u32, EOF_CODE),
                )
            }),
    {
        if symbol.value == NULL_CODE {
            Self::Range(SymbolRange::of_codes(NULL_CODE + 1, EOF_CODE))
        } else if symbol.value == EOF_CODE {
            Self::Range(SymbolRange::of_codes(NULL_CODE, EOF_CODE - 1))
        } else {
            let before = Self::Range(SymbolRange::of_codes(NULL_CODE, symbol.value - 1));
            let after = Self::Range(SymbolRange::of_codes(symbol.value + 1, EOF_CODE));
            before | after
        }
    }

    /// The pattern that triggers on exactly `num` repetitions of `pat`.
    pub fn repeat(pat: &Pattern, num: usize) -> (r: Self)
        ensures
            r@ == spec_repeat(pat@, num as nat),
    {
        let mut out = Self::always();
        let mut k: usize = 0;
        while k < num
            invariant
                k <= num,
                out@ == spec_repeat(pat@, k as nat),
            decreases num - k,
        {
            out = out >> pat.clone();
            k += 1;
        }
        out
    }

    /// The pattern that triggers on at least `min` and fewer than `max`
    /// repetitions of `pat`.
    pub fn repeat_between(pat: &Pattern, min: usize, max: usize) -> (r: Self)
        ensures
            r@ == spec_repeat_between(pat@, min as nat, max as nat),
    {
        let mut out = Self::never();
        let mut n: usize = min;
        while n < max
            invariant
                min <= n,
                n <= max || n == min,
                out@ == spec_repeat_between(pat@, min as nat, n as nat),
            decreases max - n,
        {
            let rep = Self::repeat(pat, n);
            out = out | rep;
            n += 1;
        }
        out
    }
}

/// Inserts a code into a sorted vector, keeping it sorted and skipping a
/// duplicate, exactly as `insert_code` describes.
fn insert_sorted_code(list: &mut Vec<u32>, value: u32)
    requires
        is_sorted_strict(old(list)@),
    ensures
        final(list)@ == insert_code(old(list)@, value),
{
    let mut idx: usize = 0;
    while idx < list.len() && list[idx] < value
        invariant
            idx <= list@.len(),
            forall|k: int| 0 <= k < idx ==> list@[k] < value,
            list == old(list),
        decreases list@.len() - idx,
    {
        idx += 1;
    }
    proof {
        lemma_insert_code_prefix(list@, value, idx as int);
    }
    if idx < list.len() && list[idx] == value {
        proof {
            assert(insert_code(list@.skip(idx as int), value) == list@.skip(idx as int));
            assert(list@.take(idx as int) + list@.skip(idx as int) =~= list@);
        }
        return ;
    }
    list.insert(idx, value);
    proof {
        let od = old(list)@;
        let tail = od.skip(idx as int);
        if idx < od.len() {
            assert(insert_code(tail, value) =~= seq![value] + tail);
        } else {
            assert(tail =~= Seq::<u32>::empty());
            assert(insert_code(tail, value) =~= seq![value] + tail);
        }
        assert(list@ =~= od.take(idx as int) + insert_code(tail, value));
    }
}

/// Scanning past a prefix of codes below `v` does not change the insertion:
/// `insert_code` splits at any point where everything before is smaller.
proof fn lemma_insert_code_prefix(s: Seq<u32>, v: u32, i: int)
    requires
        0 <= i <= s.len(),
        forall|k: int| 0 <= k < i ==> s[k] < v,
    ensures
        insert_code(s, v) == s.take(i) + insert_code(s.skip(i), v),
    decreases i,
{
    if i == 0 {
        assert(s.skip(0) =~= s);
        assert(s.take(0) + insert_code(s.skip(0), v) =~= insert_code(s, v));
    } else {
        let d = s.drop_first();
        lemma_insert_code_prefix(d, v, i - 1);
        assert(d.skip(i - 1) =~= s.skip(i));
        assert(insert_code(s, v) == seq![s[0]] + insert_code(d, v));
        assert(seq![s[0]] + (d.take(i - 1) + insert_code(d.skip(i - 1), v)) =~= s.take(i)
            + insert_code(s.skip(i), v));
    }
}

} // verus!
