//! The DPLL solver core.
//!
//! A `Context` pairs a borrowed formula with the mutable search state: the
//! current assignment, the set of unassigned variables with their polarity
//! tallies, and one state per clause driving the watched-literal scheme.

use vstd::pervasive::VecAdditionalExecFns;
use vstd::prelude::*;

use crate::formula::{
    copy_vec, eval_lit_spec, lit_false, lit_true, map_extends, Assignment, Clause, Formula,
};
use crate::literals::{lit_of, Lit, Var};

verus! {

broadcast use
    vstd::seq_lib::group_filter_ensures,
    Seq::lemma_filter_push,
    Seq::lemma_filter_contains_rev,
;

/// Which polarities of a variable occur among the formula's literals.
#[derive(Copy, Clone, PartialEq, Eq, Structural, Debug)]
pub enum LitPolarities {
    /// Only positive occurrences were seen.
    TrueOnly,
    /// Only negative occurrences were seen.
    FalseOnly,
    /// Both polarities occur.
    Both,
}

/// The solver's per-clause state.
#[derive(Copy, Clone, PartialEq, Eq, Structural, Debug)]
pub enum ClauseState {
    /// Two distinct-variable literals of the clause are watched; both are
    /// unassigned.
    Watching(Lit, Lit),
    /// Exactly one literal is unassigned and all others are false; the
    /// literal is pending propagation.
    Unit(Lit),
    /// The clause is satisfied (`true`) or falsified (`false`).
    Complete(bool),
}

/// A positive occurrence of variable `v` somewhere in the formula.
pub open spec fn occurs_pos(f: Formula, v: u32) -> bool {
    exists|i: int, j: int|
        #![trigger f@[i]@[j]]
        0 <= i < f@.len() && 0 <= j < f@[i]@.len() && f@[i]@[j].var_idx() == v && f@[i]@[j].pol()
}

/// A negative occurrence of variable `v` somewhere in the formula.
pub open spec fn occurs_neg(f: Formula, v: u32) -> bool {
    exists|i: int, j: int|
        #![trigger f@[i]@[j]]
        0 <= i < f@.len() && 0 <= j < f@[i]@.len() && f@[i]@[j].var_idx() == v && !f@[i]@[j].pol()
}

/// Variable `v` occurs in the formula.
pub open spec fn occurs(f: Formula, v: u32) -> bool {
    occurs_pos(f, v) || occurs_neg(f, v)
}

/// The tally records exactly which polarities of `v` occur in `f`.
pub open spec fn tally_ok(f: Formula, v: u32, t: LitPolarities) -> bool {
    match t {
        LitPolarities::TrueOnly => occurs_pos(f, v) && !occurs_neg(f, v),
        LitPolarities::FalseOnly => !occurs_pos(f, v) && occurs_neg(f, v),
        LitPolarities::Both => occurs_pos(f, v) && occurs_neg(f, v),
    }
}

/// `m` assigns every variable that occurs in `f`.
pub open spec fn covers(m: Map<u32, bool>, f: Formula) -> bool {
    forall|v: u32| #[trigger] occurs(f, v) ==> m.contains_key(v)
}

/// Some assignment extending `a` and covering `f`'s variables satisfies `f`.
pub open spec fn sat_extendable(f: Formula, a: Map<u32, bool>) -> bool {
    exists|m: Map<u32, bool>| map_extends(m, a) && covers(m, f) && #[trigger] f.sat_by(m)
}

/// Variable `v1` has an occurrence in the formula that comes strictly
/// before every occurrence of `v2`, in clause-major literal order.
pub open spec fn occurs_first_before(f: Formula, v1: u32, v2: u32) -> bool {
    exists|i: int, j: int|
        #![trigger f@[i]@[j]]
        0 <= i < f@.len() && 0 <= j < f@[i]@.len() && f@[i]@[j].var_idx() == v1 && (forall|
            i2: int,
            j2: int,
        |
            #![trigger f@[i2]@[j2]]
            0 <= i2 < f@.len() && 0 <= j2 < f@[i2]@.len() && f@[i2]@[j2].var_idx() == v2 ==> (i
                < i2 || (i == i2 && j < j2)))
}

/// The per-clause state is faithful to the clause under the current map.
pub open spec fn state_consistent(c: Clause, st: ClauseState, m: Map<u32, bool>) -> bool {
    match st {
        ClauseState::Watching(a, b) => {
            &&& c@.contains(a)
            &&& c@.contains(b)
            &&& a.var_idx() != b.var_idx()
            &&& !m.contains_key(a.var_idx())
            &&& !m.contains_key(b.var_idx())
        },
        ClauseState::Unit(l) => {
            &&& c@.contains(l)
            &&& !m.contains_key(l.var_idx())
            &&& forall|j: int|
                0 <= j < c@.len() && (#[trigger] c@[j]).var_idx() != l.var_idx() ==> lit_false(
                    m,
                    c@[j],
                )
        },
        ClauseState::Complete(sat) => if sat {
            c.sat_by(m)
        } else {
            c.falsified_by(m)
        },
    }
}

/// A literal that could replace a false watch: unassigned, and on a
/// different variable than the watch that is kept.
pub open spec fn watch_candidate(m: Map<u32, bool>, keep: Lit, l: Lit) -> bool {
    !m.contains_key(l.var_idx()) && l.var_idx() != keep.var_idx()
}

/// Some literal of the sequence is true under the map.
pub open spec fn seq_has_true(s: Seq<Lit>, m: Map<u32, bool>) -> bool {
    exists|j: int| 0 <= j < s.len() && lit_true(m, #[trigger] s[j])
}

/// Some literal of the sequence is a replacement candidate.
pub open spec fn has_candidate(s: Seq<Lit>, m: Map<u32, bool>, keep: Lit) -> bool {
    exists|j: int| 0 <= j < s.len() && watch_candidate(m, keep, #[trigger] s[j])
}

/// The last replacement candidate in the sequence; the scan keeps
/// overwriting its candidate, so the final one wins.
pub open spec fn last_candidate(s: Seq<Lit>, m: Map<u32, bool>, keep: Lit) -> Lit
    decreases s.len(),
{
    if s.len() == 0 {
        arbitrary()
    } else if watch_candidate(m, keep, s.last()) {
        s.last()
    } else {
        last_candidate(s.drop_last(), m, keep)
    }
}

/// What the replacement scan of a watched clause yields when `keep` is the
/// still-watched literal: a true literal completes the clause, otherwise the
/// last candidate becomes the new watch, otherwise the clause is unit.
pub open spec fn scan_state(c: Clause, m: Map<u32, bool>, keep: Lit) -> ClauseState {
    if seq_has_true(c@, m) {
        ClauseState::Complete(true)
    } else if has_candidate(c@, m, keep) {
        ClauseState::Watching(keep, last_candidate(c@, m, keep))
    } else {
        ClauseState::Unit(keep)
    }
}

/// The clause-state transition performed by `assign` once `w := value` has
/// been recorded, with `m2` the updated map.
pub open spec fn next_state(c: Clause, st: ClauseState, m2: Map<u32, bool>, w: u32, value: bool) -> ClauseState {
    match st {
        ClauseState::Watching(a, b) => {
            if a.var_idx() != w && b.var_idx() != w {
                st
            } else if lit_true(m2, a) || lit_true(m2, b) {
                ClauseState::Complete(true)
            } else {
                scan_state(c, m2, if a.var_idx() == w { b } else { a })
            }
        },
        ClauseState::Unit(l) => {
            if l.var_idx() == w {
                ClauseState::Complete(l.pol() == value)
            } else {
                st
            }
        },
        ClauseState::Complete(_) => st,
    }
}

/// The state a clause starts in: empty clauses are falsified from the
/// outset, single-literal clauses are unit, all others watch their first two
/// literals.
pub open spec fn initial_state(c: Clause) -> ClauseState {
    if c@.len() == 0 {
        ClauseState::Complete(false)
    } else if c@.len() == 1 {
        ClauseState::Unit(c@[0])
    } else {
        ClauseState::Watching(c@[0], c@[1])
    }
}

/// The first pending unit literal among the clause states, scanning from
/// position `i`.
pub open spec fn first_unit_from(ss: Seq<ClauseState>, i: int) -> Option<Lit>
    decreases ss.len() - i when 0 <= i <= ss.len()
{
    if i >= ss.len() {
        None
    } else if ss[i] is Unit {
        Some(ss[i]->Unit_0)
    } else {
        first_unit_from(ss, i + 1)
    }
}

/// The first pure literal recorded by the polarity tallies, scanning from
/// position `k`: a variable seen with one polarity only, with that polarity.
pub open spec fn first_pure_from(us: Seq<(Var, LitPolarities)>, k: int) -> Option<Lit>
    decreases us.len() - k when 0 <= k <= us.len()
{
    if k >= us.len() {
        None
    } else if us[k].1 == LitPolarities::TrueOnly {
        Some(lit_of(us[k].0@, true))
    } else if us[k].1 == LitPolarities::FalseOnly {
        Some(lit_of(us[k].0@, false))
    } else {
        first_pure_from(us, k + 1)
    }
}

/// The unassigned list with the entry for variable `v` removed.
pub open spec fn remove_unassigned(us: Seq<(Var, LitPolarities)>, v: u32) -> Seq<(Var, LitPolarities)> {
    us.filter(|e: (Var, LitPolarities)| e.0@ != v)
}

/// A positive occurrence of `v` strictly before position `(ci, lj)` in the
/// formula's clause-major literal order.
spec fn occurs_pos_before(f: Formula, v: u32, ci: int, lj: int) -> bool {
    exists|i: int, j: int|
        #![trigger f@[i]@[j]]
        0 <= i < f@.len() && 0 <= j < f@[i]@.len() && (i < ci || (i == ci && j < lj))
            && f@[i]@[j].var_idx() == v && f@[i]@[j].pol()
}

/// A negative occurrence of `v` strictly before position `(ci, lj)`.
spec fn occurs_neg_before(f: Formula, v: u32, ci: int, lj: int) -> bool {
    exists|i: int, j: int|
        #![trigger f@[i]@[j]]
        0 <= i < f@.len() && 0 <= j < f@[i]@.len() && (i < ci || (i == ci && j < lj))
            && f@[i]@[j].var_idx() == v && !f@[i]@[j].pol()
}

/// Any occurrence of `v` strictly before position `(ci, lj)`.
spec fn occurs_before(f: Formula, v: u32, ci: int, lj: int) -> bool {
    occurs_pos_before(f, v, ci, lj) || occurs_neg_before(f, v, ci, lj)
}

/// The tally records exactly which polarities of `v` occur before `(ci, lj)`.
spec fn tally_ok_before(f: Formula, v: u32, t: LitPolarities, ci: int, lj: int) -> bool {
    match t {
        LitPolarities::TrueOnly => occurs_pos_before(f, v, ci, lj) && !occurs_neg_before(
            f,
            v,
            ci,
            lj,
        ),
        LitPolarities::FalseOnly => !occurs_pos_before(f, v, ci, lj) && occurs_neg_before(
            f,
            v,
            ci,
            lj,
        ),
        LitPolarities::Both => occurs_pos_before(f, v, ci, lj) && occurs_neg_before(f, v, ci, lj),
    }
}

/// The tally list is exact for the literals before `(ci, lj)`: every entry
/// is in range and correctly tallied, no variable is recorded twice, and
/// every variable seen so far is recorded.
spec fn tally_invariant(us: Seq<(Var, LitPolarities)>, f: Formula, ci: int, lj: int) -> bool {
    &&& forall|k: int|
        0 <= k < us.len() ==> ((#[trigger] us[k]).0.wf() && occurs_before(f, us[k].0@, ci, lj)
            && tally_ok_before(f, us[k].0@, us[k].1, ci, lj))
    &&& forall|k1: int, k2: int| 0 <= k1 < k2 < us.len() ==> us[k1].0@ != us[k2].0@
    &&& forall|k1: int, k2: int|
        0 <= k1 < k2 < us.len() ==> occurs_first_before(f, us[k1].0@, us[k2].0@)
    &&& forall|v: u32|
        #[trigger] occurs_before(f, v, ci, lj) ==> exists|k: int|
            0 <= k < us.len() && (#[trigger] us[k]).0@ == v
}

/// Processing the literal at `(ci, lj)` extends the seen prefix by exactly
/// that literal's occurrence.
proof fn lemma_occurs_step(f: Formula, ci: int, lj: int)
    requires
        0 <= ci < f@.len(),
        0 <= lj < f@[ci]@.len(),
    ensures
        forall|v: u32|
            v != f@[ci]@[lj].var_idx() ==> (#[trigger] occurs_pos_before(f, v, ci, lj + 1))
                == occurs_pos_before(f, v, ci, lj),
        forall|v: u32|
            v != f@[ci]@[lj].var_idx() ==> (#[trigger] occurs_neg_before(f, v, ci, lj + 1))
                == occurs_neg_before(f, v, ci, lj),
        occurs_pos_before(f, f@[ci]@[lj].var_idx(), ci, lj + 1) == (occurs_pos_before(
            f,
            f@[ci]@[lj].var_idx(),
            ci,
            lj,
        ) || f@[ci]@[lj].pol()),
        occurs_neg_before(f, f@[ci]@[lj].var_idx(), ci, lj + 1) == (occurs_neg_before(
            f,
            f@[ci]@[lj].var_idx(),
            ci,
            lj,
        ) || !f@[ci]@[lj].pol()),
{
    let v0 = f@[ci]@[lj].var_idx();
    assert forall|v: u32| v != v0 implies (#[trigger] occurs_pos_before(f, v, ci, lj + 1))
        == occurs_pos_before(f, v, ci, lj) by {
        if occurs_pos_before(f, v, ci, lj + 1) {
            let (i, j) = choose|i: int, j: int|
                #![trigger f@[i]@[j]]
                0 <= i < f@.len() && 0 <= j < f@[i]@.len() && (i < ci || (i == ci && j < lj + 1))
                    && f@[i]@[j].var_idx() == v && f@[i]@[j].pol();
            assert(!(i == ci && j == lj));
            assert(occurs_pos_before(f, v, ci, lj));
        }
        if occurs_pos_before(f, v, ci, lj) {
            let (i, j) = choose|i: int, j: int|
                #![trigger f@[i]@[j]]
                0 <= i < f@.len() && 0 <= j < f@[i]@.len() && (i < ci || (i == ci && j < lj))
                    && f@[i]@[j].var_idx() == v && f@[i]@[j].pol();
            assert(occurs_pos_before(f, v, ci, lj + 1));
        }
    }
    assert forall|v: u32| v != v0 implies (#[trigger] occurs_neg_before(f, v, ci, lj + 1))
        == occurs_neg_before(f, v, ci, lj) by {
        if occurs_neg_before(f, v, ci, lj + 1) {
            let (i, j) = choose|i: int, j: int|
                #![trigger f@[i]@[j]]
                0 <= i < f@.len() && 0 <= j < f@[i]@.len() && (i < ci || (i == ci && j < lj + 1))
                    && f@[i]@[j].var_idx() == v && !f@[i]@[j].pol();
            assert(!(i == ci && j == lj));
            assert(occurs_neg_before(f, v, ci, lj));
        }
        if occurs_neg_before(f, v, ci, lj) {
            let (i, j) = choose|i: int, j: int|
                #![trigger f@[i]@[j]]
                0 <= i < f@.len() && 0 <= j < f@[i]@.len() && (i < ci || (i == ci && j < lj))
                    && f@[i]@[j].var_idx() == v && !f@[i]@[j].pol();
            assert(occurs_neg_before(f, v, ci, lj + 1));
        }
    }
    if occurs_pos_before(f, v0, ci, lj + 1) {
        let (i, j) = choose|i: int, j: int|
            #![trigger f@[i]@[j]]
            0 <= i < f@.len() && 0 <= j < f@[i]@.len() && (i < ci || (i == ci && j < lj + 1))
                && f@[i]@[j].var_idx() == v0 && f@[i]@[j].pol();
        if !(i == ci && j == lj) {
            assert(occurs_pos_before(f, v0, ci, lj));
        }
    }
    if occurs_pos_before(f, v0, ci, lj) {
        let (i, j) = choose|i: int, j: int|
            #![trigger f@[i]@[j]]
            0 <= i < f@.len() && 0 <= j < f@[i]@.len() && (i < ci || (i == ci && j < lj))
                && f@[i]@[j].var_idx() == v0 && f@[i]@[j].pol();
        assert(occurs_pos_before(f, v0, ci, lj + 1));
    }
    if f@[ci]@[lj].pol() {
        assert(occurs_pos_before(f, v0, ci, lj + 1));
    }
    if occurs_neg_before(f, v0, ci, lj + 1) {
        let (i, j) = choose|i: int, j: int|
            #![trigger f@[i]@[j]]
            0 <= i < f@.len() && 0 <= j < f@[i]@.len() && (i < ci || (i == ci && j < lj + 1))
                && f@[i]@[j].var_idx() == v0 && !f@[i]@[j].pol();
        if !(i == ci && j == lj) {
            assert(occurs_neg_before(f, v0, ci, lj));
        }
    }
    if occurs_neg_before(f, v0, ci, lj) {
        let (i, j) = choose|i: int, j: int|
            #![trigger f@[i]@[j]]
            0 <= i < f@.len() && 0 <= j < f@[i]@.len() && (i < ci || (i == ci && j < lj))
                && f@[i]@[j].var_idx() == v0 && !f@[i]@[j].pol();
        assert(occurs_neg_before(f, v0, ci, lj + 1));
    }
    if !f@[ci]@[lj].pol() {
        assert(occurs_neg_before(f, v0, ci, lj + 1));
    }
}

/// Finishing clause `ci` is the same prefix as starting clause `ci + 1`.
proof fn lemma_occurs_roll(f: Formula, ci: int)
    requires
        0 <= ci < f@.len(),
    ensures
        forall|v: u32|
            (#[trigger] occurs_pos_before(f, v, ci + 1, 0)) == occurs_pos_before(
                f,
                v,
                ci,
                f@[ci]@.len() as int,
            ),
        forall|v: u32|
            (#[trigger] occurs_neg_before(f, v, ci + 1, 0)) == occurs_neg_before(
                f,
                v,
                ci,
                f@[ci]@.len() as int,
            ),
{
    let e = f@[ci]@.len() as int;
    assert forall|v: u32| (#[trigger] occurs_pos_before(f, v, ci + 1, 0)) == occurs_pos_before(
        f,
        v,
        ci,
        e,
    ) by {
        if occurs_pos_before(f, v, ci + 1, 0) {
            let (i, j) = choose|i: int, j: int|
                #![trigger f@[i]@[j]]
                0 <= i < f@.len() && 0 <= j < f@[i]@.len() && (i < ci + 1 || (i == ci + 1 && j < 0))
                    && f@[i]@[j].var_idx() == v && f@[i]@[j].pol();
            assert(i < ci || (i == ci && j < e));
            assert(occurs_pos_before(f, v, ci, e));
        }
        if occurs_pos_before(f, v, ci, e) {
            let (i, j) = choose|i: int, j: int|
                #![trigger f@[i]@[j]]
                0 <= i < f@.len() && 0 <= j < f@[i]@.len() && (i < ci || (i == ci && j < e))
                    && f@[i]@[j].var_idx() == v && f@[i]@[j].pol();
            assert(occurs_pos_before(f, v, ci + 1, 0));
        }
    }
    assert forall|v: u32| (#[trigger] occurs_neg_before(f, v, ci + 1, 0)) == occurs_neg_before(
        f,
        v,
        ci,
        e,
    ) by {
        if occurs_neg_before(f, v, ci + 1, 0) {
            let (i, j) = choose|i: int, j: int|
                #![trigger f@[i]@[j]]
                0 <= i < f@.len() && 0 <= j < f@[i]@.len() && (i < ci + 1 || (i == ci + 1 && j < 0))
                    && f@[i]@[j].var_idx() == v && !f@[i]@[j].pol();
            assert(i < ci || (i == ci && j < e));
            assert(occurs_neg_before(f, v, ci, e));
        }
        if occurs_neg_before(f, v, ci, e) {
            let (i, j) = choose|i: int, j: int|
                #![trigger f@[i]@[j]]
                0 <= i < f@.len() && 0 <= j < f@[i]@.len() && (i < ci || (i == ci && j < e))
                    && f@[i]@[j].var_idx() == v && !f@[i]@[j].pol();
            assert(occurs_neg_before(f, v, ci + 1, 0));
        }
    }
}

/// Having processed every clause, the prefix notions coincide with the
/// whole-formula occurrence notions.
proof fn lemma_occurs_done(f: Formula)
    ensures
        forall|v: u32| (#[trigger] occurs_pos_before(f, v, f@.len() as int, 0)) == occurs_pos(f, v),
        forall|v: u32| (#[trigger] occurs_neg_before(f, v, f@.len() as int, 0)) == occurs_neg(f, v),
{
    let e = f@.len() as int;
    assert forall|v: u32| (#[trigger] occurs_pos_before(f, v, e, 0)) == occurs_pos(f, v) by {
        if occurs_pos_before(f, v, e, 0) {
            let (i, j) = choose|i: int, j: int|
                #![trigger f@[i]@[j]]
                0 <= i < f@.len() && 0 <= j < f@[i]@.len() && (i < e || (i == e && j < 0))
                    && f@[i]@[j].var_idx() == v && f@[i]@[j].pol();
            assert(occurs_pos(f, v));
        }
        if occurs_pos(f, v) {
            let (i, j) = choose|i: int, j: int|
                #![trigger f@[i]@[j]]
                0 <= i < f@.len() && 0 <= j < f@[i]@.len() && f@[i]@[j].var_idx() == v
                    && f@[i]@[j].pol();
            assert(occurs_pos_before(f, v, e, 0));
        }
    }
    assert forall|v: u32| (#[trigger] occurs_neg_before(f, v, e, 0)) == occurs_neg(f, v) by {
        if occurs_neg_before(f, v, e, 0) {
            let (i, j) = choose|i: int, j: int|
                #![trigger f@[i]@[j]]
                0 <= i < f@.len() && 0 <= j < f@[i]@.len() && (i < e || (i == e && j < 0))
                    && f@[i]@[j].var_idx() == v && !f@[i]@[j].pol();
            assert(occurs_neg(f, v));
        }
        if occurs_neg(f, v) {
            let (i, j) = choose|i: int, j: int|
                #![trigger f@[i]@[j]]
                0 <= i < f@.len() && 0 <= j < f@[i]@.len() && f@[i]@[j].var_idx() == v
                    && !f@[i]@[j].pol();
            assert(occurs_neg_before(f, v, e, 0));
        }
    }
}

/// A variable already seen before `(ci, lj)` has an occurrence before
/// every occurrence of a variable not yet seen at `(ci, lj)`.
proof fn lemma_first_before(f: Formula, v1: u32, v0: u32, ci: int, lj: int)
    requires
        0 <= ci < f@.len(),
        0 <= lj <= f@[ci]@.len(),
        occurs_before(f, v1, ci, lj),
        !occurs_before(f, v0, ci, lj),
    ensures
        occurs_first_before(f, v1, v0),
{
    if occurs_pos_before(f, v1, ci, lj) {
        let (i, j) = choose|i: int, j: int|
            #![trigger f@[i]@[j]]
            0 <= i < f@.len() && 0 <= j < f@[i]@.len() && (i < ci || (i == ci && j < lj))
                && f@[i]@[j].var_idx() == v1 && f@[i]@[j].pol();
        assert forall|i2: int, j2: int|
            #![trigger f@[i2]@[j2]]
            0 <= i2 < f@.len() && 0 <= j2 < f@[i2]@.len() && f@[i2]@[j2].var_idx() == v0 implies (i
            < i2 || (i == i2 && j < j2)) by {
            if i2 < ci || (i2 == ci && j2 < lj) {
                if f@[i2]@[j2].pol() {
                    assert(occurs_pos_before(f, v0, ci, lj));
                } else {
                    assert(occurs_neg_before(f, v0, ci, lj));
                }
                assert(false);
            }
        }
        assert(occurs_first_before(f, v1, v0));
    } else {
        let (i, j) = choose|i: int, j: int|
            #![trigger f@[i]@[j]]
            0 <= i < f@.len() && 0 <= j < f@[i]@.len() && (i < ci || (i == ci && j < lj))
                && f@[i]@[j].var_idx() == v1 && !f@[i]@[j].pol();
        assert forall|i2: int, j2: int|
            #![trigger f@[i2]@[j2]]
            0 <= i2 < f@.len() && 0 <= j2 < f@[i2]@.len() && f@[i2]@[j2].var_idx() == v0 implies (i
            < i2 || (i == i2 && j < j2)) by {
            if i2 < ci || (i2 == ci && j2 < lj) {
                if f@[i2]@[j2].pol() {
                    assert(occurs_pos_before(f, v0, ci, lj));
                } else {
                    assert(occurs_neg_before(f, v0, ci, lj));
                }
                assert(false);
            }
        }
        assert(occurs_first_before(f, v1, v0));
    }
}

/// Records one literal occurrence in the polarity tally list: a fresh
/// variable is appended with the literal's polarity, a variable seen with
/// the other polarity is marked as occurring both ways.
#[verifier::loop_isolation(false)]
fn record_polarity(
    us: &mut Vec<(Var, LitPolarities)>,
    lit: Lit,
    Ghost(f): Ghost<Formula>,
    Ghost(ci): Ghost<int>,
    Ghost(lj): Ghost<int>,
)
    requires
        0 <= ci < f@.len(),
        0 <= lj < f@[ci]@.len(),
        f@[ci]@[lj] == lit,
        lit.wf(),
        tally_invariant(old(us)@, f, ci, lj),
    ensures
        tally_invariant(final(us)@, f, ci, lj + 1),
        final(us)@.len() >= old(us)@.len(),
        forall|k: int| 0 <= k < old(us)@.len() ==> (#[trigger] final(us)@[k]).0 == old(us)@[k].0,
{
    proof {
        lemma_occurs_step(f, ci, lj);
    }
    let ghost v0 = lit.var_idx();
    let lit_index = lit.index();
    let n = us.len();
    let mut found = false;
    let mut pos: usize = 0;
    let mut k: usize = 0;
    while k < n
        invariant
            0 <= k <= n,
            !found ==> forall|q: int| 0 <= q < k ==> (#[trigger] us@[q]).0@ != v0,
            found ==> pos < n && us@[pos as int].0@ == v0,
        decreases n - k,
    {
        if !found && us[k].0.index() == lit_index {
            found = true;
            pos = k;
        }
        k = k + 1;
    }
    if found {
        proof {
            assert forall|q: int| 0 <= q < us@.len() && q != pos implies (#[trigger] us@[q]).0@
                != v0 by {
                if q < pos {
                    assert(us@[q].0@ != us@[pos as int].0@);
                } else {
                    assert(us@[pos as int].0@ != us@[q].0@);
                }
            }
        }
        let (var, t) = us[pos];
        let needs_both = match t {
            LitPolarities::TrueOnly => lit.is_negative(),
            LitPolarities::FalseOnly => lit.is_positive(),
            LitPolarities::Both => true,
        };
        if needs_both {
            us.set(pos, (var, LitPolarities::Both));
        }
        proof {
            assert forall|k: int| 0 <= k < us@.len() implies ((#[trigger] us@[k]).0.wf()
                && occurs_before(f, us@[k].0@, ci, lj + 1) && tally_ok_before(
                f,
                us@[k].0@,
                us@[k].1,
                ci,
                lj + 1,
            )) by {
                if k != pos {
                    assert(us@[k] == old(us)@[k]);
                    assert(us@[k].0@ != v0);
                }
            }
            assert forall|v: u32| #[trigger] occurs_before(f, v, ci, lj + 1) implies exists|k: int|
                0 <= k < us@.len() && (#[trigger] us@[k]).0@ == v by {
                if v == v0 {
                    assert(us@[pos as int].0@ == v);
                } else {
                    assert(occurs_before(f, v, ci, lj));
                    let k = choose|k: int|
                        0 <= k < old(us)@.len() && (#[trigger] old(us)@[k]).0@ == v;
                    assert(us@[k].0@ == v);
                }
            }
            assert forall|k1: int, k2: int| 0 <= k1 < k2 < us@.len() implies occurs_first_before(
                f,
                us@[k1].0@,
                us@[k2].0@,
            ) by {
                assert(us@[k1].0 == old(us)@[k1].0);
                assert(us@[k2].0 == old(us)@[k2].0);
            }
        }
    } else {
        let tally = if lit.is_positive() {
            LitPolarities::TrueOnly
        } else {
            LitPolarities::FalseOnly
        };
        let var = lit.var();
        proof {
            if occurs_before(f, v0, ci, lj) {
                let k = choose|k: int| 0 <= k < old(us)@.len() && (#[trigger] old(us)@[k]).0@ == v0;
                assert(false);
            }
        }
        us.push((var, tally));
        proof {
            let last = us@.len() - 1;
            assert forall|k: int| 0 <= k < us@.len() implies ((#[trigger] us@[k]).0.wf()
                && occurs_before(f, us@[k].0@, ci, lj + 1) && tally_ok_before(
                f,
                us@[k].0@,
                us@[k].1,
                ci,
                lj + 1,
            )) by {
                if k < last {
                    assert(us@[k] == old(us)@[k]);
                    assert(us@[k].0@ != v0);
                } else {
                    assert(us@[k].0@ == v0);
                }
            }
            assert forall|v: u32| #[trigger] occurs_before(f, v, ci, lj + 1) implies exists|k: int|
                0 <= k < us@.len() && (#[trigger] us@[k]).0@ == v by {
                if v == v0 {
                    assert(us@[last].0@ == v);
                } else {
                    assert(occurs_before(f, v, ci, lj));
                    let k = choose|k: int|
                        0 <= k < old(us)@.len() && (#[trigger] old(us)@[k]).0@ == v;
                    assert(us@[k].0@ == v);
                }
            }
            assert forall|k1: int, k2: int| 0 <= k1 < k2 < us@.len() implies us@[k1].0@
                != us@[k2].0@ by {
                if k2 == last {
                    assert(us@[k1].0@ != v0);
                }
            }
            assert forall|k1: int, k2: int| 0 <= k1 < k2 < us@.len() implies occurs_first_before(
                f,
                us@[k1].0@,
                us@[k2].0@,
            ) by {
                if k2 < last {
                    assert(us@[k1].0 == old(us)@[k1].0);
                    assert(us@[k2].0 == old(us)@[k2].0);
                } else {
                    assert(us@[k1].0 == old(us)@[k1].0);
                    assert(us@[k2].0@ == v0);
                    assert(occurs_before(f, us@[k1].0@, ci, lj));
                    lemma_first_before(f, us@[k1].0@, v0, ci, lj);
                }
            }
        }
    }
}

/// Inserting a fresh variable keeps every decided literal decided the same
/// way, and leaves literals on other variables unchanged.
proof fn lemma_insert_fresh(m: Map<u32, bool>, w: u32, value: bool)
    requires
        !m.contains_key(w),
    ensures
        map_extends(m.insert(w, value), m),
        forall|l: Lit| #[trigger] lit_true(m, l) ==> lit_true(m.insert(w, value), l),
        forall|l: Lit| #[trigger] lit_false(m, l) ==> lit_false(m.insert(w, value), l),
        forall|l: Lit|
            l.var_idx() != w ==> #[trigger] lit_true(m.insert(w, value), l) == lit_true(m, l),
        forall|l: Lit|
            l.var_idx() != w ==> #[trigger] lit_false(m.insert(w, value), l) == lit_false(m, l),
        forall|l: Lit|
            l.var_idx() != w ==> #[trigger] m.insert(w, value).contains_key(l.var_idx())
                == m.contains_key(l.var_idx()),
{
}

/// A satisfied clause stays satisfied under any extension of the map.
proof fn lemma_sat_monotone(c: Clause, m1: Map<u32, bool>, m2: Map<u32, bool>)
    requires
        c.sat_by(m1),
        map_extends(m2, m1),
    ensures
        c.sat_by(m2),
{
    let j = choose|j: int| 0 <= j < c@.len() && lit_true(m1, #[trigger] c@[j]);
    assert(lit_true(m2, c@[j]));
}

/// A falsified clause stays falsified under any extension of the map.
proof fn lemma_falsified_monotone(c: Clause, m1: Map<u32, bool>, m2: Map<u32, bool>)
    requires
        c.falsified_by(m1),
        map_extends(m2, m1),
    ensures
        c.falsified_by(m2),
{
    assert forall|j: int| 0 <= j < c@.len() implies lit_false(m2, #[trigger] c@[j]) by {
        assert(lit_false(m1, c@[j]));
    }
}

/// Removing one variable's entry keeps the remaining keys pairwise distinct.
proof fn lemma_remove_keeps_distinct(us: Seq<(Var, LitPolarities)>, v: u32)
    requires
        forall|a: int, b: int| 0 <= a < b < us.len() ==> us[a].0@ != us[b].0@,
    ensures
        forall|a: int, b: int|
            0 <= a < b < remove_unassigned(us, v).len() ==> remove_unassigned(us, v)[a].0@
                != remove_unassigned(us, v)[b].0@,
    decreases us.len(),
{
    reveal(Seq::filter);
    if us.len() > 0 {
        let rest = us.drop_last();
        let last = us.last();
        lemma_remove_keeps_distinct(rest, v);
        let fr = remove_unassigned(rest, v);
        let fu = remove_unassigned(us, v);
        if last.0@ != v {
            assert(fu == fr.push(last));
            assert forall|a: int, b: int| 0 <= a < b < fu.len() implies fu[a].0@ != fu[b].0@ by {
                if b < fu.len() - 1 {
                    assert(fu[a] == fr[a] && fu[b] == fr[b]);
                } else {
                    assert(fu[a] == fr[a]);
                    assert(fr.contains(fr[a]));
                    assert(rest.contains(fr[a]));
                    let q = choose|q: int| 0 <= q < rest.len() && rest[q] == fr[a];
                    assert(us[q] == fr[a]);
                    assert(us[q].0@ != us[us.len() - 1].0@);
                    assert(fu[b] == last);
                }
            }
        } else {
            assert(fu == fr);
        }
    }
}

/// The context required to evaluate a stage of solving.
///
/// Acts as a clause database, enabling fast querying for unit and pure
/// literals, unassigned variables, and clause states.
pub struct Context<'a> {
    /// Reference to the formula being solved; clones share it.
    formula: &'a Formula,
    /// The current assignment.
    assignment: Assignment,
    /// The unassigned variables of the formula, in first-occurrence order,
    /// each with the polarities it shows in the formula.
    unassigned_variables: Vec<(Var, LitPolarities)>,
    /// States of the clauses in the formula, indexed in the same order.
    clause_states: Vec<ClauseState>,
}

impl<'a> Context<'a> {
    /// The formula being solved.
    pub closed spec fn formula_of(self) -> Formula {
        *self.formula
    }

    /// The current assignment value.
    pub closed spec fn assignment_of(self) -> Assignment {
        self.assignment
    }

    /// The current assignment as a map from variable indices to values.
    pub open spec fn amap(self) -> Map<u32, bool> {
        self.assignment_of()@
    }

    /// The per-clause states, parallel to the formula's clause list.
    pub closed spec fn states(self) -> Seq<ClauseState> {
        self.clause_states@
    }

    /// The recorded unassigned variables with their polarity tallies.
    pub closed spec fn unassigned(self) -> Seq<(Var, LitPolarities)> {
        self.unassigned_variables@
    }

    /// The search invariant, restored after every completed `assign`:
    /// the clause states are faithful to the clauses, and the unassigned
    /// list holds exactly the unassigned variables of the formula with
    /// exact polarity tallies, each once.
    pub open spec fn wf(self) -> bool {
        &&& self.formula_of().solver_ready()
        &&& self.assignment_of().inv()
        &&& self.states().len() == self.formula_of()@.len()
        &&& forall|i: int|
            0 <= i < self.states().len() ==> state_consistent(
                self.formula_of()@[i],
                #[trigger] self.states()[i],
                self.amap(),
            )
        &&& forall|k: int|
            0 <= k < self.unassigned().len() ==> ((#[trigger] self.unassigned()[k]).0.wf()
                && occurs(self.formula_of(), self.unassigned()[k].0@)
                && !self.amap().contains_key(self.unassigned()[k].0@) && tally_ok(
                self.formula_of(),
                self.unassigned()[k].0@,
                self.unassigned()[k].1,
            ))
        &&& forall|k1: int, k2: int|
            0 <= k1 < k2 < self.unassigned().len() ==> self.unassigned()[k1].0@
                != self.unassigned()[k2].0@
        &&& forall|v: u32|
            #[trigger] occurs(self.formula_of(), v) && !self.amap().contains_key(v)
                ==> exists|k: int|
                0 <= k < self.unassigned().len() && (#[trigger] self.unassigned()[k]).0@ == v
    }

    /// No clause state is `Complete(false)`.
    pub open spec fn no_false_state(self) -> bool {
        forall|i: int|
            0 <= i < self.states().len() ==> #[trigger] self.states()[i] != ClauseState::Complete(
                false,
            )
    }

    /// A `Complete(false)` state can only belong to an empty clause; this
    /// holds of a fresh context and is strengthened to `no_false_state` by
    /// the first completed `assign`.
    pub open spec fn false_states_empty(self) -> bool {
        forall|i: int|
            0 <= i < self.states().len() ==> (#[trigger] self.states()[i]
                == ClauseState::Complete(false) ==> self.formula_of()@[i]@.len() == 0)
    }

    /// Some clause state is pending unit propagation.
    pub open spec fn has_unit(self) -> bool {
        exists|i: int| 0 <= i < self.states().len() && (#[trigger] self.states()[i]) is Unit
    }

    /// Some unassigned variable occurs with a single polarity.
    pub open spec fn has_pure(self) -> bool {
        exists|k: int|
            0 <= k < self.unassigned().len() && (#[trigger] self.unassigned()[k]).1
                != LitPolarities::Both
    }

    /// Builds a fresh context over the formula: empty assignment, initial
    /// clause states by clause length, and exact polarity tallies for every
    /// variable of the formula.
    #[verifier::loop_isolation(false)]
    pub fn new(formula: &'a Formula) -> (r: Context<'a>)
        requires
            formula.solver_ready(),
        ensures
            r.formula_of() == *formula,
            r.amap() == Map::<u32, bool>::empty(),
            r.states().len() == formula@.len(),
            forall|i: int|
                0 <= i < formula@.len() ==> #[trigger] r.states()[i] == initial_state(formula@[i]),
            forall|k1: int, k2: int|
                0 <= k1 < k2 < r.unassigned().len() ==> occurs_first_before(
                    *formula,
                    r.unassigned()[k1].0@,
                    r.unassigned()[k2].0@,
                ),
            r.wf(),
            r.false_states_empty(),
    {
        let ghost f = *formula;
        let mut unassigned_variables: Vec<(Var, LitPolarities)> = Vec::new();
        let mut clause_states: Vec<ClauseState> = Vec::new();
        let clauses = formula.clauses();
        let n = clauses.len();
        for i in 0..n
            invariant
                clause_states@.len() == i,
                forall|p: int|
                    0 <= p < i ==> #[trigger] clause_states@[p] == initial_state(f@[p]),
                tally_invariant(unassigned_variables@, f, i as int, 0),
        {
            let lits = clauses[i].literals();
            let m = lits.len();
            assert(lits@ == f@[i as int]@);
            for j in 0..m
                invariant
                    m == lits@.len(),
                    lits@ == f@[i as int]@,
                    tally_invariant(unassigned_variables@, f, i as int, j as int),
            {
                let lit = lits[j];
                assert(lit.wf());
                record_polarity(
                    &mut unassigned_variables,
                    lit,
                    Ghost(f),
                    Ghost(i as int),
                    Ghost(j as int),
                );
            }
            proof {
                lemma_occurs_roll(f, i as int);
                let e = lits@.len() as int;
                let us1 = unassigned_variables@;
                assert forall|k: int| 0 <= k < us1.len() implies ((#[trigger] us1[k]).0.wf()
                    && occurs_before(f, us1[k].0@, i as int + 1, 0) && tally_ok_before(
                    f,
                    us1[k].0@,
                    us1[k].1,
                    i as int + 1,
                    0,
                )) by {
                    let v = us1[k].0@;
                    assert(occurs_pos_before(f, v, i as int + 1, 0) == occurs_pos_before(
                        f,
                        v,
                        i as int,
                        e,
                    ));
                    assert(occurs_neg_before(f, v, i as int + 1, 0) == occurs_neg_before(
                        f,
                        v,
                        i as int,
                        e,
                    ));
                }
                assert forall|v: u32| #[trigger] occurs_before(f, v, i as int + 1, 0) implies
                    exists|k: int| 0 <= k < us1.len() && (#[trigger] us1[k]).0@ == v by {
                    assert(occurs_pos_before(f, v, i as int + 1, 0) == occurs_pos_before(
                        f,
                        v,
                        i as int,
                        e,
                    ));
                    assert(occurs_neg_before(f, v, i as int + 1, 0) == occurs_neg_before(
                        f,
                        v,
                        i as int,
                        e,
                    ));
                    assert(occurs_before(f, v, i as int, e));
                }
                assert(tally_invariant(us1, f, i as int + 1, 0));
            }
            let state = if lits.len() == 0 {
                ClauseState::Complete(false)
            } else if lits.len() == 1 {
                ClauseState::Unit(lits[0])
            } else {
                ClauseState::Watching(lits[0], lits[1])
            };
            clause_states.push(state);
        }
        proof {
            lemma_occurs_done(f);
        }
        let r = Context {
            formula,
            assignment: Assignment::new(),
            unassigned_variables,
            clause_states,
        };
        proof {
            let m0 = Map::<u32, bool>::empty();
            assert forall|i: int| 0 <= i < r.states().len() implies state_consistent(
                f@[i],
                #[trigger] r.states()[i],
                m0,
            ) by {
                let c = f@[i];
                if c@.len() == 0 {
                    assert(c.falsified_by(m0));
                } else if c@.len() == 1 {
                    assert(c@.contains(c@[0]));
                } else {
                    assert(c@.contains(c@[0]));
                    assert(c@.contains(c@[1]));
                    assert(c@[0].var_idx() != c@[1].var_idx());
                }
            }
            assert forall|k: int| 0 <= k < r.unassigned().len() implies ((
            #[trigger] r.unassigned()[k]).0.wf() && occurs(f, r.unassigned()[k].0@)
                && !m0.contains_key(r.unassigned()[k].0@) && tally_ok(
                f,
                r.unassigned()[k].0@,
                r.unassigned()[k].1,
            )) by {
                let v = r.unassigned()[k].0@;
                assert(occurs_before(f, v, f@.len() as int, 0));
                assert(tally_ok_before(f, v, r.unassigned()[k].1, f@.len() as int, 0));
                assert(occurs_pos_before(f, v, f@.len() as int, 0) == occurs_pos(f, v));
                assert(occurs_neg_before(f, v, f@.len() as int, 0) == occurs_neg(f, v));
            }
            assert forall|v: u32|
                #[trigger] occurs(f, v) && !m0.contains_key(v) implies exists|k: int|
                0 <= k < r.unassigned().len() && (#[trigger] r.unassigned()[k]).0@ == v by {
                assert(occurs_pos_before(f, v, f@.len() as int, 0) == occurs_pos(f, v));
                assert(occurs_neg_before(f, v, f@.len() as int, 0) == occurs_neg(f, v));
                assert(occurs_before(f, v, f@.len() as int, 0));
            }
            assert(r.wf());
        }
        r
    }

    /// Assigns a variable and steps every clause state.
    ///
    /// Returns `true` if the assignment falsifies a clause (a conflict); the
    /// search then abandons this context. On `false`, every clause state has
    /// taken exactly its `next_state` transition and the invariant holds
    /// again, with no clause falsified.
    #[verifier::loop_isolation(false)]
    pub fn assign(&mut self, var: &Var, value: bool) -> (conflict: bool)
        requires
            old(self).wf(),
            var.wf(),
            !old(self).amap().contains_key(var@),
        ensures
            final(self).formula_of() == old(self).formula_of(),
            final(self).amap() == old(self).amap().insert(var@, value),
            final(self).assignment_of().inv(),
            final(self).unassigned() == remove_unassigned(old(self).unassigned(), var@),
            final(self).states().len() == old(self).states().len(),
            !conflict ==> final(self).wf(),
            !conflict ==> final(self).no_false_state(),
            !conflict ==> forall|p: int|
                0 <= p < old(self).states().len() ==> #[trigger] final(self).states()[p]
                    == next_state(
                    old(self).formula_of()@[p],
                    old(self).states()[p],
                    old(self).amap().insert(var@, value),
                    var@,
                    value,
                ),
            conflict ==> exists|p: int|
                0 <= p < old(self).formula_of()@.len() && (#[trigger] old(
                    self,
                ).formula_of()@[p]).falsified_by(old(self).amap().insert(var@, value)),
            conflict <==> exists|p: int|
                0 <= p < old(self).states().len() && next_state(
                    old(self).formula_of()@[p],
                    #[trigger] old(self).states()[p],
                    old(self).amap().insert(var@, value),
                    var@,
                    value,
                ) == ClauseState::Complete(false),
    {
        let ghost f = old(self).formula_of();
        let ghost m1 = old(self).amap();
        let ghost m2 = m1.insert(var@, value);
        let ghost sts0 = old(self).states();
        let ghost us0 = old(self).unassigned();
        proof {
            lemma_insert_fresh(m1, var@, value);
        }
        self.assignment.set(*var, value);
        let vi = var.index();
        let mut kept: Vec<(Var, LitPolarities)> = Vec::new();
        let un = self.unassigned_variables.len();
        for k in 0..un
            invariant
                kept@ == remove_unassigned(us0.take(k as int), var@),
        {
            proof {
                assert(us0.take(k + 1) == us0.take(k as int).push(us0[k as int]));
            }
            let entry = self.unassigned_variables[k];
            if entry.0.index() != vi {
                kept.push(entry);
            }
        }
        proof {
            assert(us0.take(un as int) == us0);
        }
        self.unassigned_variables = kept;
        let ghost us2 = self.unassigned();
        proof {
            assert(us2 == remove_unassigned(us0, var@));
            assert forall|k: int| 0 <= k < us2.len() implies ((#[trigger] us2[k]).0.wf()
                && occurs(f, us2[k].0@) && !m2.contains_key(us2[k].0@) && tally_ok(
                f,
                us2[k].0@,
                us2[k].1,
            )) by {
                let e = us2[k];
                assert(remove_unassigned(us0, var@)[k] == e);
                assert(remove_unassigned(us0, var@).contains(e));
                assert(e.0@ != var@);
                assert(us0.contains(e));
                let q = choose|q: int| 0 <= q < us0.len() && us0[q] == e;
                assert(us0[q].0.wf() && occurs(f, us0[q].0@) && !m1.contains_key(us0[q].0@)
                    && tally_ok(f, us0[q].0@, us0[q].1));
            }
            lemma_remove_keeps_distinct(us0, var@);
            assert forall|v: u32| #[trigger] occurs(f, v) && !m2.contains_key(v) implies exists|
                k: int,
            | 0 <= k < us2.len() && (#[trigger] us2[k]).0@ == v by {
                assert(v != var@);
                assert(!m1.contains_key(v));
                let q = choose|q: int| 0 <= q < us0.len() && (#[trigger] us0[q]).0@ == v;
                us0.lemma_filter_contains(|e: (Var, LitPolarities)| e.0@ != var@, q);
                assert(us2.contains(us0[q]));
                let k = choose|k: int| 0 <= k < us2.len() && us2[k] == us0[q];
                assert(us2[k].0@ == v);
            }
        }
        let n = self.clause_states.len();
        let mut i: usize = 0;
        while i < n
            invariant
                0 <= i <= n,
                self.formula_of() == f,
                self.amap() == m2,
                self.assignment_of().inv(),
                self.unassigned() == us2,
                self.states().len() == n,
                forall|p: int|
                    0 <= p < i ==> #[trigger] self.states()[p] == next_state(
                        f@[p],
                        sts0[p],
                        m2,
                        var@,
                        value,
                    ),
                forall|p: int|
                    0 <= p < i ==> state_consistent(f@[p], #[trigger] self.states()[p], m2),
                forall|p: int|
                    0 <= p < i ==> #[trigger] self.states()[p] != ClauseState::Complete(false),
                forall|p: int| i <= p < n ==> #[trigger] self.states()[p] == sts0[p],
            decreases n - i,
        {
            let ghost c = f@[i as int];
            proof {
                assert(state_consistent(c, sts0[i as int], m1));
            }
            let st = self.clause_states[i];
            match st {
                ClauseState::Watching(a, b) => {
                    if a.index() != vi && b.index() != vi {
                        // neither watch is affected; the clause is left alone
                        proof {
                            assert(next_state(c, st, m2, var@, value) == st);
                            assert(state_consistent(c, st, m2));
                        }
                    } else {
                        let a_true = match self.assignment.evaluate(&a) {
                            Some(t) => t,
                            None => false,
                        };
                        let b_true = match self.assignment.evaluate(&b) {
                            Some(t) => t,
                            None => false,
                        };
                        proof {
                            assert(a_true == lit_true(m2, a));
                            assert(b_true == lit_true(m2, b));
                        }
                        if a_true || b_true {
                            self.clause_states.set(i, ClauseState::Complete(true));
                            proof {
                                let w = if a_true {
                                    a
                                } else {
                                    b
                                };
                                assert(c@.contains(w));
                                let q = choose|q: int| 0 <= q < c@.len() && c@[q] == w;
                                assert(lit_true(m2, c@[q]));
                                assert(c.sat_by(m2));
                            }
                        } else {
                            let other = if a.index() == vi {
                                b
                            } else {
                                a
                            };
                            proof {
                                assert(other == (if a.var_idx() == var@ {
                                    b
                                } else {
                                    a
                                }));
                                assert(other.var_idx() != var@);
                                assert(!m2.contains_key(other.var_idx()));
                            }
                            let fml = self.formula;
                            let lits = fml.clauses()[i].literals();
                            proof {
                                assert(lits@ == c@);
                            }
                            let lm = lits.len();
                            let mut new_lit: Option<Lit> = None;
                            let mut complete = false;
                            let mut j: usize = 0;
                            while j < lm
                                invariant
                                    0 <= j <= lm,
                                    !complete ==> forall|q: int|
                                        0 <= q < j ==> !lit_true(m2, #[trigger] lits@[q]),
                                    !complete ==> match new_lit {
                                        Some(nl) => has_candidate(
                                            lits@.take(j as int),
                                            m2,
                                            other,
                                        ) && nl == last_candidate(
                                            lits@.take(j as int),
                                            m2,
                                            other,
                                        ) && watch_candidate(m2, other, nl) && lits@.contains(nl),
                                        None => !has_candidate(lits@.take(j as int), m2, other),
                                    },
                                    complete ==> seq_has_true(lits@, m2),
                                    complete ==> j == lm,
                                decreases lm - j,
                            {
                                proof {
                                    assert(lits@.take(j + 1) == lits@.take(j as int).push(
                                        lits@[j as int],
                                    ));
                                    assert(lits@.take(j + 1).drop_last() =~= lits@.take(j as int));
                                    assert(lits@.take(j + 1).last() == lits@[j as int]);
                                }
                                let l = lits[j];
                                let mut was_true = false;
                                match self.assignment.evaluate(&l) {
                                    Some(t) => {
                                        if t {
                                            was_true = true;
                                        }
                                    },
                                    None => {
                                        if l.index() != other.index() {
                                            new_lit = Some(l);
                                        }
                                    },
                                }
                                proof {
                                    let tk = lits@.take(j + 1);
                                    if lit_true(m2, lits@[j as int]) {
                                        assert(seq_has_true(lits@, m2));
                                    } else {
                                        if watch_candidate(m2, other, lits@[j as int]) {
                                            assert(tk[j as int] == lits@[j as int]);
                                            assert(has_candidate(tk, m2, other));
                                            assert(last_candidate(tk, m2, other)
                                                == lits@[j as int]);
                                            assert(lits@.contains(lits@[j as int]));
                                        } else {
                                            assert(last_candidate(tk, m2, other) == last_candidate(
                                                lits@.take(j as int),
                                                m2,
                                                other,
                                            ));
                                            assert forall|q: int|
                                                0 <= q < tk.len() && watch_candidate(
                                                    m2,
                                                    other,
                                                    #[trigger] tk[q],
                                                ) implies has_candidate(
                                                lits@.take(j as int),
                                                m2,
                                                other,
                                            ) by {
                                                if q < j {
                                                    assert(lits@.take(j as int)[q] == tk[q]);
                                                }
                                            }
                                        }
                                    }
                                }
                                if was_true {
                                    // a true literal settles the clause; end the scan
                                    complete = true;
                                    j = lm;
                                } else {
                                    j = j + 1;
                                }
                            }
                            if complete {
                                self.clause_states.set(i, ClauseState::Complete(true));
                                proof {
                                    let q = choose|q: int|
                                        0 <= q < lits@.len() && lit_true(m2, #[trigger] lits@[q]);
                                    assert(lit_true(m2, c@[q]));
                                    assert(c.sat_by(m2));
                                    assert(next_state(c, st, m2, var@, value)
                                        == ClauseState::Complete(true));
                                }
                            } else {
                                proof {
                                    assert(lits@.take(lm as int) =~= lits@);
                                    assert(lits@.take(lm as int) == lits@);
                                    assert(!seq_has_true(c@, m2)) by {
                                        if seq_has_true(c@, m2) {
                                            let q = choose|q: int|
                                                0 <= q < c@.len() && lit_true(
                                                    m2,
                                                    #[trigger] c@[q],
                                                );
                                            assert(!lit_true(m2, lits@[q]));
                                        }
                                    }
                                }
                                match new_lit {
                                    Some(nl) => {
                                        self.clause_states.set(
                                            i,
                                            ClauseState::Watching(other, nl),
                                        );
                                        proof {
                                            assert(has_candidate(c@, m2, other));
                                            assert(last_candidate(c@, m2, other) == nl);
                                            assert(next_state(c, st, m2, var@, value)
                                                == ClauseState::Watching(other, nl));
                                            assert(c@.contains(other));
                                            assert(state_consistent(
                                                c,
                                                ClauseState::Watching(other, nl),
                                                m2,
                                            ));
                                        }
                                    },
                                    None => {
                                        self.clause_states.set(i, ClauseState::Unit(other));
                                        proof {
                                            assert(!has_candidate(c@, m2, other));
                                            assert(next_state(c, st, m2, var@, value)
                                                == ClauseState::Unit(other));
                                            assert(c@.contains(other));
                                            assert forall|q: int|
                                                0 <= q < c@.len() && (
                                                #[trigger] c@[q]).var_idx() != other.var_idx()
                                                implies lit_false(m2, c@[q]) by {
                                                if !m2.contains_key(c@[q].var_idx()) {
                                                    assert(watch_candidate(m2, other, c@[q]));
                                                    assert(has_candidate(c@, m2, other));
                                                } else {
                                                    assert(!lit_true(m2, lits@[q]));
                                                }
                                            }
                                            assert(state_consistent(
                                                c,
                                                ClauseState::Unit(other),
                                                m2,
                                            ));
                                        }
                                    },
                                }
                            }
                        }
                    }
                },
                ClauseState::Unit(l) => {
                    if l.index() == vi {
                        if l.polarity() == value {
                            self.clause_states.set(i, ClauseState::Complete(true));
                            proof {
                                assert(lit_true(m2, l));
                                assert(c@.contains(l));
                                let q = choose|q: int| 0 <= q < c@.len() && c@[q] == l;
                                assert(lit_true(m2, c@[q]));
                                assert(c.sat_by(m2));
                            }
                        } else {
                            self.clause_states.set(i, ClauseState::Complete(false));
                            proof {
                                assert(c@.contains(l));
                                let p = choose|p: int| 0 <= p < c@.len() && c@[p] == l;
                                assert(c.distinct_vars());
                                assert forall|q: int| 0 <= q < c@.len() implies lit_false(
                                    m2,
                                    #[trigger] c@[q],
                                ) by {
                                    if q == p {
                                        assert(lit_false(m2, l));
                                    } else {
                                        if q < p {
                                            assert(c@[q].var_idx() != c@[p].var_idx());
                                        } else {
                                            assert(c@[p].var_idx() != c@[q].var_idx());
                                        }
                                        assert(lit_false(m1, c@[q]));
                                    }
                                }
                                assert(c.falsified_by(m2));
                                assert(next_state(c, sts0[i as int], m2, var@, value)
                                    == ClauseState::Complete(false));
                            }
                            return true;
                        }
                    } else {
                        proof {
                            assert(next_state(c, st, m2, var@, value) == st);
                            assert forall|q: int|
                                0 <= q < c@.len() && (#[trigger] c@[q]).var_idx() != l.var_idx()
                                implies lit_false(m2, c@[q]) by {
                                assert(lit_false(m1, c@[q]));
                            }
                            assert(state_consistent(c, st, m2));
                        }
                    }
                },
                ClauseState::Complete(sat) => {
                    if !sat {
                        proof {
                            assert(c.falsified_by(m1));
                            lemma_falsified_monotone(c, m1, m2);
                            assert(next_state(c, sts0[i as int], m2, var@, value)
                                == ClauseState::Complete(false));
                        }
                        return true;
                    } else {
                        proof {
                            lemma_sat_monotone(c, m1, m2);
                            assert(state_consistent(c, st, m2));
                        }
                    }
                },
            }
            i = i + 1;
        }
        proof {
            assert forall|p: int|
                0 <= p < n && next_state(f@[p], #[trigger] sts0[p], m2, var@, value)
                    == ClauseState::Complete(false) implies false by {
                assert(self.states()[p] == next_state(f@[p], sts0[p], m2, var@, value));
                assert(self.states()[p] != ClauseState::Complete(false));
            }
        }
        false
    }

    /// Shortcut for `assign(lit.var(), lit.polarity())`.
    pub fn assign_lit(&mut self, lit: &Lit) -> (conflict: bool)
        requires
            old(self).wf(),
            lit.wf(),
            !old(self).amap().contains_key(lit.var_idx()),
        ensures
            final(self).formula_of() == old(self).formula_of(),
            final(self).amap() == old(self).amap().insert(lit.var_idx(), lit.pol()),
            final(self).assignment_of().inv(),
            final(self).unassigned() == remove_unassigned(old(self).unassigned(), lit.var_idx()),
            final(self).states().len() == old(self).states().len(),
            !conflict ==> final(self).wf(),
            !conflict ==> final(self).no_false_state(),
            conflict ==> exists|p: int|
                0 <= p < old(self).formula_of()@.len() && (#[trigger] old(
                    self,
                ).formula_of()@[p]).falsified_by(old(self).amap().insert(lit.var_idx(), lit.pol())),
    {
        self.assign(&lit.var(), lit.polarity())
    }

    /// The current assignment.
    pub fn assignment(&self) -> (r: &Assignment)
        ensures
            *r == self.assignment_of(),
    {
        &self.assignment
    }

    /// Gets a unit literal if one exists: the first clause state that is
    /// pending propagation.
    pub fn get_unit_lit(&self) -> (r: Option<Lit>)
        ensures
            r == first_unit_from(self.states(), 0),
            r is Some <==> self.has_unit(),
            r matches Some(l) ==> exists|i: int|
                0 <= i < self.states().len() && #[trigger] self.states()[i] == ClauseState::Unit(
                    l,
                ),
    {
        let n = self.clause_states.len();
        for i in 0..n
            invariant
                n == self.states().len(),
                first_unit_from(self.states(), 0) == first_unit_from(self.states(), i as int),
                forall|j: int| 0 <= j < i ==> !((#[trigger] self.states()[j]) is Unit),
        {
            match self.clause_states[i] {
                ClauseState::Unit(l) => {
                    return Some(l);
                },
                _ => {},
            }
        }
        None
    }

    /// Gets a pure literal if one exists: the first unassigned variable seen
    /// with a single polarity, with that polarity.
    pub fn get_pure_lit(&self) -> (r: Option<Lit>)
        requires
            self.wf(),
        ensures
            r == first_pure_from(self.unassigned(), 0),
            r is Some <==> self.has_pure(),
            r matches Some(l) ==> l.wf() && exists|k: int|
                0 <= k < self.unassigned().len() && (#[trigger] self.unassigned()[k]).0@
                    == l.var_idx() && ((self.unassigned()[k].1 == LitPolarities::TrueOnly && l
                    == lit_of(self.unassigned()[k].0@, true)) || (self.unassigned()[k].1
                    == LitPolarities::FalseOnly && l == lit_of(self.unassigned()[k].0@, false))),
    {
        let n = self.unassigned_variables.len();
        for k in 0..n
            invariant
                self.wf(),
                n == self.unassigned().len(),
                first_pure_from(self.unassigned(), 0) == first_pure_from(
                    self.unassigned(),
                    k as int,
                ),
                forall|j: int|
                    0 <= j < k ==> (#[trigger] self.unassigned()[j]).1 == LitPolarities::Both,
        {
            let (var, polarities) = self.unassigned_variables[k];
            match polarities {
                LitPolarities::TrueOnly => {
                    return Some(var.positive());
                },
                LitPolarities::FalseOnly => {
                    return Some(var.negative());
                },
                LitPolarities::Both => {},
            }
        }
        None
    }

    /// Tries to get an unassigned variable: the first recorded one.
    pub fn get_unassigned_var(&self) -> (r: Option<Var>)
        ensures
            r == (if self.unassigned().len() > 0 {
                Some(self.unassigned()[0].0)
            } else {
                None::<Var>
            }),
    {
        if self.unassigned_variables.len() > 0 {
            Some(self.unassigned_variables[0].0)
        } else {
            None
        }
    }

    /// Whether every clause state is `Complete(true)`.
    fn all_satisfied(&self) -> (r: bool)
        ensures
            r == (forall|i: int|
                0 <= i < self.states().len() ==> #[trigger] self.states()[i]
                    == ClauseState::Complete(true)),
    {
        let n = self.clause_states.len();
        for i in 0..n
            invariant
                n == self.states().len(),
                forall|j: int|
                    0 <= j < i ==> #[trigger] self.states()[j] == ClauseState::Complete(true),
        {
            match self.clause_states[i] {
                ClauseState::Complete(true) => {},
                _ => {
                    return false;
                },
            }
        }
        true
    }
}

impl<'a> Clone for Context<'a> {
    /// The clone shares the formula reference and duplicates the mutable
    /// search state exactly.
    fn clone(&self) -> (r: Self)
        ensures
            r.formula_of() == self.formula_of(),
            r.amap() == self.amap(),
            r.states() == self.states(),
            r.unassigned() == self.unassigned(),
            self.wf() ==> r.wf(),
            self.false_states_empty() ==> r.false_states_empty(),
            self.no_false_state() ==> r.no_false_state(),
    {
        let r = Context {
            formula: self.formula,
            assignment: self.assignment.clone(),
            unassigned_variables: copy_vec(&self.unassigned_variables),
            clause_states: copy_vec(&self.clause_states),
        };
        proof {
            assert(r.formula_of() == self.formula_of());
            assert(r.amap() == self.amap());
            assert(r.states() == self.states());
            assert(r.unassigned() == self.unassigned());
            if self.wf() {
                assert(self.assignment.inv());
                assert(r.assignment.inv());
                assert(r.wf());
            }
        }
        r
    }
}

/// The outcome of running propagation to fixpoint.
#[derive(Copy, Clone, PartialEq, Eq, Structural, Debug)]
pub enum PropagateOutcome {
    /// An assignment falsified a clause; the context is abandoned.
    Conflict,
    /// Every clause became satisfied.
    Satisfied,
    /// No unit or pure literal remains, and not every clause is satisfied.
    Fixpoint,
}

/// Under a consistent `Unit` state, every covering satisfying extension of
/// the current assignment is forced to make the unit literal true.
proof fn lemma_unit_forced(f: Formula, a: Map<u32, bool>, l: Lit, i: int, m: Map<u32, bool>)
    requires
        f.solver_ready(),
        0 <= i < f@.len(),
        state_consistent(f@[i], ClauseState::Unit(l), a),
        map_extends(m, a),
        f.sat_by(m),
    ensures
        lit_true(m, l),
        map_extends(m, a.insert(l.var_idx(), l.pol())),
{
    let c = f@[i];
    assert(c.sat_by(m));
    let q = choose|q: int| 0 <= q < c@.len() && lit_true(m, #[trigger] c@[q]);
    if c@[q].var_idx() != l.var_idx() {
        assert(lit_false(a, c@[q]));
        assert(lit_false(m, c@[q]));
        assert(false);
    }
    let p = choose|p: int| 0 <= p < c@.len() && c@[p] == l;
    assert(c.distinct_vars());
    if p != q {
        if p < q {
            assert(c@[p].var_idx() != c@[q].var_idx());
        } else {
            assert(c@[q].var_idx() != c@[p].var_idx());
        }
        assert(false);
    }
    assert(lit_true(m, l));
    assert forall|k: u32| #[trigger] a.insert(l.var_idx(), l.pol()).contains_key(k) implies
        m.contains_key(k) && m[k] == a.insert(l.var_idx(), l.pol())[k] by {
        if k != l.var_idx() {
            assert(a.contains_key(k));
        }
    }
}

/// Assigning a pure literal preserves the existence of a covering
/// satisfying extension: a satisfying assignment can always be rewritten to
/// give a one-polarity variable the polarity it shows.
proof fn lemma_pure_safe(f: Formula, a: Map<u32, bool>, v: u32, pol: bool)
    requires
        pol ==> !occurs_neg(f, v),
        !pol ==> !occurs_pos(f, v),
        !a.contains_key(v),
        sat_extendable(f, a),
    ensures
        sat_extendable(f, a.insert(v, pol)),
{
    let m = choose|m: Map<u32, bool>| map_extends(m, a) && covers(m, f) && #[trigger] f.sat_by(m);
    let m2 = m.insert(v, pol);
    assert(map_extends(m2, a.insert(v, pol))) by {
        assert forall|k: u32| #[trigger] a.insert(v, pol).contains_key(k) implies m2.contains_key(
            k,
        ) && m2[k] == a.insert(v, pol)[k] by {
            if k != v {
                assert(a.contains_key(k));
            }
        }
    }
    assert(covers(m2, f)) by {
        assert forall|w: u32| #[trigger] occurs(f, w) implies m2.contains_key(w) by {
            assert(m.contains_key(w));
        }
    }
    assert(f.sat_by(m2)) by {
        assert forall|i: int| 0 <= i < f@.len() implies (#[trigger] f@[i]).sat_by(m2) by {
            let c = f@[i];
            assert(c.sat_by(m));
            let q = choose|q: int| 0 <= q < c@.len() && lit_true(m, #[trigger] c@[q]);
            if c@[q].var_idx() == v {
                if c@[q].pol() == pol {
                    assert(lit_true(m2, c@[q]));
                } else {
                    if pol {
                        assert(occurs_neg(f, v));
                    } else {
                        assert(occurs_pos(f, v));
                    }
                    assert(false);
                }
            } else {
                assert(lit_true(m2, c@[q]));
            }
        }
    }
}

/// A clause falsified under the assignment rules out every covering
/// satisfying extension.
proof fn lemma_conflict_unsat(f: Formula, a: Map<u32, bool>, i: int)
    requires
        0 <= i < f@.len(),
        f@[i].falsified_by(a),
    ensures
        !sat_extendable(f, a),
{
    if sat_extendable(f, a) {
        let m = choose|m: Map<u32, bool>|
            map_extends(m, a) && covers(m, f) && #[trigger] f.sat_by(m);
        let c = f@[i];
        assert(c.sat_by(m));
        let q = choose|q: int| 0 <= q < c@.len() && lit_true(m, #[trigger] c@[q]);
        assert(lit_false(a, c@[q]));
        assert(false);
    }
}

/// A covering satisfying extension must choose a value for any unassigned
/// variable of the formula, so one of the two branches stays extendable.
proof fn lemma_branch_split(f: Formula, a: Map<u32, bool>, v: u32)
    requires
        occurs(f, v),
        !a.contains_key(v),
        sat_extendable(f, a),
    ensures
        sat_extendable(f, a.insert(v, true)) || sat_extendable(f, a.insert(v, false)),
{
    let m = choose|m: Map<u32, bool>| map_extends(m, a) && covers(m, f) && #[trigger] f.sat_by(m);
    assert(m.contains_key(v));
    let b = m[v];
    assert(map_extends(m, a.insert(v, b))) by {
        assert forall|k: u32| #[trigger] a.insert(v, b).contains_key(k) implies m.contains_key(k)
            && m[k] == a.insert(v, b)[k] by {
            if k != v {
                assert(a.contains_key(k));
            }
        }
    }
}

/// `map_extends` is transitive.
proof fn lemma_extends_trans(m3: Map<u32, bool>, m2: Map<u32, bool>, m1: Map<u32, bool>)
    requires
        map_extends(m3, m2),
        map_extends(m2, m1),
    ensures
        map_extends(m3, m1),
{
}

/// Filtering out a variable never lengthens the unassigned list, and
/// strictly shortens it when the variable is present.
proof fn lemma_remove_shrinks(us: Seq<(Var, LitPolarities)>, v: u32)
    ensures
        remove_unassigned(us, v).len() <= us.len(),
        (exists|k: int| 0 <= k < us.len() && (#[trigger] us[k]).0@ == v) ==> remove_unassigned(
            us,
            v,
        ).len() < us.len(),
    decreases us.len(),
{
    reveal(Seq::filter);
    if us.len() > 0 {
        let rest = us.drop_last();
        lemma_remove_shrinks(rest, v);
        if exists|k: int| 0 <= k < us.len() && (#[trigger] us[k]).0@ == v {
            let k = choose|k: int| 0 <= k < us.len() && (#[trigger] us[k]).0@ == v;
            if k == us.len() - 1 {
                assert(us.last().0@ == v);
                assert(remove_unassigned(us, v) == remove_unassigned(rest, v));
            } else {
                assert(rest[k] == us[k]);
                assert(remove_unassigned(rest, v).len() < rest.len());
            }
        }
    }
}

impl<'a> Context<'a> {
    /// Runs unit propagation and pure-literal elimination to fixpoint,
    /// checking for full satisfaction after every round that changed the
    /// context.
    ///
    /// Propagation is idempotent: a context that already has no pending
    /// unit and no pure literal is returned unchanged, so running this
    /// again right after a `Fixpoint` outcome changes nothing.
    #[verifier::loop_isolation(false)]
    pub fn propagate(&mut self) -> (r: PropagateOutcome)
        requires
            old(self).wf(),
            old(self).false_states_empty(),
        ensures
            final(self).formula_of() == old(self).formula_of(),
            map_extends(final(self).amap(), old(self).amap()),
            final(self).unassigned().len() <= old(self).unassigned().len(),
            match r {
                PropagateOutcome::Conflict => !sat_extendable(
                    old(self).formula_of(),
                    final(self).amap(),
                ) && (sat_extendable(old(self).formula_of(), old(self).amap()) ==> sat_extendable(
                    old(self).formula_of(),
                    final(self).amap(),
                )),
                PropagateOutcome::Satisfied => final(self).wf() && forall|i: int|
                    0 <= i < final(self).states().len() ==> #[trigger] final(self).states()[i]
                        == ClauseState::Complete(true),
                PropagateOutcome::Fixpoint => final(self).wf() && final(self).false_states_empty()
                    && !final(self).has_unit() && !final(self).has_pure() && (sat_extendable(
                    old(self).formula_of(),
                    old(self).amap(),
                ) ==> sat_extendable(old(self).formula_of(), final(self).amap())),
            },
            !old(self).has_unit() && !old(self).has_pure() ==> r == PropagateOutcome::Fixpoint
                && *final(self) == *old(self),
    {
        let ghost f = old(self).formula_of();
        let ghost a0 = old(self).amap();
        loop
            invariant
                self.formula_of() == f,
                self.wf(),
                self.false_states_empty(),
                map_extends(self.amap(), a0),
                self.unassigned().len() <= old(self).unassigned().len(),
                sat_extendable(f, a0) ==> sat_extendable(f, self.amap()),
                !old(self).has_unit() && !old(self).has_pure() ==> *self == *old(self),
            decreases self.unassigned().len(),
        {
            let ghost us_start = self.unassigned();
            let mut changed = false;
            // Unit propagation
            if let Some(unit_lit) = self.get_unit_lit() {
                proof {
                    let i = choose|i: int|
                        0 <= i < self.states().len() && #[trigger] self.states()[i]
                            == ClauseState::Unit(unit_lit);
                    assert(state_consistent(f@[i], ClauseState::Unit(unit_lit), self.amap()));
                    let c = f@[i];
                    assert(c@.contains(unit_lit));
                    let q = choose|q: int| 0 <= q < c@.len() && c@[q] == unit_lit;
                    assert(c.wf());
                    assert(unit_lit.wf());
                    if unit_lit.pol() {
                        assert(occurs_pos(f, unit_lit.var_idx()));
                    } else {
                        assert(occurs_neg(f, unit_lit.var_idx()));
                    }
                    assert(occurs(f, unit_lit.var_idx()));
                }
                let ghost ctx1 = *self;
                let conflict = self.assign_lit(&unit_lit);
                proof {
                    lemma_insert_fresh(ctx1.amap(), unit_lit.var_idx(), unit_lit.pol());
                    lemma_extends_trans(self.amap(), ctx1.amap(), a0);
                    if sat_extendable(f, ctx1.amap()) {
                        let i = choose|i: int|
                            0 <= i < ctx1.states().len() && #[trigger] ctx1.states()[i]
                                == ClauseState::Unit(unit_lit);
                        let m = choose|m: Map<u32, bool>|
                            map_extends(m, ctx1.amap()) && covers(m, f)
                                && #[trigger] f.sat_by(m);
                        lemma_unit_forced(f, ctx1.amap(), unit_lit, i, m);
                        assert(sat_extendable(f, self.amap()));
                    }
                }
                if conflict {
                    proof {
                        let p = choose|p: int|
                            0 <= p < f@.len() && (#[trigger] f@[p]).falsified_by(self.amap());
                        lemma_conflict_unsat(f, self.amap(), p);
                    }
                    return PropagateOutcome::Conflict;
                }
                proof {
                    lemma_remove_shrinks(ctx1.unassigned(), unit_lit.var_idx());
                    assert(exists|k: int|
                        0 <= k < ctx1.unassigned().len() && (#[trigger] ctx1.unassigned()[k]).0@
                            == unit_lit.var_idx());
                    assert(self.unassigned().len() < us_start.len());
                }
                changed = true;
            }
            // Pure-literal elimination
            if let Some(pure_lit) = self.get_pure_lit() {
                let ghost k0 = choose|k: int|
                    0 <= k < self.unassigned().len() && (#[trigger] self.unassigned()[k]).0@
                        == pure_lit.var_idx() && ((self.unassigned()[k].1
                        == LitPolarities::TrueOnly && pure_lit == lit_of(
                        self.unassigned()[k].0@,
                        true,
                    )) || (self.unassigned()[k].1 == LitPolarities::FalseOnly && pure_lit
                        == lit_of(self.unassigned()[k].0@, false)));
                proof {
                    let entry = self.unassigned()[k0];
                    assert(entry.0.wf() && occurs(f, entry.0@) && !self.amap().contains_key(
                        entry.0@,
                    ) && tally_ok(f, entry.0@, entry.1));
                    crate::literals::lemma_lit_of_parts(entry.0@, true);
                    crate::literals::lemma_lit_of_parts(entry.0@, false);
                }
                let ghost ctx2 = *self;
                let conflict = self.assign_lit(&pure_lit);
                proof {
                    lemma_insert_fresh(ctx2.amap(), pure_lit.var_idx(), pure_lit.pol());
                    lemma_extends_trans(self.amap(), ctx2.amap(), a0);
                    if sat_extendable(f, ctx2.amap()) {
                        lemma_pure_safe(f, ctx2.amap(), pure_lit.var_idx(), pure_lit.pol());
                        assert(sat_extendable(f, self.amap()));
                    }
                }
                if conflict {
                    proof {
                        let p = choose|p: int|
                            0 <= p < f@.len() && (#[trigger] f@[p]).falsified_by(self.amap());
                        lemma_conflict_unsat(f, self.amap(), p);
                    }
                    return PropagateOutcome::Conflict;
                }
                proof {
                    lemma_remove_shrinks(ctx2.unassigned(), pure_lit.var_idx());
                    assert(exists|k: int|
                        0 <= k < ctx2.unassigned().len() && (#[trigger] ctx2.unassigned()[k]).0@
                            == pure_lit.var_idx());
                    assert(self.unassigned().len() < us_start.len());
                }
                changed = true;
            }
            if !changed {
                return PropagateOutcome::Fixpoint;
            }
            if self.all_satisfied() {
                return PropagateOutcome::Satisfied;
            }
            proof {
                assert(self.unassigned().len() < us_start.len());
            }
        }
    }
}

/// Continues a DPLL solve using known assignments: propagates to fixpoint,
/// then branches on the first unassigned variable, trying `true` before
/// `false`.
fn attempt_solve<'a>(ctx: Context<'a>) -> (r: Option<Assignment>)
    requires
        ctx.wf(),
        ctx.false_states_empty(),
    ensures
        match r {
            Some(a) => a.inv() && forall|i: int|
                0 <= i < ctx.formula_of()@.len() && ctx.formula_of()@[i]@.len() > 0 ==> (
                #[trigger] ctx.formula_of()@[i]).sat_by(a@),
            None => !sat_extendable(ctx.formula_of(), ctx.amap()),
        },
    decreases ctx.unassigned().len(),
{
    let ghost f = ctx.formula_of();
    let ghost a0 = ctx.amap();
    let mut c = ctx;
    match c.propagate() {
        PropagateOutcome::Conflict => {
            return None;
        },
        PropagateOutcome::Satisfied => {
            proof {
                assert forall|i: int| 0 <= i < f@.len() implies (#[trigger] f@[i]).sat_by(
                    c.amap(),
                ) by {
                    assert(c.states()[i] == ClauseState::Complete(true));
                    assert(state_consistent(f@[i], c.states()[i], c.amap()));
                }
            }
            return Some(c.assignment);
        },
        PropagateOutcome::Fixpoint => {},
    }
    let ghost a1 = c.amap();
    let branch_var = match c.get_unassigned_var() {
        Some(v) => v,
        None => {
            proof {
                assert forall|i: int| 0 <= i < f@.len() && f@[i]@.len() > 0 implies (
                #[trigger] f@[i]).sat_by(c.amap()) by {
                    let st = c.states()[i];
                    let cl = f@[i];
                    assert(state_consistent(cl, st, c.amap()));
                    if st is Watching {
                        let w = st->Watching_0;
                        assert(cl@.contains(w));
                        let q = choose|q: int| 0 <= q < cl@.len() && cl@[q] == w;
                        if w.pol() {
                            assert(occurs_pos(f, w.var_idx()));
                        } else {
                            assert(occurs_neg(f, w.var_idx()));
                        }
                        assert(occurs(f, w.var_idx()) && !c.amap().contains_key(w.var_idx()));
                        assert(false);
                    } else if st is Unit {
                        let w = st->Unit_0;
                        assert(cl@.contains(w));
                        let q = choose|q: int| 0 <= q < cl@.len() && cl@[q] == w;
                        if w.pol() {
                            assert(occurs_pos(f, w.var_idx()));
                        } else {
                            assert(occurs_neg(f, w.var_idx()));
                        }
                        assert(occurs(f, w.var_idx()) && !c.amap().contains_key(w.var_idx()));
                        assert(false);
                    } else {
                        if st == ClauseState::Complete(false) {
                            assert(cl@.len() == 0);
                            assert(false);
                        }
                        assert(st == ClauseState::Complete(true));
                        assert(cl.sat_by(c.amap()));
                    }
                }
            }
            return Some(c.assignment);
        },
    };
    proof {
        assert(c.unassigned()[0].0@ == branch_var@);
        assert(branch_var.wf() && occurs(f, branch_var@) && !c.amap().contains_key(branch_var@));
        lemma_remove_shrinks(c.unassigned(), branch_var@);
        assert(exists|k: int|
            0 <= k < c.unassigned().len() && (#[trigger] c.unassigned()[k]).0@ == branch_var@);
    }
    let mut ct = c.clone();
    if !ct.assign(&branch_var, true) {
        if ct.all_satisfied() {
            proof {
                assert forall|i: int| 0 <= i < f@.len() implies (#[trigger] f@[i]).sat_by(
                    ct.amap(),
                ) by {
                    assert(ct.states()[i] == ClauseState::Complete(true));
                    assert(state_consistent(f@[i], ct.states()[i], ct.amap()));
                }
            }
            return Some(ct.assignment);
        }
        let recursed = attempt_solve(ct);
        if let Some(solution) = recursed {
            return Some(solution);
        }
        proof {
            assert(!sat_extendable(f, a1.insert(branch_var@, true)));
        }
    } else {
        proof {
            let p = choose|p: int|
                0 <= p < f@.len() && (#[trigger] f@[p]).falsified_by(
                    a1.insert(branch_var@, true),
                );
            lemma_conflict_unsat(f, a1.insert(branch_var@, true), p);
        }
    }
    let mut cf = c.clone();
    if !cf.assign(&branch_var, false) {
        if cf.all_satisfied() {
            proof {
                assert forall|i: int| 0 <= i < f@.len() implies (#[trigger] f@[i]).sat_by(
                    cf.amap(),
                ) by {
                    assert(cf.states()[i] == ClauseState::Complete(true));
                    assert(state_consistent(f@[i], cf.states()[i], cf.amap()));
                }
            }
            return Some(cf.assignment);
        }
        let recursed = attempt_solve(cf);
        if let Some(solution) = recursed {
            return Some(solution);
        }
        proof {
            assert(!sat_extendable(f, a1.insert(branch_var@, false)));
        }
    } else {
        proof {
            let p = choose|p: int|
                0 <= p < f@.len() && (#[trigger] f@[p]).falsified_by(
                    a1.insert(branch_var@, false),
                );
            lemma_conflict_unsat(f, a1.insert(branch_var@, false), p);
        }
    }
    proof {
        if sat_extendable(f, a1) {
            lemma_branch_split(f, a1, branch_var@);
            assert(false);
        }
    }
    None
}

/// Attempts to find a satisfying set of assignments for this formula.
/// Variables not in the returned solution are unassigned and can take any
/// value: the assignment satisfies every nonempty clause no matter how it
/// is extended, and an empty clause can never be satisfied.
///
/// For a nonempty formula, `None` comes back exactly when no assignment of
/// the formula's variables satisfies every clause. The empty formula
/// yields `None` by convention, and a nonempty formula whose clauses are
/// all empty — which mentions no variable at all — is the one degenerate
/// input where `Some` comes back although the formula is unsatisfiable.
pub fn solve(formula: &Formula) -> (r: Option<Assignment>)
    requires
        formula.solver_ready(),
    ensures
        match r {
            Some(a) => a.inv() && forall|i: int|
                0 <= i < formula@.len() && formula@[i]@.len() > 0 ==> (
                #[trigger] formula@[i]).sat_by(a@),
            None => formula@.len() > 0 ==> forall|m: Map<u32, bool>|
                covers(m, *formula) ==> !formula.sat_by(m),
        },
{
    if formula.clauses().is_empty() {
        return None;
    }
    let ctx = Context::new(formula);
    let r = attempt_solve(ctx);
    proof {
        if r is None {
            assert forall|m: Map<u32, bool>| covers(m, *formula) implies !formula.sat_by(m) by {
                if formula.sat_by(m) {
                    assert(map_extends(m, Map::<u32, bool>::empty()));
                    assert(sat_extendable(*formula, Map::<u32, bool>::empty()));
                }
            }
        }
    }
    r
}

/// Watched-literal invariant: in any `Watching(a, b)` state of a context
/// satisfying the search invariant — as every context at rest does —
/// neither watched literal evaluates to false under the current assignment
/// (both are in fact unassigned), the watched literals lie in the clause,
/// and they watch distinct variables.
pub proof fn lemma_watched_literal_invariant<'a>(ctx: Context<'a>, i: int)
    requires
        ctx.wf(),
        0 <= i < ctx.states().len(),
        ctx.states()[i] is Watching,
    ensures
        !lit_false(ctx.amap(), ctx.states()[i]->Watching_0),
        !lit_false(ctx.amap(), ctx.states()[i]->Watching_1),
        !ctx.amap().contains_key(ctx.states()[i]->Watching_0.var_idx()),
        !ctx.amap().contains_key(ctx.states()[i]->Watching_1.var_idx()),
        ctx.states()[i]->Watching_0.var_idx() != ctx.states()[i]->Watching_1.var_idx(),
        ctx.formula_of()@[i]@.contains(ctx.states()[i]->Watching_0),
        ctx.formula_of()@[i]@.contains(ctx.states()[i]->Watching_1),
{
    assert(state_consistent(ctx.formula_of()@[i], ctx.states()[i], ctx.amap()));
}

} // verus!


