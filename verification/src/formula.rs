//! Clauses, formulas, and partial assignments.
//!
//! A clause is a disjunction of literals, a formula a conjunction of clauses,
//! and an assignment a partial map from variables to truth values.

use std::collections::HashMap;
use std::ops::Range;

use rand::RngExt;
use vstd::pervasive::VecAdditionalExecFns;
use vstd::prelude::*;

use crate::errors::LitError;
use crate::literals::{lemma_lit_eq, lit_of, Lit, Var, MAX_VAR_INDEX};

verus! {

broadcast use
    vstd::std_specs::hash::group_hash_axioms,
    vstd::seq_lib::group_to_multiset_ensures,
    Seq::lemma_filter_push,
;

/// The literal is true under the map: its variable is assigned its polarity.
pub open spec fn lit_true(m: Map<u32, bool>, l: Lit) -> bool {
    m.contains_key(l.var_idx()) && m[l.var_idx()] == l.pol()
}

/// The literal is false under the map: its variable is assigned the opposite
/// polarity.
pub open spec fn lit_false(m: Map<u32, bool>, l: Lit) -> bool {
    m.contains_key(l.var_idx()) && m[l.var_idx()] != l.pol()
}

/// What evaluating a literal under a partial map yields: `Some(truth value)`
/// if the variable is assigned, `None` otherwise.
pub open spec fn eval_lit_spec(m: Map<u32, bool>, l: Lit) -> Option<bool> {
    if m.contains_key(l.var_idx()) {
        Some(m[l.var_idx()] == l.pol())
    } else {
        None
    }
}

/// `m2` agrees with `m1` on every variable `m1` assigns.
pub open spec fn map_extends(m2: Map<u32, bool>, m1: Map<u32, bool>) -> bool {
    forall|k: u32| #[trigger] m1.contains_key(k) ==> m2.contains_key(k) && m2[k] == m1[k]
}

/// A partial mapping from variables to truth values.
///
/// Backed by a hash map keyed by variable index; the insertion order of the
/// keys is kept so the contents can be walked deterministically.
#[derive(Debug)]
pub struct Assignment {
    map: HashMap<u32, bool>,
    keys: Vec<Var>,
}

impl View for Assignment {
    type V = Map<u32, bool>;

    /// The partial map from variable indices to assigned values.
    closed spec fn view(&self) -> Map<u32, bool> {
        self.map@
    }
}

impl Assignment {
    /// Internal consistency: the recorded key list holds exactly the keys of
    /// the map, each once, and every recorded variable is in range.
    pub closed spec fn inv(self) -> bool {
        &&& forall|i: int|
            0 <= i < self.keys@.len() ==> (#[trigger] self.keys@[i]).wf() && self.map@.contains_key(
                self.keys@[i]@,
            )
        &&& forall|i: int, j: int|
            0 <= i < j < self.keys@.len() ==> self.keys@[i]@ != self.keys@[j]@
        &&& forall|k: u32|
            #[trigger] self.map@.contains_key(k) ==> exists|i: int|
                0 <= i < self.keys@.len() && self.keys@[i]@ == k
    }

    /// Creates a new, empty, assignment.
    pub fn new() -> (r: Assignment)
        ensures
            r@ == Map::<u32, bool>::empty(),
            r.inv(),
    {
        Assignment { map: HashMap::new(), keys: Vec::new() }
    }

    /// Returns `true` if the provided variable is assigned.
    pub fn contains(&self, var: &Var) -> (r: bool)
        ensures
            r == self@.contains_key(var@),
    {
        let k: u32 = var.index() as u32;
        self.map.contains_key(&k)
    }

    /// Gets the value assigned to `var` if it has one, otherwise `None`.
    pub fn get(&self, var: &Var) -> (r: Option<bool>)
        ensures
            r == (if self@.contains_key(var@) {
                Some(self@[var@])
            } else {
                None::<bool>
            }),
    {
        let k: u32 = var.index() as u32;
        match self.map.get(&k) {
            Some(b) => Some(*b),
            None => None,
        }
    }

    /// Sets the value of `var` to `value` in this assignment.
    ///
    /// Returns `true` if the variable was already set.
    pub fn set(&mut self, var: Var, value: bool) -> (r: bool)
        requires
            var.wf(),
            old(self).inv(),
        ensures
            final(self)@ == old(self)@.insert(var@, value),
            final(self).inv(),
            r == old(self)@.contains_key(var@),
    {
        let k: u32 = var.index() as u32;
        let prev = self.map.insert(k, value);
        if prev.is_none() {
            proof {
                assert forall|i: int| 0 <= i < old(self).keys@.len() implies old(
                    self,
                ).keys@[i]@ != var@ by {
                    assert(old(self)@.contains_key(old(self).keys@[i]@));
                }
            }
            self.keys.push(var);
            proof {
                assert forall|kk: u32| #[trigger] self.map@.contains_key(kk) implies exists|i: int|
                    0 <= i < self.keys@.len() && self.keys@[i]@ == kk by {
                    if kk == var@ {
                        assert(self.keys@[self.keys@.len() - 1]@ == kk);
                    } else {
                        let i = choose|i: int|
                            0 <= i < old(self).keys@.len() && old(self).keys@[i]@ == kk;
                        assert(self.keys@[i]@ == kk);
                    }
                }
            }
        }
        prev.is_some()
    }

    /// Assigns the underlying variable of `lit` to `lit.polarity()`.
    ///
    /// Returns `true` if the variable was already set.
    pub fn set_lit(&mut self, lit: &Lit) -> (r: bool)
        requires
            lit.wf(),
            old(self).inv(),
        ensures
            final(self)@ == old(self)@.insert(lit.var_idx(), lit.pol()),
            final(self).inv(),
            r == old(self)@.contains_key(lit.var_idx()),
    {
        self.set(lit.var(), lit.polarity())
    }

    /// Evaluates a literal under this assignment, if its variable is assigned.
    pub fn evaluate(&self, lit: &Lit) -> (r: Option<bool>)
        ensures
            r == eval_lit_spec(self@, *lit),
    {
        if let Some(assignment) = self.get(&lit.var()) {
            return Some(assignment == lit.polarity());
        }
        None
    }

    /// Returns this assignment as a vector of assignment pairs, sorted by
    /// variable index ascending.
    pub fn vec(&self) -> (r: Vec<(Var, bool)>)
        requires
            self.inv(),
        ensures
            r@.len() == self@.dom().len(),
            forall|i: int|
                0 <= i < r@.len() ==> (#[trigger] r@[i]).0.wf() && self@.contains_key(r@[i].0@)
                    && r@[i].1 == self@[r@[i].0@],
            forall|k: u32|
                #[trigger] self@.contains_key(k) ==> exists|i: int|
                    0 <= i < r@.len() && r@[i].0@ == k,
            forall|i: int, j: int| 0 <= i < j < r@.len() ==> r@[i].0@ < r@[j].0@,
    {
        let ghost m = self@;
        let mut pairs: Vec<(Var, bool)> = Vec::new();
        let n = self.keys.len();
        for idx in 0..n
            invariant
                self.inv(),
                m == self@,
                n == self.keys@.len(),
                pairs@.len() == idx,
                forall|i: int| 0 <= i < idx ==> (#[trigger] pairs@[i]).0 == self.keys@[i],
                forall|i: int|
                    0 <= i < idx ==> (#[trigger] pairs@[i]).0.wf() && m.contains_key(pairs@[i].0@)
                        && pairs@[i].1 == m[pairs@[i].0@],
        {
            let var = self.keys[idx];
            let value = match self.get(&var) {
                Some(v) => v,
                None => vstd::pervasive::unreached(),
            };
            pairs.push((var, value));
        }
        let ghost built = pairs@;
        proof {
            lemma_key_count(self.keys@, m);
            assert(built.no_duplicates()) by {
                assert forall|i: int, j: int|
                    0 <= i < built.len() && 0 <= j < built.len() && i != j implies built[i]
                    != built[j] by {
                    if i < j {
                        assert(built[i].0@ != built[j].0@);
                    } else {
                        assert(built[j].0@ != built[i].0@);
                    }
                }
            }
            built.lemma_multiset_has_no_duplicates();
        }
        sort_pairs(&mut pairs);
        proof {
            pairs@.lemma_multiset_has_no_duplicates_conv();
            assert forall|i: int| 0 <= i < pairs@.len() implies (#[trigger] pairs@[i]).0.wf()
                && m.contains_key(pairs@[i].0@) && pairs@[i].1 == m[pairs@[i].0@] by {
                assert(pairs@.contains(pairs@[i]));
                assert(pairs@.to_multiset().count(pairs@[i]) > 0);
                assert(built.to_multiset().count(pairs@[i]) > 0);
                assert(built.contains(pairs@[i]));
            }
            assert forall|k: u32| #[trigger] m.contains_key(k) implies exists|i: int|
                0 <= i < pairs@.len() && (#[trigger] pairs@[i]).0@ == k by {
                let i0 = choose|i: int| 0 <= i < self.keys@.len() && (#[trigger] self.keys@[i])@
                    == k;
                let p = built[i0];
                assert(built.contains(p));
                assert(built.to_multiset().count(p) > 0);
                assert(pairs@.to_multiset().count(p) > 0);
                assert(pairs@.contains(p));
                let i1 = choose|i: int| 0 <= i < pairs@.len() && pairs@[i] == p;
                assert(pairs@[i1].0@ == k);
            }
            assert forall|i: int, j: int| 0 <= i < j < pairs@.len() implies pairs@[i].0@
                < pairs@[j].0@ by {
                if pairs@[i].0@ == pairs@[j].0@ {
                    assert(pairs@.contains(pairs@[i]));
                    assert(pairs@.contains(pairs@[j]));
                    assert(pairs@.to_multiset().count(pairs@[i]) > 0);
                    assert(pairs@.to_multiset().count(pairs@[j]) > 0);
                    assert(built.to_multiset().count(pairs@[i]) > 0);
                    assert(built.to_multiset().count(pairs@[j]) > 0);
                    assert(built.contains(pairs@[i]));
                    assert(built.contains(pairs@[j]));
                    let a = choose|a: int| 0 <= a < built.len() && built[a] == pairs@[i];
                    let b = choose|b: int| 0 <= b < built.len() && built[b] == pairs@[j];
                    if a < b {
                        assert(built[a].0@ != built[b].0@);
                    } else if b < a {
                        assert(built[b].0@ != built[a].0@);
                    }
                    assert(pairs@[i] == pairs@[j]);
                    assert(false);
                }
            }
        }
        pairs
    }

    /// Returns this assignment as a vector of literals, sorted by variable
    /// index ascending; each literal's polarity is the assigned value.
    pub fn lits(&self) -> (r: Vec<Lit>)
        requires
            self.inv(),
        ensures
            r@.len() == self@.dom().len(),
            forall|i: int|
                0 <= i < r@.len() ==> (#[trigger] r@[i]).wf() && self@.contains_key(r@[i].var_idx())
                    && r@[i].pol() == self@[r@[i].var_idx()],
            forall|k: u32|
                #[trigger] self@.contains_key(k) ==> exists|i: int|
                    0 <= i < r@.len() && r@[i].var_idx() == k,
            forall|i: int, j: int| 0 <= i < j < r@.len() ==> r@[i].var_idx() < r@[j].var_idx(),
    {
        let pairs = self.vec();
        let mut out: Vec<Lit> = Vec::new();
        let n = pairs.len();
        for idx in 0..n
            invariant
                n == pairs@.len(),
                out@.len() == idx,
                forall|i: int|
                    0 <= i < pairs@.len() ==> (#[trigger] pairs@[i]).0.wf() && self@.contains_key(
                        pairs@[i].0@,
                    ) && pairs@[i].1 == self@[pairs@[i].0@],
                forall|i: int, j: int| 0 <= i < j < pairs@.len() ==> pairs@[i].0@ < pairs@[j].0@,
                forall|i: int|
                    0 <= i < idx ==> #[trigger] out@[i] == lit_of(pairs@[i].0@, pairs@[i].1)
                        && out@[i].wf() && out@[i].var_idx() == pairs@[i].0@ && out@[i].pol()
                        == pairs@[i].1,
        {
            let (var, value) = pairs[idx];
            out.push(Lit::from_var(&var, value));
        }
        proof {
            assert forall|k: u32| #[trigger] self@.contains_key(k) implies exists|i: int|
                0 <= i < out@.len() && (#[trigger] out@[i]).var_idx() == k by {
                let i0 = choose|i: int| 0 <= i < pairs@.len() && (#[trigger] pairs@[i]).0@ == k;
                assert(out@[i0].var_idx() == k);
            }
        }
        out
    }

    /// Gets a std hash map keyed by `Var` holding the same assignments.
    ///
    /// Mirrors the contents reported by `vec`; nothing further is specified
    /// of the std map built over struct keys.
    pub fn hashmap(&self) -> HashMap<Var, bool>
        requires
            self.inv(),
    {
        let mut hm: HashMap<Var, bool> = HashMap::new();
        let pairs = self.vec();
        let n = pairs.len();
        for idx in 0..n
            invariant
                n == pairs@.len(),
        {
            let (var, value) = pairs[idx];
            hm.insert(var, value);
        }
        hm
    }
}

impl Default for Assignment {
    /// An empty assignment.
    fn default() -> (r: Assignment)
        ensures
            r@ == Map::<u32, bool>::empty(),
            r.inv(),
    {
        Assignment::new()
    }
}

impl Clone for Assignment {
    /// The clone assigns exactly what the original assigns.
    fn clone(&self) -> (r: Self)
        ensures
            r@ == self@,
            self.inv() ==> r.inv(),
    {
        let r = Assignment { map: clone_hash_map(&self.map), keys: copy_vec(&self.keys) };
        proof {
            assert(r.keys@ == self.keys@);
            assert(r.map@ == self.map@);
            if self.inv() {
                assert forall|k: u32| #[trigger] r.map@.contains_key(k) implies exists|i: int|
                    0 <= i < r.keys@.len() && r.keys@[i]@ == k by {
                    let i = choose|i: int| 0 <= i < self.keys@.len() && self.keys@[i]@ == k;
                    assert(r.keys@[i]@ == k);
                }
            }
        }
        r
    }
}

/// Relies on std's `HashMap::clone`: the clone holds exactly the key-value
/// pairs of the original map.
#[verifier::external_body]
fn clone_hash_map(m: &HashMap<u32, bool>) -> (r: HashMap<u32, bool>)
    ensures
        r@ == m@,
{
    m.clone()
}

/// Copies a vector of `Copy` data element by element.
pub(crate) fn copy_vec<T: Copy>(v: &Vec<T>) -> (r: Vec<T>)
    ensures
        r@ == v@,
{
    let mut out: Vec<T> = Vec::new();
    let n = v.len();
    for idx in 0..n
        invariant
            n == v@.len(),
            out@ =~= v@.take(idx as int),
    {
        out.push(v[idx]);
    }
    proof {
        assert(out@ =~= v@);
    }
    out
}

/// The number of distinct keys equals the length of a duplicate-free key
/// list that enumerates exactly the map's domain.
proof fn lemma_key_count(keys: Seq<Var>, m: Map<u32, bool>)
    requires
        forall|i: int| 0 <= i < keys.len() ==> m.contains_key((#[trigger] keys[i])@),
        forall|i: int, j: int| 0 <= i < j < keys.len() ==> keys[i]@ != keys[j]@,
        forall|k: u32|
            #[trigger] m.contains_key(k) ==> exists|i: int| 0 <= i < keys.len() && keys[i]@ == k,
        m.dom().finite(),
    ensures
        keys.len() == m.dom().len(),
{
    let ks: Seq<u32> = keys.map_values(|v: Var| v@);
    assert(ks.no_duplicates()) by {
        assert forall|i: int, j: int|
            0 <= i < ks.len() && 0 <= j < ks.len() && i != j implies ks[i] != ks[j] by {
            if i < j {
                assert(keys[i]@ != keys[j]@);
            } else {
                assert(keys[j]@ != keys[i]@);
            }
        }
    }
    ks.unique_seq_to_set();
    assert(ks.to_set() =~= m.dom()) by {
        assert forall|k: u32| m.dom().contains(k) implies ks.to_set().contains(k) by {
            let i = choose|i: int| 0 <= i < keys.len() && (#[trigger] keys[i])@ == k;
            assert(ks[i] == k);
            assert(ks.contains(k));
        }
        assert forall|k: u32| ks.to_set().contains(k) implies m.dom().contains(k) by {
            let i = choose|i: int| 0 <= i < ks.len() && ks[i] == k;
            assert(m.contains_key(keys[i]@));
        }
    }
}

/// Sorts the pairs by variable index ascending, keeping the same collection
/// of pairs.
fn sort_pairs(pairs: &mut Vec<(Var, bool)>)
    ensures
        final(pairs)@.len() == old(pairs)@.len(),
        final(pairs)@.to_multiset() == old(pairs)@.to_multiset(),
        forall|i: int, j: int|
            0 <= i < j < final(pairs)@.len() ==> final(pairs)@[i].0@ <= final(pairs)@[j].0@,
{
    let n = pairs.len();
    if n == 0 {
        return ;
    }
    let mut i: usize = 1;
    while i < n
        invariant
            n == pairs@.len(),
            1 <= i <= n,
            pairs@.to_multiset() == old(pairs)@.to_multiset(),
            forall|a: int, b: int| 0 <= a < b < i ==> pairs@[a].0@ <= pairs@[b].0@,
        decreases n - i,
    {
        let mut j: usize = i;
        while j > 0 && pairs[j - 1].0.index() > pairs[j].0.index()
            invariant
                n == pairs@.len(),
                0 <= j <= i < n,
                pairs@.to_multiset() == old(pairs)@.to_multiset(),
                forall|a: int, b: int| 0 <= a < b <= i && b != j ==> pairs@[a].0@ <= pairs@[b].0@,
            decreases j,
        {
            let x = pairs[j - 1];
            let y = pairs[j];
            pairs.set(j - 1, y);
            pairs.set(j, x);
            j = j - 1;
        }
        i = i + 1;
    }
}

/// Declares rand's thread-local generator type so wrappers can hold and
/// pass it; its values stay opaque to the verifier.
#[verifier::external_type_specification]
#[verifier::external_body]
pub struct ExThreadRng(rand::rngs::ThreadRng);

/// Relies on rand's `rng()`: hands out the thread-local random generator.
/// It panics only if the operating system's random source fails at the
/// thread's first use.
#[verifier::external_body]
fn fresh_rng() -> rand::rngs::ThreadRng {
    rand::rng()
}

/// Relies on rand's `RngExt::random_range` over `start..end`: returns a
/// value of the half-open range. The call panics on an empty range, which
/// the precondition rules out.
#[verifier::external_body]
fn random_index_in(rng: &mut rand::rngs::ThreadRng, start: usize, end: usize) -> (r: usize)
    requires
        start < end,
    ensures
        start <= r < end,
{
    rng.random_range(start..end)
}

/// Relies on rand's `RngExt::random` at type `bool`: returns a random
/// boolean. Nothing can be promised of a random value.
#[verifier::external_body]
fn random_polarity(rng: &mut rand::rngs::ThreadRng) -> bool {
    rng.random()
}

/// Some literal of the sequence is on variable `w`.
spec fn holds_var(s: Seq<Lit>, w: int) -> bool {
    exists|q: int| 0 <= q < s.len() && (#[trigger] s[q]).var_idx() == w
}

/// A clause on pairwise-distinct variables that contains every variable of
/// `[lo, hi)` has at least `hi - lo` literals.
proof fn lemma_distinct_vars_cover(s: Seq<Lit>, lo: int, hi: int)
    requires
        lo <= hi,
        forall|i: int, j: int| 0 <= i < j < s.len() ==> s[i].var_idx() != s[j].var_idx(),
        forall|w: int| lo <= w < hi ==> #[trigger] holds_var(s, w),
    ensures
        s.len() >= hi - lo,
    decreases hi - lo,
{
    if lo < hi {
        let w = hi - 1;
        assert(holds_var(s, w));
        let q = choose|q: int| 0 <= q < s.len() && (#[trigger] s[q]).var_idx() == w;
        let s2 = s.remove(q);
        assert forall|i: int, j: int| 0 <= i < j < s2.len() implies s2[i].var_idx()
            != s2[j].var_idx() by {
            let i0 = if i < q {
                i
            } else {
                i + 1
            };
            let j0 = if j < q {
                j
            } else {
                j + 1
            };
            assert(s2[i] == s[i0] && s2[j] == s[j0]);
            assert(s[i0].var_idx() != s[j0].var_idx());
        }
        assert forall|w2: int| lo <= w2 < hi - 1 implies #[trigger] holds_var(s2, w2) by {
            assert(holds_var(s, w2));
            let q0 = choose|q0: int| 0 <= q0 < s.len() && (#[trigger] s[q0]).var_idx() == w2;
            assert(q0 != q);
            if q0 < q {
                assert(s2[q0] == s[q0]);
                assert(s2[q0].var_idx() == w2);
            } else {
                assert(s2[q0 - 1] == s[q0]);
                assert(s2[q0 - 1].var_idx() == w2);
            }
        }
        lemma_distinct_vars_cover(s2, lo, hi - 1);
    }
}

/// A CNF clause: a disjunction of literals.
#[derive(Debug)]
pub struct Clause {
    literals: Vec<Lit>,
}

impl View for Clause {
    type V = Seq<Lit>;

    /// The sequence of literals, in insertion order.
    closed spec fn view(&self) -> Seq<Lit> {
        self.literals@
    }
}

impl Clause {
    /// Every literal's variable index is within the supported range.
    pub open spec fn wf(self) -> bool {
        forall|i: int| 0 <= i < self@.len() ==> (#[trigger] self@[i]).wf()
    }

    /// No variable appears twice: no duplicate literals and no literal
    /// alongside its complement.
    pub open spec fn distinct_vars(self) -> bool {
        forall|i: int, j: int| 0 <= i < j < self@.len() ==> self@[i].var_idx() != self@[j].var_idx()
    }

    /// The clause is satisfied: some literal is true under the map.
    pub open spec fn sat_by(self, m: Map<u32, bool>) -> bool {
        exists|i: int| 0 <= i < self@.len() && lit_true(m, #[trigger] self@[i])
    }

    /// The clause is falsified: every literal is false under the map. The
    /// empty clause is falsified by every map.
    pub open spec fn falsified_by(self, m: Map<u32, bool>) -> bool {
        forall|i: int| 0 <= i < self@.len() ==> lit_false(m, #[trigger] self@[i])
    }

    /// What evaluating the clause under a partial map yields.
    pub open spec fn eval_spec(self, m: Map<u32, bool>) -> Option<bool> {
        if self.sat_by(m) {
            Some(true)
        } else if self.falsified_by(m) {
            Some(false)
        } else {
            None
        }
    }

    /// Position `i` holds the sole unassigned literal and every other
    /// literal is false under the map.
    pub open spec fn unit_at(self, m: Map<u32, bool>, i: int) -> bool {
        &&& 0 <= i < self@.len()
        &&& !m.contains_key(self@[i].var_idx())
        &&& forall|j: int| 0 <= j < self@.len() && j != i ==> lit_false(m, #[trigger] self@[j])
    }

    /// Creates a new clause containing no literals.
    pub fn new() -> (r: Clause)
        ensures
            r@ == Seq::<Lit>::empty(),
    {
        Clause { literals: Vec::new() }
    }

    /// What converting one DIMACS number to a literal reports: `None` when
    /// the number is a valid literal encoding.
    pub open spec fn dimacs_lit_err(n: int) -> Option<LitError> {
        if n == 0 {
            Some(LitError::InvalidDimacs)
        } else if n > MAX_VAR_INDEX + 1 || n < -(MAX_VAR_INDEX + 1) {
            Some(LitError::IndexTooLarge)
        } else {
            None
        }
    }

    /// The first conversion error among the numbers from position `i` on.
    pub open spec fn first_dimacs_err(ns: Seq<isize>, i: int) -> Option<LitError>
        decreases ns.len() - i when 0 <= i <= ns.len()
    {
        if i >= ns.len() {
            None
        } else if Self::dimacs_lit_err(ns[i] as int) is Some {
            Self::dimacs_lit_err(ns[i] as int)
        } else {
            Self::first_dimacs_err(ns, i + 1)
        }
    }

    /// Builds a clause from a sequence of DIMACS integers, in order.
    ///
    /// Fails with the error of the first invalid number: `InvalidDimacs`
    /// for zero, `IndexTooLarge` for a magnitude beyond the supported
    /// range.
    #[verifier::loop_isolation(false)]
    pub fn from_dimacs(numbers: &[isize]) -> (r: Result<Clause, LitError>)
        ensures
            match r {
                Ok(c) => Self::first_dimacs_err(numbers@, 0) is None && c@.len()
                    == numbers@.len() && c.wf() && forall|i: int|
                    0 <= i < c@.len() ==> (#[trigger] c@[i]).to_dimacs_spec() == numbers@[i],
                Err(e) => Self::first_dimacs_err(numbers@, 0) == Some(e),
            },
    {
        let mut clause = Clause::new();
        let n = numbers.len();
        for i in 0..n
            invariant
                n == numbers@.len(),
                clause@.len() == i,
                clause.wf(),
                Self::first_dimacs_err(numbers@, 0) == Self::first_dimacs_err(numbers@, i as int),
                forall|p: int|
                    0 <= p < i ==> (#[trigger] clause@[p]).to_dimacs_spec() == numbers@[p],
        {
            match Lit::from_dimacs(numbers[i]) {
                Ok(l) => {
                    clause.add_literal(l);
                },
                Err(e) => {
                    return Err(e);
                },
            }
        }
        Ok(clause)
    }

    /// Generates a random clause of `n` literals: `n` distinct variables
    /// drawn from `index_range`, each with a random polarity, so the clause
    /// holds no duplicate literal and no complementary pair.
    ///
    /// Fails with `IndexTooLarge` only when the range reaches past the
    /// largest supported variable index.
    #[verifier::loop_isolation(false)]
    pub fn random(n: usize, index_range: Range<usize>) -> (r: Result<Clause, LitError>)
        requires
            n == 0 || index_range.start + n <= index_range.end,
        ensures
            r matches Ok(c) ==> c@.len() == n && c.wf() && c.distinct_vars() && forall|i: int|
                0 <= i < c@.len() ==> index_range.start <= (#[trigger] c@[i]).var_idx()
                    < index_range.end,
            r matches Err(e) ==> e == LitError::IndexTooLarge && index_range.end > MAX_VAR_INDEX
                + 1,
    {
        if n == 0 {
            return Ok(Clause::new());
        }
        let start = index_range.start;
        let end = index_range.end;
        let mut rng = fresh_rng();
        let mut clause = Clause::new();
        let mut count: usize = 0;
        let mut budget: usize = if n <= usize::MAX - 4096 {
            n + 4096
        } else {
            n
        };
        while count < n && budget > 0
            invariant
                count == clause@.len(),
                count <= n,
                clause.wf(),
                clause.distinct_vars(),
                forall|i: int|
                    0 <= i < clause@.len() ==> start <= (#[trigger] clause@[i]).var_idx() < end,
            decreases budget,
        {
            budget = budget - 1;
            let idx = random_index_in(&mut rng, start, end);
            let pol = random_polarity(&mut rng);
            let lit = match Lit::from_index(idx, pol) {
                Ok(l) => l,
                Err(e) => {
                    return Err(e);
                },
            };
            let compl = lit.complement();
            if !clause.contains_literal(&lit) && !clause.contains_literal(&compl) {
                proof {
                    assert forall|q: int| 0 <= q < clause@.len() implies (
                    #[trigger] clause@[q]).var_idx() != lit.var_idx() by {
                        if clause@[q].var_idx() == lit.var_idx() {
                            if clause@[q].pol() == lit.pol() {
                                lemma_lit_eq(clause@[q], lit);
                                assert(clause@.contains(lit));
                            } else {
                                lemma_lit_eq(clause@[q], compl);
                                assert(clause@.contains(compl));
                            }
                        }
                    }
                }
                clause.add_literal(lit);
                count = count + 1;
            }
        }
        let mut idx = start;
        while idx < end && count < n
            invariant
                start <= idx <= end,
                count == clause@.len(),
                count <= n,
                clause.wf(),
                clause.distinct_vars(),
                forall|i: int|
                    0 <= i < clause@.len() ==> start <= (#[trigger] clause@[i]).var_idx() < end,
                forall|w: int| start <= w < idx ==> #[trigger] holds_var(clause@, w),
            decreases end - idx,
        {
            let ghost cl0 = clause@;
            let var = match Var::from_index(idx) {
                Ok(v) => v,
                Err(e) => {
                    return Err(e);
                },
            };
            let pos = var.positive();
            let neg = var.negative();
            if !clause.contains_literal(&pos) && !clause.contains_literal(&neg) {
                let pol = random_polarity(&mut rng);
                let lit = Lit::from_var(&var, pol);
                proof {
                    assert forall|q: int| 0 <= q < clause@.len() implies (
                    #[trigger] clause@[q]).var_idx() != lit.var_idx() by {
                        if clause@[q].var_idx() == lit.var_idx() {
                            if clause@[q].pol() {
                                lemma_lit_eq(clause@[q], pos);
                                assert(clause@.contains(pos));
                            } else {
                                lemma_lit_eq(clause@[q], neg);
                                assert(clause@.contains(neg));
                            }
                        }
                    }
                }
                clause.add_literal(lit);
                count = count + 1;
                proof {
                    assert(clause@[clause@.len() - 1].var_idx() == idx);
                    assert(holds_var(clause@, idx as int));
                }
            } else {
                proof {
                    if clause@.contains(pos) {
                        let q = choose|q: int| 0 <= q < clause@.len() && clause@[q] == pos;
                        assert(clause@[q].var_idx() == idx);
                    } else {
                        let q = choose|q: int| 0 <= q < clause@.len() && clause@[q] == neg;
                        assert(clause@[q].var_idx() == idx);
                    }
                    assert(holds_var(clause@, idx as int));
                }
            }
            proof {
                assert forall|w: int| start <= w <= idx implies #[trigger] holds_var(
                    clause@,
                    w,
                ) by {
                    if w < idx {
                        assert(holds_var(cl0, w));
                        let q = choose|q: int|
                            0 <= q < cl0.len() && (#[trigger] cl0[q]).var_idx() == w;
                        assert(clause@[q] == cl0[q]);
                        assert(clause@[q].var_idx() == w);
                    }
                }
            }
            idx = idx + 1;
        }
        proof {
            if count < n {
                lemma_distinct_vars_cover(clause@, start as int, end as int);
                assert(false);
            }
        }
        Ok(clause)
    }

    /// Returns a copy of the literals in this clause.
    pub fn literals(&self) -> (r: Vec<Lit>)
        ensures
            r@ == self@,
    {
        copy_vec(&self.literals)
    }

    /// Adds a literal to this clause.
    pub fn add_literal(&mut self, lit: Lit)
        ensures
            final(self)@ == old(self)@.push(lit),
    {
        self.literals.push(lit);
    }

    /// Removes every occurrence of a literal from this clause.
    pub fn remove_literal(&mut self, lit: Lit)
        ensures
            final(self)@ == old(self)@.filter(|l: Lit| l != lit),
    {
        let mut kept: Vec<Lit> = Vec::new();
        let n = self.literals.len();
        for idx in 0..n
            invariant
                n == self.literals@.len(),
                kept@ == self.literals@.take(idx as int).filter(|l: Lit| l != lit),
        {
            proof {
                assert(self.literals@.take(idx + 1) == self.literals@.take(idx as int).push(
                    self.literals@[idx as int],
                ));
            }
            let l = self.literals[idx];
            if !(l == lit) {
                kept.push(l);
            }
        }
        proof {
            assert(self.literals@.take(n as int) == self.literals@);
        }
        self.literals = kept;
    }

    /// Checks if this clause contains the given literal.
    pub fn contains_literal(&self, lit: &Lit) -> (r: bool)
        ensures
            r == self@.contains(*lit),
    {
        let n = self.literals.len();
        for idx in 0..n
            invariant
                n == self.literals@.len(),
                forall|i: int| 0 <= i < idx ==> self.literals@[i] != *lit,
        {
            if self.literals[idx] == *lit {
                return true;
            }
        }
        false
    }

    /// Removes all occurrences of a variable from this clause.
    pub fn remove_variable(&mut self, var: Var)
        ensures
            final(self)@ == old(self)@.filter(|l: Lit| l.var_idx() != var@),
    {
        let mut kept: Vec<Lit> = Vec::new();
        let n = self.literals.len();
        for idx in 0..n
            invariant
                n == self.literals@.len(),
                kept@ == self.literals@.take(idx as int).filter(|l: Lit| l.var_idx() != var@),
        {
            proof {
                assert(self.literals@.take(idx + 1) == self.literals@.take(idx as int).push(
                    self.literals@[idx as int],
                ));
            }
            let l = self.literals[idx];
            if !(l.index() == var.index()) {
                kept.push(l);
            }
        }
        proof {
            assert(self.literals@.take(n as int) == self.literals@);
        }
        self.literals = kept;
    }

    /// Checks if this clause is empty (contains no literals).
    pub fn is_empty(&self) -> (r: bool)
        ensures
            r == (self@.len() == 0),
    {
        self.literals.is_empty()
    }

    /// Checks if this clause is a unit clause under the provided assignment:
    /// exactly one literal is unassigned and every other literal is false.
    ///
    /// If it is, returns the unit literal, otherwise returns `None`.
    pub fn is_unit(&self, assignment: &Assignment) -> (r: Option<Lit>)
        ensures
            match r {
                Some(l) => exists|i: int| self.unit_at(assignment@, i) && l == self@[i],
                None => forall|i: int| !self.unit_at(assignment@, i),
            },
    {
        let ghost m = assignment@;
        let mut unassigned_idx: Option<usize> = None;
        let mut multiple = false;
        let mut found_true = false;
        let n = self.literals.len();
        for idx in 0..n
            invariant
                n == self.literals@.len(),
                m == assignment@,
                match unassigned_idx {
                    Some(u) => u < idx && !m.contains_key(self@[u as int].var_idx()) && (!multiple
                        ==> forall|j: int|
                        0 <= j < idx && j != u ==> m.contains_key(
                            (#[trigger] self@[j]).var_idx(),
                        )),
                    None => forall|j: int|
                        0 <= j < idx ==> m.contains_key((#[trigger] self@[j]).var_idx()),
                },
                multiple ==> exists|a: int, b: int|
                    0 <= a < b < idx && !m.contains_key((#[trigger] self@[a]).var_idx())
                        && !m.contains_key((#[trigger] self@[b]).var_idx()),
                multiple ==> unassigned_idx is Some,
                found_true ==> exists|j: int| 0 <= j < idx && lit_true(m, #[trigger] self@[j]),
                !found_true ==> forall|j: int| 0 <= j < idx ==> !lit_true(m, #[trigger] self@[j]),
        {
            let lit = self.literals[idx];
            match assignment.evaluate(&lit) {
                None => {
                    if unassigned_idx.is_some() {
                        multiple = true;
                    } else {
                        unassigned_idx = Some(idx);
                    }
                },
                Some(true) => {
                    proof {
                        assert(lit_true(m, self@[idx as int]));
                    }
                    found_true = true;
                },
                Some(false) => {},
            }
        }
        if multiple || found_true {
            proof {
                if multiple {
                    assert forall|i: int| !self.unit_at(m, i) by {
                        if self.unit_at(m, i) {
                            let (a, b) = choose|a: int, b: int|
                                0 <= a < b < n && !m.contains_key(
                                    (#[trigger] self@[a]).var_idx(),
                                ) && !m.contains_key((#[trigger] self@[b]).var_idx());
                            if a != i {
                                assert(lit_false(m, self@[a]));
                            } else {
                                assert(lit_false(m, self@[b]));
                            }
                        }
                    }
                } else {
                    assert forall|i: int| !self.unit_at(m, i) by {
                        if self.unit_at(m, i) {
                            let t = choose|j: int|
                                0 <= j < n && lit_true(m, #[trigger] self@[j]);
                            assert(t != i);
                            assert(lit_false(m, self@[t]));
                        }
                    }
                }
            }
            return None;
        }
        match unassigned_idx {
            Some(u) => {
                proof {
                    assert(self.unit_at(m, u as int)) by {
                        assert forall|j: int| 0 <= j < n && j != u implies lit_false(
                            m,
                            #[trigger] self@[j],
                        ) by {
                            assert(m.contains_key(self@[j].var_idx()));
                            assert(!lit_true(m, self@[j]));
                        }
                    }
                }
                Some(self.literals[u])
            },
            None => {
                proof {
                    assert forall|i: int| !self.unit_at(m, i) by {
                        if 0 <= i < n {
                            assert(m.contains_key(self@[i].var_idx()));
                        }
                    }
                }
                None
            },
        }
    }

    /// Attempts to evaluate this clause under the given assignment.
    ///
    /// Returns `None` if the clause is neither satisfied nor falsified yet.
    pub fn evaluate(&self, assignments: &Assignment) -> (r: Option<bool>)
        ensures
            r == self.eval_spec(assignments@),
    {
        let ghost m = assignments@;
        let mut decided = true;
        let n = self.literals.len();
        for idx in 0..n
            invariant
                n == self.literals@.len(),
                m == assignments@,
                forall|j: int| 0 <= j < idx ==> !lit_true(m, #[trigger] self@[j]),
                decided <==> forall|j: int| 0 <= j < idx ==> lit_false(m, #[trigger] self@[j]),
        {
            let lit = self.literals[idx];
            match assignments.evaluate(&lit) {
                Some(value) => {
                    if value {
                        return Some(true);
                    }
                },
                None => {
                    decided = false;
                },
            }
        }
        if decided {
            Some(false)
        } else {
            proof {
                let u = choose|j: int| 0 <= j < n && !lit_false(m, #[trigger] self@[j]);
                assert(!self.falsified_by(m));
            }
            None
        }
    }
}

impl Default for Clause {
    /// An empty clause.
    fn default() -> (r: Clause)
        ensures
            r@ == Seq::<Lit>::empty(),
    {
        Clause::new()
    }
}

impl Clone for Clause {
    /// The clone holds exactly the literals of the original, in order.
    fn clone(&self) -> (r: Self)
        ensures
            r@ == self@,
    {
        Clause { literals: copy_vec(&self.literals) }
    }
}

/// A CNF formula: a conjunction of clauses.
#[derive(Debug)]
pub struct Formula {
    clauses: Vec<Clause>,
}

impl View for Formula {
    type V = Seq<Clause>;

    /// The sequence of clauses, in insertion order.
    closed spec fn view(&self) -> Seq<Clause> {
        self.clauses@
    }
}

impl Formula {
    /// Every clause is in range and mentions each variable at most once;
    /// what the solver requires of its input.
    pub open spec fn solver_ready(self) -> bool {
        forall|i: int|
            0 <= i < self@.len() ==> (#[trigger] self@[i]).wf() && self@[i].distinct_vars()
    }

    /// Every clause is satisfied under the map.
    pub open spec fn sat_by(self, m: Map<u32, bool>) -> bool {
        forall|i: int| 0 <= i < self@.len() ==> (#[trigger] self@[i]).sat_by(m)
    }

    /// What evaluating the formula under a partial map yields.
    pub open spec fn eval_spec(self, m: Map<u32, bool>) -> Option<bool> {
        if exists|i: int| 0 <= i < self@.len() && (#[trigger] self@[i]).falsified_by(m) {
            Some(false)
        } else if self.sat_by(m) {
            Some(true)
        } else {
            None
        }
    }

    /// Creates a new, empty, formula.
    pub fn new() -> (r: Formula)
        ensures
            r@ == Seq::<Clause>::empty(),
    {
        Formula { clauses: Vec::new() }
    }

    /// Adds a clause to this formula.
    pub fn add_clause(&mut self, clause: Clause)
        ensures
            final(self)@ == old(self)@.push(clause),
    {
        self.clauses.push(clause);
    }

    /// Gets the clauses in this formula.
    pub fn clauses(&self) -> (r: &Vec<Clause>)
        ensures
            r@ == self@,
    {
        &self.clauses
    }

    /// Checks the solver's input contract: every literal's variable is in
    /// range and no clause mentions a variable twice.
    #[verifier::loop_isolation(false)]
    pub fn is_solver_ready(&self) -> (r: bool)
        ensures
            r == self.solver_ready(),
    {
        let n = self.clauses.len();
        for i in 0..n
            invariant
                forall|p: int|
                    0 <= p < i ==> (#[trigger] self@[p]).wf() && self@[p].distinct_vars(),
        {
            let lits = self.clauses[i].literals();
            let m = lits.len();
            for j in 0..m
                invariant
                    lits@ == self@[i as int]@,
                    m == lits@.len(),
                    forall|a: int| 0 <= a < j ==> (#[trigger] lits@[a]).wf(),
                    forall|a: int, b: int|
                        0 <= a < b < m && a < j ==> lits@[a].var_idx() != lits@[b].var_idx(),
            {
                if lits[j].index() > Var::max_var().index() {
                    proof {
                        assert(!self@[i as int].wf());
                    }
                    return false;
                }
                for k in (j + 1)..m
                    invariant
                        lits@ == self@[i as int]@,
                        m == lits@.len(),
                        j < m,
                        forall|b: int|
                            j < b < k ==> lits@[j as int].var_idx() != (
                            #[trigger] lits@[b]).var_idx(),
                {
                    if lits[j].index() == lits[k].index() {
                        proof {
                            assert(!self@[i as int].distinct_vars());
                        }
                        return false;
                    }
                }
            }
        }
        true
    }

    /// Attempts to evaluate the formula under the given assignment.
    ///
    /// Returns `None` if no clause is falsified but not every clause is
    /// satisfied yet.
    pub fn evaluate(&self, assignments: &Assignment) -> (r: Option<bool>)
        ensures
            r == self.eval_spec(assignments@),
    {
        let ghost m = assignments@;
        let mut decided = true;
        let n = self.clauses.len();
        for idx in 0..n
            invariant
                n == self.clauses@.len(),
                m == assignments@,
                forall|j: int| 0 <= j < idx ==> !(#[trigger] self@[j]).falsified_by(m),
                decided <==> forall|j: int| 0 <= j < idx ==> (#[trigger] self@[j]).sat_by(m),
        {
            match self.clauses[idx].evaluate(assignments) {
                Some(value) => {
                    if !value {
                        return Some(false);
                    }
                },
                None => {
                    decided = false;
                },
            }
        }
        if decided {
            Some(true)
        } else {
            proof {
                let u = choose|j: int| 0 <= j < n && !(#[trigger] self@[j]).sat_by(m);
                assert(!self.sat_by(m));
            }
            None
        }
    }
}

impl Default for Formula {
    /// An empty formula.
    fn default() -> (r: Formula)
        ensures
            r@ == Seq::<Clause>::empty(),
    {
        Formula::new()
    }
}

impl Clone for Formula {
    /// The clone holds clauses with exactly the literals of the original's
    /// clauses, in order.
    fn clone(&self) -> (r: Self)
        ensures
            r@.len() == self@.len(),
            forall|i: int| 0 <= i < self@.len() ==> (#[trigger] r@[i])@ == self@[i]@,
    {
        let mut out: Vec<Clause> = Vec::new();
        let n = self.clauses.len();
        for idx in 0..n
            invariant
                n == self.clauses@.len(),
                out@.len() == idx,
                forall|i: int| 0 <= i < idx ==> (#[trigger] out@[i])@ == self.clauses@[i]@,
        {
            out.push(self.clauses[idx].clone());
        }
        Formula { clauses: out }
    }
}

/// Evaluation soundness: if a partial assignment satisfies every clause of a
/// formula without empty clauses, then so does every extension of it.
pub proof fn lemma_evaluation_soundness(f: Formula, a: Map<u32, bool>, m: Map<u32, bool>)
    requires
        forall|i: int|
            0 <= i < f@.len() && f@[i]@.len() > 0 ==> (#[trigger] f@[i]).sat_by(a),
        forall|i: int| 0 <= i < f@.len() ==> (#[trigger] f@[i])@.len() > 0,
        map_extends(m, a),
    ensures
        f.sat_by(m),
{
    assert forall|i: int| 0 <= i < f@.len() implies (#[trigger] f@[i]).sat_by(m) by {
        let c = f@[i];
        let j = choose|j: int| 0 <= j < c@.len() && lit_true(a, #[trigger] c@[j]);
        assert(lit_true(m, c@[j]));
    }
}

} // verus!
