//! Variables and literals.
//!
//! A literal is a variable or its complement. Literals are stored as a packed
//! code `index * 2 + polarity`, so complementing a literal flips only the low
//! bit and the code doubles as a dense index.

use vstd::prelude::*;

use crate::errors::LitError;

verus! {

/// The largest supported variable index.
///
/// Chosen so that a literal's packed code (`index * 2 + polarity`) keeps two
/// bits of headroom inside a `u32`.
pub const MAX_VAR_INDEX: u32 = 0x3FFF_FFFF;

/// A boolean variable.
///
/// Internally, variables are represented with a 0-based index, but are
/// displayed as a 1-based index to provide parity with the DIMACS convention.
#[derive(Copy, Clone, PartialEq, Eq, Structural, PartialOrd, Ord, Hash, Debug)]
pub struct Var {
    index: u32,
}

impl View for Var {
    type V = u32;

    /// The 0-based index of the variable.
    closed spec fn view(&self) -> u32 {
        self.index
    }
}

impl Var {
    /// Whether the index lies within the supported range.
    pub open spec fn wf(self) -> bool {
        self@ <= MAX_VAR_INDEX
    }

    /// Creates a variable from a 1-indexed number, as used by DIMACS CNF.
    pub fn from_dimacs(number: usize) -> (r: Result<Var, LitError>)
        ensures
            number == 0 ==> r == Err::<Var, LitError>(LitError::InvalidDimacs),
            number > MAX_VAR_INDEX + 1 ==> r == Err::<Var, LitError>(LitError::IndexTooLarge),
            1 <= number <= MAX_VAR_INDEX + 1 ==> (r matches Ok(v) && v@ == number - 1 && v.wf()),
    {
        if number == 0 {
            return Err(LitError::InvalidDimacs);
        }
        Var::from_index(number - 1)
    }

    /// Creates a variable from a 0-based index.
    pub fn from_index(index: usize) -> (r: Result<Var, LitError>)
        ensures
            index > MAX_VAR_INDEX ==> r == Err::<Var, LitError>(LitError::IndexTooLarge),
            index <= MAX_VAR_INDEX ==> (r matches Ok(v) && v@ == index && v.wf()),
    {
        if index > Var::max_var().index() {
            return Err(LitError::IndexTooLarge);
        }
        Ok(Var { index: index as u32 })
    }

    /// The 1-based DIMACS encoding of this variable.
    pub fn to_dimacs(&self) -> (r: isize)
        requires
            self.wf(),
        ensures
            r == self@ + 1,
    {
        (self.index as isize) + 1
    }

    /// The 0-based index representing this variable.
    pub fn index(&self) -> (r: usize)
        ensures
            r == self@,
    {
        self.index as usize
    }

    /// The variable with the largest supported index.
    ///
    /// This bound allows `Lit` to store polarity information within the index.
    pub fn max_var() -> (r: Var)
        ensures
            r@ == MAX_VAR_INDEX,
            r.wf(),
    {
        Var { index: MAX_VAR_INDEX }
    }

    /// The number of different variables that can be represented.
    ///
    /// Equal to `Var::max_var().index() + 1`.
    pub fn max_count() -> (r: usize)
        ensures
            r == MAX_VAR_INDEX + 1,
    {
        (MAX_VAR_INDEX as usize) + 1
    }

    /// Creates a positive literal from this variable.
    pub fn positive(&self) -> (r: Lit)
        requires
            self.wf(),
        ensures
            r == lit_of(self@, true),
            r.wf(),
            r.var_idx() == self@,
            r.pol() == true,
    {
        Lit::from_var(self, true)
    }

    /// Creates a negative literal from this variable.
    pub fn negative(&self) -> (r: Lit)
        requires
            self.wf(),
        ensures
            r == lit_of(self@, false),
            r.wf(),
            r.var_idx() == self@,
            r.pol() == false,
    {
        Lit::from_var(self, false)
    }
}

/// Two variables are equal exactly when their indices are equal.
pub proof fn lemma_var_eq(a: Var, b: Var)
    ensures
        (a == b) <==> (a@ == b@),
{
}

/// A boolean literal: a variable paired with a polarity.
#[derive(Copy, Clone, PartialEq, Eq, Structural, PartialOrd, Ord, Debug)]
pub struct Lit {
    /// The packed code: `index * 2 + polarity`.
    code: u32,
}

impl View for Lit {
    type V = u32;

    /// The packed code of the literal.
    closed spec fn view(&self) -> u32 {
        self.code
    }
}

/// The literal with the given variable index and polarity.
pub closed spec fn lit_of(v: u32, polarity: bool) -> Lit {
    Lit { code: (2 * v + if polarity { 1int } else { 0int }) as u32 }
}

/// Characterizes `lit_of` whenever the packed code does not wrap; every
/// representable variable index satisfies the bound.
pub proof fn lemma_lit_of_parts(v: u32, polarity: bool)
    requires
        v <= 0x7FFF_FFFF,
    ensures
        lit_of(v, polarity).var_idx() == v,
        lit_of(v, polarity).pol() == polarity,
        lit_of(v, polarity)@ == 2 * v + if polarity { 1int } else { 0int },
{
}

impl Lit {
    /// The 0-based index of the underlying variable.
    pub open spec fn var_idx(self) -> u32 {
        self@ / 2
    }

    /// The polarity: `true` for a positive literal, `false` for a negative one.
    pub open spec fn pol(self) -> bool {
        self@ % 2 == 1
    }

    /// Whether the underlying variable index is within the supported range.
    pub open spec fn wf(self) -> bool {
        self@ <= 2 * MAX_VAR_INDEX + 1
    }

    /// The signed 1-based DIMACS encoding of this literal.
    pub open spec fn to_dimacs_spec(self) -> int {
        if self.pol() {
            self.var_idx() + 1
        } else {
            -(self.var_idx() + 1)
        }
    }

    /// The literal with the same variable and the opposite polarity.
    pub open spec fn complement_spec(self) -> Lit {
        lit_of(self.var_idx(), !self.pol())
    }

    /// Creates a literal from a variable index and polarity.
    pub fn from_index(index: usize, polarity: bool) -> (r: Result<Lit, LitError>)
        ensures
            index > MAX_VAR_INDEX ==> r == Err::<Lit, LitError>(LitError::IndexTooLarge),
            index <= MAX_VAR_INDEX ==> (r matches Ok(l) && l == lit_of(index as u32, polarity)
                && l.wf() && l.var_idx() == index && l.pol() == polarity),
    {
        if index > Var::max_var().index() {
            return Err(LitError::IndexTooLarge);
        }
        let code: u32 = (index as u32) * 2 + if polarity { 1 } else { 0 };
        Ok(Lit { code })
    }

    /// Creates a literal with the given polarity from the provided variable.
    pub fn from_var(var: &Var, polarity: bool) -> (r: Lit)
        requires
            var.wf(),
        ensures
            r == lit_of(var@, polarity),
            r.wf(),
            r.var_idx() == var@,
            r.pol() == polarity,
    {
        match Lit::from_index(var.index(), polarity) {
            Ok(l) => l,
            Err(_) => vstd::pervasive::unreached(),
        }
    }

    /// Creates a literal from a signed DIMACS number: the magnitude is the
    /// 1-based variable number and the sign is the polarity.
    pub fn from_dimacs(number: isize) -> (r: Result<Lit, LitError>)
        ensures
            number == 0 ==> r == Err::<Lit, LitError>(LitError::InvalidDimacs),
            number != 0 && -(MAX_VAR_INDEX + 1) <= number <= MAX_VAR_INDEX + 1 ==> (r matches Ok(l)
                && l.wf() && l.to_dimacs_spec() == number && l.pol() == (number > 0) && (number > 0
                ==> l.var_idx() == number - 1) && (number < 0 ==> l.var_idx() == -number - 1)),
            number > MAX_VAR_INDEX + 1 || number < -(MAX_VAR_INDEX + 1) ==> r == Err::<
                Lit,
                LitError,
            >(LitError::IndexTooLarge),
    {
        if number == 0 {
            Err(LitError::InvalidDimacs)
        } else if number > 0 {
            Lit::from_index((number as usize) - 1, true)
        } else if number >= -0x4000_0000isize {
            Lit::from_index(((-number) as usize) - 1, false)
        } else {
            Err(LitError::IndexTooLarge)
        }
    }

    /// The signed DIMACS encoding of this literal: 1-based, positive for
    /// positive literals and negative for negative literals.
    pub fn to_dimacs(&self) -> (r: isize)
        requires
            self.wf(),
        ensures
            r == self.to_dimacs_spec(),
    {
        let d = self.var().to_dimacs();
        if self.is_positive() {
            d
        } else {
            -d
        }
    }

    /// The 0-based index of the underlying variable.
    pub fn index(&self) -> (r: usize)
        ensures
            r == self.var_idx(),
    {
        (self.code / 2) as usize
    }

    /// The underlying variable of this literal.
    pub fn var(&self) -> (r: Var)
        ensures
            r@ == self.var_idx(),
            self.wf() ==> r.wf(),
    {
        Var { index: self.code / 2 }
    }

    /// The polarity (positive or negative) of this literal.
    pub fn polarity(&self) -> (r: bool)
        ensures
            r == self.pol(),
    {
        self.code % 2 == 1
    }

    /// Whether this literal is positive.
    pub fn is_positive(&self) -> (r: bool)
        ensures
            r == self.pol(),
    {
        self.polarity()
    }

    /// Whether this literal is negative.
    pub fn is_negative(&self) -> (r: bool)
        ensures
            r == !self.pol(),
    {
        !self.polarity()
    }

    /// The complement of this literal: same variable, opposite polarity.
    pub fn complement(&self) -> (r: Lit)
        requires
            self.wf(),
        ensures
            r == self.complement_spec(),
            r.wf(),
            r.var_idx() == self.var_idx(),
            r.pol() == !self.pol(),
    {
        match Lit::from_index(self.index(), !self.polarity()) {
            Ok(l) => l,
            Err(_) => vstd::pervasive::unreached(),
        }
    }
}

/// Two literals are equal exactly when their packed codes are equal; a
/// literal is pinned down by its variable index and polarity.
pub proof fn lemma_lit_eq(a: Lit, b: Lit)
    ensures
        (a == b) <==> (a@ == b@),
        a.var_idx() == b.var_idx() && a.pol() == b.pol() ==> a == b,
{
}

/// Complementation is an involution that preserves the variable and flips the
/// polarity, and no literal equals its own complement.
pub proof fn lemma_complement_involution(l: Lit)
    ensures
        l.complement_spec().complement_spec() == l,
        l.complement_spec().var_idx() == l.var_idx(),
        l.complement_spec().pol() == !l.pol(),
        l.complement_spec() != l,
{
}

} // verus!
