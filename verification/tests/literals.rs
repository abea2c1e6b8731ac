use hydra::{Lit, LitError, Var, MAX_VAR_INDEX};

#[test]
fn var_from_dimacs_is_one_based() {
    let v = Var::from_dimacs(1).unwrap();
    assert_eq!(v.index(), 0);
    assert_eq!(v.to_dimacs(), 1);

    let v = Var::from_dimacs(42).unwrap();
    assert_eq!(v.index(), 41);
    assert_eq!(v.to_dimacs(), 42);
}

#[test]
fn var_from_dimacs_rejects_zero() {
    assert!(matches!(Var::from_dimacs(0), Err(LitError::InvalidDimacs)));
}

#[test]
fn var_range_is_enforced() {
    let max = MAX_VAR_INDEX as usize;
    assert_eq!(Var::from_index(max).unwrap().index(), max);
    assert!(matches!(Var::from_index(max + 1), Err(LitError::IndexTooLarge)));
    assert!(matches!(Var::from_dimacs(max + 2), Err(LitError::IndexTooLarge)));
    assert_eq!(Var::max_var().index(), max);
    assert_eq!(Var::max_count(), max + 1);
}

#[test]
fn var_positive_negative() {
    let v = Var::from_index(7).unwrap();
    let p = v.positive();
    let n = v.negative();
    assert!(p.is_positive());
    assert!(n.is_negative());
    assert_eq!(p.var(), v);
    assert_eq!(n.var(), v);
    assert_eq!(p.to_dimacs(), 8);
    assert_eq!(n.to_dimacs(), -8);
}

#[test]
fn lit_from_index_packs_code() {
    let l = Lit::from_index(3, true).unwrap();
    assert_eq!(l.index(), 3);
    assert!(l.polarity());
    let l = Lit::from_index(3, false).unwrap();
    assert_eq!(l.index(), 3);
    assert!(!l.polarity());
    assert!(matches!(
        Lit::from_index(MAX_VAR_INDEX as usize + 1, true),
        Err(LitError::IndexTooLarge)
    ));
}

#[test]
fn lit_dimacs_round_trip() {
    // DIMACS round-trip on a spread of values in range.
    for n in [1isize, -1, 2, -2, 17, -17, 1000, -1000, 0x4000_0000, -0x4000_0000] {
        let l = Lit::from_dimacs(n).unwrap();
        assert_eq!(l.to_dimacs(), n);
    }
}

#[test]
fn lit_from_dimacs_errors() {
    assert!(matches!(Lit::from_dimacs(0), Err(LitError::InvalidDimacs)));
    assert!(matches!(Lit::from_dimacs(0x4000_0001), Err(LitError::IndexTooLarge)));
    assert!(matches!(Lit::from_dimacs(-0x4000_0001), Err(LitError::IndexTooLarge)));
    assert!(matches!(Lit::from_dimacs(isize::MIN), Err(LitError::IndexTooLarge)));
}

#[test]
fn complement_is_involution() {
    // Complementation flips the polarity, keeps the variable, and is its
    // own inverse; no literal equals its complement.
    for n in [1isize, -1, 5, -5, 123456, -123456] {
        let l = Lit::from_dimacs(n).unwrap();
        let c = l.complement();
        assert_eq!(c.var(), l.var());
        assert_eq!(c.polarity(), !l.polarity());
        assert_ne!(c, l);
        assert_eq!(c.complement(), l);
        assert_eq!(c.to_dimacs(), -n);
    }
}

#[test]
fn lit_equality_is_by_code() {
    let a = Lit::from_dimacs(4).unwrap();
    let b = Lit::from_index(3, true).unwrap();
    assert_eq!(a, b);
    assert_ne!(a, Lit::from_index(3, false).unwrap());
    assert_ne!(a, Lit::from_index(4, true).unwrap());
}
