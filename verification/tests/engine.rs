use rchem::basis::basis_layout;
use rchem::basis::fact2;
use rchem::basis::validate_shells;
use rchem::basis::BasisError;
use rchem::basis::ShellSpec;
use rchem::os86::expand;
use rchem::os86::expand_coulomb;
use rchem::os86::find_component_to_lower;
use rchem::os86::find_fun_to_lower;
use rchem::os86::IntegralError;
use rchem::os86::X2kind;
use rchem::pyquante::fact_ratio2;
use rchem::shell::get_ijk_list;
use rchem::simint::ostei_workmem;
use rchem::simint::ostei_worksize;
use rchem::simint::simd_round;
use rchem::simint::SimintScreenMethod;
use rchem::simint::SIMINT_SCREEN_FASTSCHWARZ;
use rchem::simint::SIMINT_SCREEN_NONE;
use rchem::simint::SIMINT_SCREEN_SCHWARZ;

#[test]
fn test_find_fun_to_lower() {
    assert_eq!(find_fun_to_lower(&[1, 0, 0, 0, 0, 0].to_vec(), 2), Ok(0));
    assert_eq!(find_fun_to_lower(&[0, 1, 0, 0, 0, 0].to_vec(), 2), Ok(0));
    assert_eq!(find_fun_to_lower(&[0, 0, 1, 0, 0, 0].to_vec(), 2), Ok(0));
    assert_eq!(find_fun_to_lower(&[0, 0, 0, 1, 0, 0].to_vec(), 2), Ok(1));
    assert_eq!(find_fun_to_lower(&[0, 0, 0, 0, 1, 0].to_vec(), 2), Ok(1));
    assert_eq!(find_fun_to_lower(&[0, 0, 0, 0, 0, 1].to_vec(), 2), Ok(1));
    assert_eq!(
        find_fun_to_lower(&[0, 0, 0, 0, 1, 0, 0, 0, 0, 0, 0, 0].to_vec(), 4),
        Ok(1)
    );
    assert_eq!(
        find_fun_to_lower(&[0, 0, 0, 0, 0, 0, 0, 0, 0, 0, 0, 1].to_vec(), 4),
        Ok(3)
    );
    assert_eq!(
        find_fun_to_lower(&[1, 0, 0, 0, 0, 0, 0, 0, 1].to_vec(), 3),
        Ok(0)
    );
    assert_eq!(
        find_fun_to_lower(&[0, 0, 0, 0, 0, 0, 0, 0, 1].to_vec(), 3),
        Ok(2)
    );
    assert_eq!(
        find_fun_to_lower(&[0, 0, 0, 0, 1, 0, 0, 0, 1].to_vec(), 3),
        Ok(1)
    );
    assert_eq!(
        find_fun_to_lower(&[0, 0, 0, 0, 2, 0, 0, 0, 1].to_vec(), 3),
        Ok(2)
    );
}

#[test]
fn test_find_component_to_lower() {
    assert_eq!(find_component_to_lower(&[0, 0, 1]), Ok(2));
    assert_eq!(find_component_to_lower(&[0, 1, 1]), Ok(1));
    assert_eq!(find_component_to_lower(&[1, 0, 1]), Ok(0));
    assert_eq!(find_component_to_lower(&[0, 0, 0]), Err(false));
}

#[test]
fn test_simd_round() {
    assert_eq!(simd_round(3, 4), 4);
    assert_eq!(simd_round(4, 4), 4);
    assert_eq!(simd_round(5, 4), 8);
    assert_eq!(simd_round(6, 4), 8);
    assert_eq!(simd_round(7, 4), 8);
    assert_eq!(simd_round(8, 4), 8);
    assert_eq!(simd_round(9, 4), 12);
}

#[test]
fn ostei_work_is_unsized() {
    assert_eq!(ostei_worksize(0, 2), 0);
    assert_eq!(ostei_workmem(0, 2), 0);
}

#[test]
fn screen_method_round_trip() {
    for code in [
        SIMINT_SCREEN_NONE,
        SIMINT_SCREEN_SCHWARZ,
        SIMINT_SCREEN_FASTSCHWARZ,
    ] {
        assert_eq!(SimintScreenMethod::to(SimintScreenMethod::from(code)), code);
    }
}

#[test]
fn fact2_small_values() {
    assert_eq!(fact2(-3), 1);
    assert_eq!(fact2(0), 1);
    assert_eq!(fact2(1), 1);
    assert_eq!(fact2(2), 2);
    assert_eq!(fact2(5), 15);
    assert_eq!(fact2(6), 48);
    assert_eq!(fact2(7), 105);
}

#[test]
fn fact_ratio2_values() {
    // 4! / 1! / 2!
    assert_eq!(fact_ratio2(4, 1), 12);
    // 3! / 1! / 1!
    assert_eq!(fact_ratio2(3, 1), 6);
    // 6! / 2! / 2!
    assert_eq!(fact_ratio2(6, 2), 180);
    assert_eq!(fact_ratio2(0, 0), 1);
}

#[test]
fn ijk_list_order() {
    assert_eq!(get_ijk_list(0), vec![[0, 0, 0]]);
    assert_eq!(get_ijk_list(1), vec![[1, 0, 0], [0, 1, 0], [0, 0, 1]]);
    assert_eq!(
        get_ijk_list(2),
        vec![
            [2, 0, 0],
            [1, 1, 0],
            [1, 0, 1],
            [0, 2, 0],
            [0, 1, 1],
            [0, 0, 2]
        ]
    );
    assert_eq!(get_ijk_list(3).len(), 10);
}

// An s-type input is already a base case: the expansion is the term itself.
#[test]
fn expand_s_base_case() {
    let terms = expand(X2kind::S, vec![0, 0, 0, 0, 0, 0], vec![0, 0, 0]).unwrap();
    assert_eq!(terms.len(), 1);
    assert_eq!(terms[0].scale, 1);
    assert_eq!(terms[0].prefactors.len(), 0);
    assert_eq!(terms[0].order, 0);
}

// One quantum of momentum lowers in a single step to a single term carrying
// the bra displacement slot.
#[test]
fn expand_p_overlap() {
    let terms = expand(X2kind::S, vec![1, 0, 0, 0, 0, 0], vec![0, 0, 0]).unwrap();
    assert_eq!(terms.len(), 1);
    assert_eq!(terms[0].scale, 1);
    assert_eq!(terms[0].prefactors, vec![0]);
    assert!(terms[0].q.iter().all(|&v| v == 0));
}

// Termination and base-case shape on a mixed high-momentum input: every term
// is terminal, orders stay within the total momentum, and prefactor slots
// stay inside the kind's table.
#[test]
fn expand_terminates_on_terminal_terms() {
    let q = vec![2, 1, 0, 1, 2, 0];
    let total: u8 = 6;
    let terms = expand(X2kind::V, q, vec![0, 0, 0]).unwrap();
    assert!(!terms.is_empty());
    for t in &terms {
        assert!(t.q.iter().all(|&v| v == 0));
        assert!(t.operator.iter().all(|&v| v == 0));
        assert!(t.order <= total);
        assert!(t.prefactors.iter().all(|&p| p < 11));
        assert!(t.scale >= 1);
        assert!(matches!(t.kind, X2kind::V));
    }
}

// The kinetic descent demotes some children to overlap terms; nothing else
// ever appears.
#[test]
fn expand_kinetic_kinds() {
    let terms = expand(X2kind::T, vec![1, 0, 0, 2, 0, 0], vec![0, 0, 0]).unwrap();
    assert!(!terms.is_empty());
    assert!(terms.iter().any(|t| matches!(t.kind, X2kind::S)));
    assert!(terms
        .iter()
        .all(|t| matches!(t.kind, X2kind::T) || matches!(t.kind, X2kind::S)));
}

#[test]
fn expand_coulomb_terminates_on_terminal_terms() {
    let q = vec![2, 1, 0, 1, 0, 0, 1, 0, 0, 0, 1, 0];
    let total: u8 = 6;
    let terms = expand_coulomb(q).unwrap();
    assert!(!terms.is_empty());
    for t in &terms {
        assert!(t.q.iter().all(|&v| v == 0));
        assert!(t.order <= total);
        assert!(t.prefactors.iter().all(|&p| p < 23));
        assert!(t.scale >= 1);
    }
}

#[test]
fn expand_rejects_negative_exponent() {
    let r = expand(X2kind::S, vec![1, -1, 0, 0, 0, 0], vec![0, 0, 0]);
    assert!(matches!(r, Err(IntegralError::NegativeExponent)));
    let r4 = expand_coulomb(vec![0, 0, 0, 0, -2, 0, 0, 0, 0, 0, 0, 0]);
    assert!(matches!(r4, Err(IntegralError::NegativeExponent)));
}

// The moment kind lowers operator moments only after both centers are
// exhausted; a pure-operator input still expands to base cases.
#[test]
fn expand_moment_operator_descent() {
    let terms = expand(X2kind::M, vec![0, 0, 0, 0, 0, 0], vec![0, 0, 1]).unwrap();
    assert_eq!(terms.len(), 1);
    assert_eq!(terms[0].prefactors, vec![8]);
}

fn shell(momenta: Vec<usize>, n_exp: usize, counts: Vec<usize>) -> ShellSpec {
    ShellSpec {
        angular_momenta: momenta,
        n_exponents: n_exp,
        coefficient_counts: counts,
    }
}

#[test]
fn validate_shells_accepts_good_data() {
    let shells = vec![shell(vec![0], 3, vec![3]), shell(vec![0, 1], 2, vec![2, 2])];
    assert_eq!(validate_shells(&shells), Ok(()));
}

#[test]
fn validate_shells_rejects_each_defect() {
    let empty = vec![shell(vec![0], 0, vec![0])];
    assert_eq!(validate_shells(&empty), Err(BasisError::EmptyShell));
    let missing = vec![shell(vec![2], 3, vec![3, 3])];
    assert_eq!(validate_shells(&missing), Err(BasisError::MissingCoefficients));
    let mismatched = vec![shell(vec![1], 3, vec![3, 2])];
    assert_eq!(
        validate_shells(&mismatched),
        Err(BasisError::MismatchedCoefficients)
    );
}

#[test]
fn basis_layout_is_index_stable() {
    let shells = vec![shell(vec![0], 3, vec![3]), shell(vec![0, 1], 2, vec![2, 2])];
    let lay = basis_layout(&shells).unwrap();
    assert_eq!(lay.len(), 5);
    assert_eq!((lay[0].shell, lay[0].am, lay[0].powers), (0, 0, [0, 0, 0]));
    assert_eq!((lay[1].shell, lay[1].am, lay[1].powers), (1, 0, [0, 0, 0]));
    assert_eq!((lay[2].shell, lay[2].am, lay[2].powers), (1, 1, [1, 0, 0]));
    assert_eq!((lay[3].shell, lay[3].am, lay[3].powers), (1, 1, [0, 1, 0]));
    assert_eq!((lay[4].shell, lay[4].am, lay[4].powers), (1, 1, [0, 0, 1]));
    let bad = vec![shell(vec![1], 0, vec![0, 0])];
    assert!(matches!(basis_layout(&bad), Err(BasisError::EmptyShell)));
}
