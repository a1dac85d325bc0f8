use solver::euclid::{
    chinese_rest_class, combine_rest_classes, congruence, congruence_checked, extended_euclid,
    gcd, CongruenceError,
};

#[test]
fn table_of_240_and_46() {
    assert_eq!(
        extended_euclid(240, 46),
        vec![
            (240, 1, 0, 0),
            (46, 0, 1, 0),
            (10, 1, -5, 5),
            (6, -4, 21, 4),
            (4, 5, -26, 1),
            (2, -9, 47, 1),
            (0, 23, -120, 2),
        ]
    );
}

#[test]
fn table_ends_at_once_for_a_zero_divisor() {
    assert_eq!(extended_euclid(5, 0), vec![(5, 1, 0, 0), (0, 0, 1, 0)]);
    assert_eq!(extended_euclid(0, 0), vec![(0, 1, 0, 0), (0, 0, 1, 0)]);
    assert_eq!(extended_euclid(0, 5), vec![(0, 1, 0, 0), (5, 0, 1, 0), (0, 1, 0, 0)]);
}

#[test]
fn table_with_negative_numbers_rounds_towards_zero() {
    assert_eq!(
        extended_euclid(-7, 3),
        vec![(-7, 1, 0, 0), (3, 0, 1, 0), (-1, 1, 2, -2), (0, 3, 7, -3)]
    );
    assert_eq!(extended_euclid(1, -1), vec![(1, 1, 0, 0), (-1, 0, 1, 0), (0, 1, 1, -1)]);
}

#[test]
fn every_row_is_a_combination() {
    for (n, m) in [(240i64, 46i64), (-99, 78), (17, -5), (-12, -18), (1, 1), (0, 9)] {
        let rows = extended_euclid(n, m);
        for (r, s, t, _) in &rows {
            assert_eq!(*r, n * s + m * t);
        }
        assert_eq!(rows[rows.len() - 1].0, 0);
        let g = rows[rows.len() - 2].0;
        if g != 0 {
            assert_eq!(n % g, 0);
            assert_eq!(m % g, 0);
        }
    }
}

#[test]
fn gcd_keeps_the_sign_of_the_last_rest() {
    assert_eq!(gcd(12, 18), 6);
    assert_eq!(gcd(-12, 18), 6);
    assert_eq!(gcd(12, -18), -6);
    assert_eq!(gcd(7, 0), 7);
    assert_eq!(gcd(0, 0), 0);
    assert_eq!(gcd(17, 5), 1);
}

#[test]
fn congruence_with_coprime_modulus() {
    let solved = congruence(3, 2, 7).unwrap();
    assert_eq!(solved.x_p, -4);
    assert_eq!(solved.n_p, 7);
    assert_eq!(
        solved.reductions,
        vec![vec![(7, 1, 0, 0), (3, 0, 1, 0), (1, 1, -2, 2), (0, -3, 7, 3)]]
    );
    assert_eq!((3 * solved.x_p - 2) % 7, 0);
}

#[test]
fn congruence_is_reduced_by_the_common_divisor() {
    let solved = congruence(4, 2, 6).unwrap();
    assert_eq!(solved.x_p, -1);
    assert_eq!(solved.n_p, 3);
    assert_eq!(
        solved.reductions,
        vec![
            vec![(6, 1, 0, 0), (4, 0, 1, 0), (2, 1, -1, 1), (0, -2, 3, 2)],
            vec![(3, 1, 0, 0), (2, 0, 1, 0), (1, 1, -1, 1), (0, -2, 3, 2)],
        ]
    );
    assert_eq!((4 * solved.x_p - 2) % 6, 0);
}

#[test]
fn congruence_with_a_negative_divisor_is_reduced_once_more() {
    let solved = congruence(-1, 1, 1).unwrap();
    assert_eq!(solved.x_p, -1);
    assert_eq!(solved.n_p, -1);
    assert_eq!(solved.reductions.len(), 2);
}

#[test]
fn congruence_without_solution() {
    assert!(matches!(congruence(4, 3, 6), Err(CongruenceError::NoSolution)));
    assert!(matches!(congruence(6, 5, 9), Err(CongruenceError::NoSolution)));
}

#[test]
fn congruence_with_a_zero() {
    assert!(matches!(congruence(0, 3, 6), Err(CongruenceError::DivideByZero)));
    assert!(matches!(congruence(4, 0, 6), Err(CongruenceError::DivideByZero)));
    assert!(matches!(congruence(4, 3, 0), Err(CongruenceError::DivideByZero)));
}

#[test]
fn coefficients_for_coprime_moduli() {
    assert_eq!(chinese_rest_class(2, 3, 3, 5), Ok((2, -1)));
    assert_eq!(3 * 2 + 5 * -1, 1);
    assert_eq!(chinese_rest_class(0, 7, 0, 1), Ok((0, 1)));
}

#[test]
fn no_coefficients_for_moduli_with_a_common_divisor() {
    assert_eq!(chinese_rest_class(1, 4, 2, 6), Err(()));
    assert_eq!(chinese_rest_class(1, 0, 2, 0), Err(()));
}

#[test]
fn coefficients_combine_to_the_common_solution() {
    let (u_1, u_2) = chinese_rest_class(2, 3, 3, 5).unwrap();
    let (x, modulus, rest) = combine_rest_classes(u_1, u_2, 2, 3, 3, 5).unwrap();
    assert_eq!(x, 2 * 3 * 3 + -1 * 5 * 2);
    assert_eq!(modulus, 15);
    assert_eq!(rest, 8);
    assert_eq!((x - 2) % 3, 0);
    assert_eq!((x - 3) % 5, 0);
}

#[test]
fn combination_gives_nothing_for_a_zero_modulus_or_an_overflow() {
    assert_eq!(combine_rest_classes(1, 1, 1, 0, 1, 5), None);
    assert_eq!(combine_rest_classes(i64::MAX, 1, 1, 2, 1, 5), None);
    assert_eq!(combine_rest_classes(1, 1, i64::MAX, 1, i64::MAX, 1), None);
    assert_eq!(combine_rest_classes(-7, 2, 1, 1, 1, 1), Some((-5, 1, 0)));
    assert_eq!(combine_rest_classes(-3, 1, 1, 2, 1, 4), Some((-2, 8, -2)));
}

#[test]
fn checked_congruence_leaves_out_what_does_not_fit() {
    assert!(congruence_checked(i64::MIN, 1, 1).is_none());
    assert!(congruence_checked(1, i64::MIN, 1).is_none());
    assert!(congruence_checked(1, 1, i64::MIN).is_none());
    assert!(congruence_checked(3, i64::MAX, 2).is_none());
    let solved = congruence_checked(3, 2, 7).unwrap().unwrap();
    assert_eq!((solved.x_p, solved.n_p), (-4, 7));
    assert!(matches!(congruence_checked(4, 3, 6), Some(Err(CongruenceError::NoSolution))));
    assert!(matches!(congruence_checked(0, 3, 6), Some(Err(CongruenceError::DivideByZero))));
}
