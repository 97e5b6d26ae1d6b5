use csf2det::comb::{next_combination, Combination};
use csf2det::frac::{gcd, Fraction};
use csf2det::tableau::pauling_tableau;

#[test]
fn gcd_basics() {
    assert_eq!(gcd(12, 18), 6);
    assert_eq!(gcd(18, 12), 6);
    assert_eq!(gcd(0, 5), 5);
    assert_eq!(gcd(5, 0), 5);
    assert_eq!(gcd(1, 1), 1);
}

#[test]
fn gcd_negative_arguments() {
    assert_eq!(gcd(-3, 6), 3);
    assert_eq!(gcd(3, -6), 3);
    assert_eq!(gcd(-4, -6), 2);
    assert_eq!(gcd(-7, 0), 7);
}

#[test]
fn simplify_reduces() {
    let f = Fraction { nom: 6, denom: 8 }.simplify();
    assert_eq!(f.nom, 3);
    assert_eq!(f.denom, 4);
    let g = Fraction { nom: -6, denom: 8 }.simplify();
    assert_eq!(g.nom, -3);
    assert_eq!(g.denom, 4);
    let h = Fraction { nom: 2, denom: 2 }.simplify();
    assert_eq!(h.nom, 1);
    assert_eq!(h.denom, 1);
}

#[test]
fn simplify_zero_numerator_collapses() {
    let f = Fraction { nom: 0, denom: 7 }.simplify();
    assert_eq!(f.nom, 0);
    assert_eq!(f.denom, 0);
}

#[test]
fn fraction_display_forms() {
    assert_eq!(Fraction { nom: 1, denom: 2 }.render(), "1/2");
    assert_eq!(Fraction { nom: -1, denom: 2 }.render(), "-1/2");
    assert_eq!(Fraction { nom: 0, denom: 0 }.render(), "0");
    assert_eq!(Fraction { nom: 5, denom: 1 }.render(), "5");
}

#[test]
fn combinations_lexicographic_order() {
    let mut c = Combination { n: 4, k: 2, lex: vec![0, 1] };
    let mut seen = vec![c.lex.clone()];
    while next_combination(&mut c) {
        seen.push(c.lex.clone());
    }
    assert_eq!(
        seen,
        vec![
            vec![0, 1],
            vec![0, 2],
            vec![0, 3],
            vec![1, 2],
            vec![1, 3],
            vec![2, 3],
        ]
    );
}

#[test]
fn combinations_empty_subset_finishes_at_once() {
    let mut c = Combination { n: 3, k: 0, lex: vec![] };
    assert!(!next_combination(&mut c));
    assert!(c.lex.is_empty());
}

#[test]
fn combinations_full_subset_is_single() {
    let mut c = Combination { n: 3, k: 3, lex: vec![0, 1, 2] };
    assert!(!next_combination(&mut c));
    assert_eq!(c.lex, vec![0, 1, 2]);
}

#[test]
fn tableau_cumulative_arrays() {
    let t = pauling_tableau("ud2").unwrap();
    assert_eq!(t.a, vec![0, 1, 2]);
    assert_eq!(t.b, vec![1, 0, 0]);
    assert_eq!(t.c, vec![0, 1, 1]);
    assert_eq!(t.n_somo, 2);
}

#[test]
fn tableau_rejects_first_invalid_symbol() {
    assert!(matches!(pauling_tableau("uxd"), Err('x')));
    assert!(matches!(pauling_tableau("u d"), Err(' ')));
}

#[test]
fn electron_count_matches_symbol_counts() {
    for s in ["ud", "uu", "2u0d", "22ud0", "u2d0du"] {
        let t = pauling_tableau(s).unwrap();
        let last = s.len() - 1;
        let n_e = 2 * t.a[last] + t.b[last];
        let twos = s.chars().filter(|c| *c == '2').count() as i32;
        let somos = s.chars().filter(|c| *c == 'u' || *c == 'd').count() as i32;
        assert_eq!(n_e, 2 * twos + somos);
    }
}
