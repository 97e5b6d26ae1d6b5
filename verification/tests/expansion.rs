use csf2det::expand::{csf2det, CsfError, MAX_ORBITALS};

fn lines_of(stepvec: &str, twoms: i32) -> (Vec<String>, Result<String, CsfError>) {
    csf2det(stepvec, twoms)
}

/// Parse "<sign> <fraction> |<det>|" into (signed numerator, denominator, det).
fn parse_det_line(line: &str) -> (i64, i64, String) {
    let mut parts = line.split_whitespace();
    let sign = parts.next().unwrap();
    let frac = parts.next().unwrap();
    let det = parts.next().unwrap();
    let (nom, denom) = match frac.split_once('/') {
        Some((n, d)) => (n.parse::<i64>().unwrap(), d.parse::<i64>().unwrap()),
        None => (frac.parse::<i64>().unwrap(), 1),
    };
    let s = if sign == "+" { 1 } else { -1 };
    let det = det.trim_matches('|').to_string();
    (s * nom, denom, det)
}

/// Sum of the printed fractions (which are the squared coefficients) as an
/// exact rational; the result must reduce to (1, 1) for a valid expansion.
fn squared_sum(lines: &[String]) -> (i64, i64) {
    let mut num: i64 = 0;
    let mut den: i64 = 1;
    for line in lines {
        let (n, d, _) = parse_det_line(line);
        num = num * d + n.abs() * den;
        den *= d;
        let g = euclid(num.abs().max(1), den);
        num /= g;
        den /= g;
    }
    (num, den)
}

fn euclid(a: i64, b: i64) -> i64 {
    if b == 0 {
        a
    } else {
        euclid(b, a % b)
    }
}

#[test]
fn scenario_single_doubly_occupied() {
    let (lines, res) = lines_of("2", 0);
    assert_eq!(res, Ok(String::from("done!")));
    assert_eq!(
        lines,
        vec![
            String::from("CSF: 2, Ms: 0"),
            String::from("Determinants for 2 electrons in 1 orbitals:"),
            String::from("+ 1 |2|"),
        ]
    );
}

#[test]
fn scenario_two_up_high_spin() {
    let (lines, res) = lines_of("uu", 2);
    assert_eq!(res, Ok(String::from("done!")));
    assert_eq!(
        lines,
        vec![
            String::from("CSF: uu, Ms: 1"),
            String::from("Determinants for 2 electrons in 2 orbitals:"),
            String::from("+ 1 |aa|"),
        ]
    );
}

#[test]
fn scenario_infeasible_projection() {
    let (lines, res) = lines_of("uu", 3);
    assert_eq!(res, Err(CsfError::InfeasibleMs { twoms: 3, spin: 2 }));
    assert_eq!(lines.len(), 1);
    assert_eq!(lines[0], "CSF: uu, Ms: 3/2");
    assert_eq!(
        res.unwrap_err().message(),
        "half-integer Ms 3 does not exist for spin 2"
    );
}

#[test]
fn scenario_wrong_parity_projection() {
    let (lines, res) = lines_of("uu", 1);
    assert_eq!(res, Err(CsfError::InfeasibleMs { twoms: 1, spin: 2 }));
    assert_eq!(lines.len(), 1);
}

#[test]
fn scenario_singlet_pair() {
    let (lines, res) = lines_of("ud", 0);
    assert_eq!(res, Ok(String::from("done!")));
    assert_eq!(
        lines,
        vec![
            String::from("CSF: ud, Ms: 0"),
            String::from("Determinants for 2 electrons in 2 orbitals:"),
            String::from("+ 1/2 |ab|"),
            String::from("- 1/2 |ba|"),
        ]
    );
}

#[test]
fn scenario_invalid_symbol() {
    let (lines, res) = lines_of("x", 0);
    assert_eq!(res, Err(CsfError::InvalidStep('x')));
    assert_eq!(lines.len(), 1);
    assert_eq!(res.unwrap_err().message(), "invalid step: x");
}

#[test]
fn scenario_invalid_symbol_in_middle() {
    let (lines, res) = lines_of("2uq", 0);
    assert_eq!(res, Err(CsfError::InvalidStep('q')));
    assert_eq!(lines.len(), 1);
}

#[test]
fn closed_shell_single_determinant() {
    let (lines, res) = lines_of("202", 0);
    assert_eq!(res, Ok(String::from("done!")));
    assert_eq!(
        lines,
        vec![
            String::from("CSF: 202, Ms: 0"),
            String::from("Determinants for 4 electrons in 3 orbitals:"),
            String::from("+ 1 |202|"),
        ]
    );
}

#[test]
fn closed_shell_at_largest_size() {
    let stepvec = "22222222220000000000";
    assert_eq!(stepvec.len(), MAX_ORBITALS);
    let (lines, res) = lines_of(stepvec, 0);
    assert_eq!(res, Ok(String::from("done!")));
    assert_eq!(lines.len(), 3);
    assert_eq!(
        lines[1],
        "Determinants for 20 electrons in 20 orbitals:"
    );
    assert_eq!(lines[2], format!("+ 1 |{}|", stepvec));
}

#[test]
fn singlet_with_spectators() {
    let (lines, res) = lines_of("u0d2", 0);
    assert_eq!(res, Ok(String::from("done!")));
    assert_eq!(
        lines,
        vec![
            String::from("CSF: u0d2, Ms: 0"),
            String::from("Determinants for 4 electrons in 4 orbitals:"),
            String::from("+ 1/2 |a0b2|"),
            String::from("- 1/2 |b0a2|"),
        ]
    );
}

#[test]
fn rerunning_gives_identical_output() {
    for (s, tm) in [("ud", 0), ("uudd", 0), ("uud", 1), ("2u0d", 0)] {
        let first = lines_of(s, tm);
        let second = lines_of(s, tm);
        assert_eq!(first, second);
    }
}

#[test]
fn squared_coefficients_sum_to_one() {
    for (s, tm) in [("ud", 0), ("uu", 2), ("uudd", 0), ("uud", 1), ("u0d2", 0), ("udud", 0)] {
        let (lines, res) = lines_of(s, tm);
        assert!(res.is_ok());
        let dets = &lines[2..];
        assert_eq!(squared_sum(dets), (1, 1), "norm of {} at {}", s, tm);
    }
}

#[test]
fn determinant_strings_are_well_formed() {
    let (lines, res) = lines_of("uu2dd0", 0);
    assert!(res.is_ok());
    let dets = &lines[2..];
    assert!(!dets.is_empty());
    for line in dets {
        let (_, _, det) = parse_det_line(line);
        assert_eq!(det.len(), 6);
        assert!(det.chars().all(|c| c == '0' || c == '2' || c == 'a' || c == 'b'));
        let twos = det.chars().filter(|c| *c == '2').count();
        let spins = det.chars().filter(|c| *c == 'a' || *c == 'b').count();
        assert_eq!(twos, 1);
        assert_eq!(spins, 4);
    }
}

#[test]
fn emitted_count_bounded_by_binomial() {
    // four singly occupied orbitals at projection zero: at most C(4,2) = 6 lines
    let (lines, res) = lines_of("uudd", 0);
    assert!(res.is_ok());
    let dets = &lines[2..];
    assert!(dets.len() <= 6);
    assert!(!dets.is_empty());
}
