use pb_counter::cache::CountCache;
use pb_counter::equation::{Equation, EquationPart, EquationSide, EquationSymbol, InvalidFormula};
use pb_counter::formula::{Clause, PBFormula, PbLiteral};
use pb_counter::solver::{count, count_disconnected_components, count_equations};

fn term(factor: i32, name: u32) -> EquationPart {
    EquationPart::Literal { factor, name, pos: true }
}

fn ge(terms: Vec<EquationPart>, constant: i32) -> Equation {
    Equation {
        e1: EquationSide { literals: terms },
        e2: EquationSide { literals: vec![EquationPart::Factor(constant)] },
        symbol: EquationSymbol::ge,
    }
}

fn lit(name: u32, factor: i32, pos: bool) -> PbLiteral {
    PbLiteral { name, factor, pos }
}

#[test]
fn new_folds_negative_weights_into_polarity() {
    // x0 - 2*x1 >= 0  becomes  x0 + 2*(not x1) >= 2.
    let f = PBFormula::new(2, &vec![ge(vec![term(1, 0), term(-2, 1)], 0)]).unwrap();
    assert_eq!(f.n, 2);
    assert_eq!(f.clauses.len(), 1);
    assert_eq!(f.clauses[0].rhs, 2);
    assert_eq!(f.clauses[0].literals, vec![lit(0, 1, true), lit(1, 2, false)]);
    assert_eq!(f.clauses[0].sub_unas, 3);
    assert_eq!(f.clauses[0].max_l, Some(lit(1, 2, false)));
    let mut cache = CountCache::new(10);
    // Satisfied by (0,0), (1,0) and not by (0,1) nor (1,1).
    assert_eq!(count(&f, &mut cache), 2);
}

#[test]
fn new_rejects_non_canonical_equations() {
    let mut le = ge(vec![term(1, 0)], 1);
    le.symbol = EquationSymbol::le;
    assert_eq!(PBFormula::new(1, &vec![le]).unwrap_err(), InvalidFormula::NotCanonical);
    assert_eq!(PBFormula::new(1, &vec![ge(vec![term(0, 0)], 1)]).unwrap_err(), InvalidFormula::NotCanonical);
    assert_eq!(PBFormula::new(1, &vec![ge(vec![term(1, 1)], 1)]).unwrap_err(), InvalidFormula::NotCanonical);
    let constant_left = ge(vec![EquationPart::Factor(3)], 1);
    assert_eq!(PBFormula::new(1, &vec![constant_left]).unwrap_err(), InvalidFormula::NotCanonical);
    let mut two_constants = ge(vec![term(1, 0)], 1);
    two_constants.e2.literals.push(EquationPart::Factor(2));
    assert_eq!(PBFormula::new(1, &vec![two_constants]).unwrap_err(), InvalidFormula::NotCanonical);
}

#[test]
fn new_rejects_repeated_variable() {
    let e = ge(vec![term(1, 0), term(2, 0)], 1);
    assert_eq!(PBFormula::new(1, &vec![e]).unwrap_err(), InvalidFormula::RepeatedVariable);
}

#[test]
fn new_rejects_out_of_range_sums() {
    let e = ge(vec![term(i32::MAX, 0), term(1, 1)], 1);
    assert_eq!(PBFormula::new(2, &vec![e]).unwrap_err(), InvalidFormula::OutOfRange);
    let e = ge(vec![term(-5, 0)], i32::MAX);
    assert_eq!(PBFormula::new(1, &vec![e]).unwrap_err(), InvalidFormula::OutOfRange);
}

#[test]
fn count_equations_counts_and_reports_errors() {
    let mut cache = CountCache::new(100);
    let es = vec![ge(vec![term(1, 0), term(1, 1), term(1, 2)], 2)];
    assert_eq!(count_equations(3, &es, &mut cache), Ok(4));
    assert_eq!(count_equations(5, &es, &mut cache), Ok(16));
    assert_eq!(count_equations(128, &es, &mut cache), Err(InvalidFormula::CountTooLarge));
    assert_eq!(count_equations(2, &es, &mut cache), Err(InvalidFormula::NotCanonical));
    assert_eq!(count_equations(0, &vec![], &mut cache), Ok(1));
}

#[test]
fn propagation_forces_chain_and_keeps_count() {
    let mut f = PBFormula {
        n: 2,
        clauses: vec![Clause::new(1, vec![lit(0, 1, true)]), Clause::new(2, vec![lit(0, 1, true), lit(1, 1, true)])],
    };
    assert!(f.bcp());
    assert_eq!(f.n, 0);
    assert!(f.clauses.is_empty());
    let mut cache = CountCache::new(10);
    assert_eq!(count(&f, &mut cache), 1);
}

#[test]
fn propagation_detects_conflict() {
    // x0 >= 1 and (not x0) >= 1 cannot both hold.
    let mut f = PBFormula {
        n: 3,
        clauses: vec![Clause::new(1, vec![lit(0, 1, true)]), Clause::new(1, vec![lit(0, 1, false)])],
    };
    assert!(!f.bcp());
    assert!(f.contains_false_clause());
    let mut cache = CountCache::new(10);
    assert_eq!(count(&f, &mut cache), 0);
}

#[test]
fn propagation_leaves_unforced_formula_alone() {
    let mut f = PBFormula { n: 3, clauses: vec![Clause::new(1, vec![lit(0, 1, true), lit(1, 1, true)])] };
    assert!(f.bcp());
    assert_eq!(f.n, 3);
    assert_eq!(f.clauses.len(), 1);
    let mut cache = CountCache::new(10);
    assert_eq!(count_disconnected_components(f, &mut cache), 6);
}

#[test]
fn propagation_with_weights_forces_heavy_literal() {
    // 3*x0 + x1 >= 3 forces x0; the count is that of x1 and x2 free.
    let mut f = PBFormula { n: 3, clauses: vec![Clause::new(3, vec![lit(0, 3, true), lit(1, 1, true)])] };
    let mut cache = CountCache::new(10);
    let before = count(&f, &mut cache);
    assert!(f.bcp());
    assert_eq!(f.n, 2);
    // What is left of the clause, x1 >= 0, holds always and is dropped.
    assert!(f.clauses.is_empty());
    assert_eq!(before, 4);
    assert_eq!(count(&f, &mut cache), before);
}

#[test]
fn propagation_drops_clauses_that_always_hold() {
    // x0 >= 1 forces x0; then x0 + x1 >= 1 has threshold 0 and is dropped,
    // while x1 + x2 >= 1 stays as it is.
    let mut f = PBFormula {
        n: 3,
        clauses: vec![
            Clause::new(1, vec![lit(0, 1, true)]),
            Clause::new(1, vec![lit(0, 1, true), lit(1, 1, true)]),
            Clause::new(1, vec![lit(1, 1, true), lit(2, 1, true)]),
        ],
    };
    assert!(f.bcp());
    assert_eq!(f.n, 2);
    assert_eq!(f.clauses.len(), 1);
    assert_eq!(f.clauses[0].literals, vec![lit(1, 1, true), lit(2, 1, true)]);
    assert!(f.clauses.iter().all(|c| c.rhs > 0));
}
