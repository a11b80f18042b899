use pb_counter::cache::CountCache;
use pb_counter::equation::{Equation, EquationPart, EquationSide, EquationSymbol, InvalidFormula};
use pb_counter::preprocess::{preprocess_equation, preprocess_file};
use pb_counter::solver::count_system;

fn term(factor: i32, name: u32) -> EquationPart {
    EquationPart::Literal { factor, name, pos: true }
}

fn eq(left: Vec<EquationPart>, symbol: EquationSymbol, right: Vec<EquationPart>) -> Equation {
    Equation { e1: EquationSide { literals: left }, e2: EquationSide { literals: right }, symbol }
}

fn parts(e: &Equation) -> (Vec<EquationPart>, Vec<EquationPart>) {
    (e.e1.literals.clone(), e.e2.literals.clone())
}

#[test]
fn moves_literals_left_and_constants_right() {
    // 2*x0 + 3 >= x1 + 1  becomes  2*x0 - x1 >= -2.
    let e = eq(vec![term(2, 0), EquationPart::Factor(3)], EquationSymbol::ge, vec![term(1, 1), EquationPart::Factor(1)]);
    let out = preprocess_equation(&e).unwrap();
    assert_eq!(out.len(), 1);
    assert_eq!(out[0].symbol, EquationSymbol::ge);
    assert_eq!(parts(&out[0]), (vec![term(2, 0), term(-1, 1)], vec![EquationPart::Factor(-2)]));
}

#[test]
fn adds_up_repeated_variables_and_drops_zero_weights() {
    // x0 + x1 + 2*x0 - x1 >= 1  becomes  3*x0 >= 1.
    let e = eq(vec![term(1, 0), term(1, 1), term(2, 0), term(-1, 1)], EquationSymbol::ge, vec![EquationPart::Factor(1)]);
    let out = preprocess_equation(&e).unwrap();
    assert_eq!(parts(&out[0]), (vec![term(3, 0)], vec![EquationPart::Factor(1)]));
}

#[test]
fn turns_at_most_into_at_least() {
    // x0 + x1 <= 1  becomes  -x0 - x1 >= -1.
    let e = eq(vec![term(1, 0), term(1, 1)], EquationSymbol::le, vec![EquationPart::Factor(1)]);
    let out = preprocess_equation(&e).unwrap();
    assert_eq!(out.len(), 1);
    assert_eq!(parts(&out[0]), (vec![term(-1, 0), term(-1, 1)], vec![EquationPart::Factor(-1)]));
}

#[test]
fn splits_equality_into_two_bounds() {
    let e = eq(vec![term(1, 0), term(1, 1)], EquationSymbol::eq, vec![EquationPart::Factor(1)]);
    let out = preprocess_equation(&e).unwrap();
    assert_eq!(out.len(), 2);
    assert_eq!(parts(&out[0]), (vec![term(-1, 0), term(-1, 1)], vec![EquationPart::Factor(-1)]));
    assert_eq!(parts(&out[1]), (vec![term(1, 0), term(1, 1)], vec![EquationPart::Factor(1)]));
}

#[test]
fn negative_polarity_literal_is_folded() {
    // 2*(not x0) >= 1  is  -2*x0 >= -1.
    let e = eq(
        vec![EquationPart::Literal { factor: 2, name: 0, pos: false }],
        EquationSymbol::ge,
        vec![EquationPart::Factor(1)],
    );
    let out = preprocess_equation(&e).unwrap();
    assert_eq!(parts(&out[0]), (vec![term(-2, 0)], vec![EquationPart::Factor(-1)]));
}

#[test]
fn rejects_weights_that_do_not_fit() {
    let e = eq(vec![term(i32::MAX, 0), term(1, 0)], EquationSymbol::ge, vec![EquationPart::Factor(1)]);
    assert_eq!(preprocess_equation(&e).unwrap_err(), InvalidFormula::OutOfRange);
    let f = preprocess_file(&vec![e]);
    assert_eq!(f.unwrap_err(), InvalidFormula::OutOfRange);
}

#[test]
fn counts_a_general_system() {
    let mut cache = CountCache::new(100);
    // x0 + x1 + x2 = 2 over three variables: three solutions.
    let exactly_two = eq(vec![term(1, 0), term(1, 1), term(1, 2)], EquationSymbol::eq, vec![EquationPart::Factor(2)]);
    assert_eq!(count_system(3, &vec![exactly_two.clone()], &mut cache), Ok(3));
    // x0 + x1 <= 1 and x2 >= x3 over four variables: 3 * 3 solutions.
    let at_most_one = eq(vec![term(1, 0), term(1, 1)], EquationSymbol::le, vec![EquationPart::Factor(1)]);
    let ordered = eq(vec![term(1, 2)], EquationSymbol::ge, vec![term(1, 3)]);
    assert_eq!(count_system(4, &vec![at_most_one, ordered], &mut cache), Ok(9));
    // x0 - x0 >= 1 can never hold.
    let never = eq(vec![term(1, 0), term(-1, 0)], EquationSymbol::ge, vec![EquationPart::Factor(1)]);
    assert_eq!(count_system(2, &vec![never], &mut cache), Ok(0));
    assert_eq!(count_system(2, &vec![exactly_two], &mut cache), Err(InvalidFormula::NotCanonical));
}
