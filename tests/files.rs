use bimap::BiMap;
use pb_counter::cache::CountCache;
use pb_counter::equation::{Equation, EquationPart, EquationSide, EquationSymbol, InvalidFormula};
use pb_counter::file::{new, File};
use pb_counter::solver::count_disconnected_components;

fn term(factor: i32, name: u32) -> EquationPart {
    EquationPart::Literal { factor, name, pos: true }
}

fn file(names: &[&str], equations: Vec<Equation>) -> File {
    let mut name_map = BiMap::new();
    for (i, n) in names.iter().enumerate() {
        name_map.insert(n.to_string(), i as u32);
    }
    File { name_map, equations, name_index: names.len() as u32 }
}

fn sample() -> File {
    file(
        &["a", "b", "c"],
        vec![
            Equation {
                e1: EquationSide { literals: vec![term(1, 0), term(-2, 2)] },
                e2: EquationSide { literals: vec![EquationPart::Factor(-1)] },
                symbol: EquationSymbol::ge,
            },
            Equation {
                e1: EquationSide { literals: vec![term(3, 1)] },
                e2: EquationSide { literals: vec![EquationPart::Factor(2)] },
                symbol: EquationSymbol::le,
            },
        ],
    )
}

#[test]
fn file_variables_come_from_the_name_map() {
    let f = file(
        &["x", "y", "z", "w"],
        vec![Equation {
            e1: EquationSide { literals: vec![term(1, 0), term(1, 1)] },
            e2: EquationSide { literals: vec![EquationPart::Factor(1)] },
            symbol: EquationSymbol::ge,
        }],
    );
    let formula = new(&f).unwrap();
    assert_eq!(formula.n, 4);
    let mut cache = CountCache::new(10);
    assert_eq!(count_disconnected_components(formula, &mut cache), 12);
}

#[test]
fn file_with_non_canonical_equation_is_refused() {
    assert_eq!(new(&sample()).unwrap_err(), InvalidFormula::NotCanonical);
}

#[test]
fn dimacs_text() {
    let f = sample();
    assert_eq!(f.equations[0].to_dimacs_string(), "1 -3 0");
    assert_eq!(term(-7, 41).to_dimacs_string(), "-42");
    assert_eq!(EquationPart::Factor(5).to_dimacs_string(), "");
    assert_eq!(f.to_dimacs_string(), "p cnf 3 2\n1 -3 0\n2 0\n");
}

#[test]
fn pbcount_text() {
    let f = sample();
    assert_eq!(f.equations[0].to_pbcount_string(), "+1 x1 -2 x3 >= -1");
    assert_eq!(EquationPart::Factor(0).to_pbcount_string(), "0");
    assert_eq!(EquationPart::Factor(12).to_pbcount_string(), "+12");
    assert_eq!(EquationSymbol::eq.to_string(), "=");
    assert_eq!(f.to_pbcount_string(), "* #variable= 3 #constraint= 2\n+1 x1 -2 x3 >= -1;\n+3 x2 <= +2;\n");
}

#[test]
fn named_text() {
    let f = sample();
    assert_eq!(f.to_string(), Some("+1*a -2*c >= -1\n+3*b <= +2\n".to_string()));
    let unnamed = file(
        &["a"],
        vec![Equation {
            e1: EquationSide { literals: vec![term(1, 0), term(1, 5)] },
            e2: EquationSide { literals: vec![EquationPart::Factor(1)] },
            symbol: EquationSymbol::ge,
        }],
    );
    assert_eq!(unnamed.to_string(), None);
}
