use vstd::prelude::*;
use crate::formula::{
    Clause, ClauseView, FormulaView, PBFormula, PbLiteral, all_hold, clause_fits, clause_holds, clause_vars, factor_sum,
    sat_sum,
};
use crate::preprocess::{all_equations_hold, equation_holds, part_value, side_value};
use crate::decompose::{clauses_view, count_vars};

verus! {

/// The comparison of an equation.
#[allow(non_camel_case_types)]
#[derive(Clone, Copy, Debug, PartialEq, Eq, Structural)]
pub enum EquationSymbol {
    eq,
    ge,
    le,
}

/// A term of one side of an equation: a weighted variable or a constant.
#[derive(Clone, Copy, Debug, PartialEq, Eq, Structural)]
pub enum EquationPart {
    Literal { factor: i32, name: u32, pos: bool },
    Factor(i32),
}

/// One side of an equation: a sum of terms.
#[derive(Clone, Debug)]
pub struct EquationSide {
    pub literals: Vec<EquationPart>,
}

/// `e1 symbol e2`.
#[derive(Clone, Debug)]
pub struct Equation {
    pub e1: EquationSide,
    pub e2: EquationSide,
    pub symbol: EquationSymbol,
}

/// The reason a system of equations cannot be counted.
#[derive(Clone, Copy, Debug, PartialEq, Eq, Structural)]
pub enum InvalidFormula {
    /// An equation is not of the form `sum of weighted literals >= constant`,
    /// a weight is zero, or a variable index is not below the variable count.
    NotCanonical,
    /// A variable occurs twice in one equation.
    RepeatedVariable,
    /// A threshold or a sum of weights does not fit in 32 bits.
    OutOfRange,
    /// The equations mention more variables than there are.
    TooManyVariables,
    /// More variables than a count of 128 bits can hold the assignments of.
    CountTooLarge,
}

/// A term that may stand on the left of a canonical equation.
pub open spec fn part_ok(p: EquationPart, n: nat) -> bool {
    match p {
        EquationPart::Literal { factor, name, pos } => factor != 0 && factor != i32::MIN && name < n,
        EquationPart::Factor(_) => false,
    }
}

/// A weighted literal with its sign folded into its polarity.
pub open spec fn normal_literal(p: EquationPart) -> PbLiteral {
    match p {
        EquationPart::Literal { factor, name, pos } => if factor > 0 {
            PbLiteral { name, factor, pos }
        } else {
            PbLiteral { name, factor: (-factor) as i32, pos: !pos }
        },
        EquationPart::Factor(_) => PbLiteral { name: 0, factor: 0, pos: true },
    }
}

pub open spec fn normal_literals(ps: Seq<EquationPart>) -> Seq<PbLiteral> {
    ps.map_values(|p: EquationPart| normal_literal(p))
}

/// Sum of the negative weights: what folding their signs adds to the threshold.
pub open spec fn negative_sum(ps: Seq<EquationPart>) -> int
    decreases ps.len(),
{
    if ps.len() == 0 {
        0
    } else {
        negative_sum(ps.drop_last()) + match ps.last() {
            EquationPart::Literal { factor, .. } => if factor < 0 {
                factor as int
            } else {
                0
            },
            EquationPart::Factor(_) => 0,
        }
    }
}

pub open spec fn constant_of(e: Equation) -> int {
    match e.e2.literals@[0] {
        EquationPart::Factor(f) => f as int,
        EquationPart::Literal { .. } => 0,
    }
}

/// The clause an equation stands for.
pub open spec fn equation_clause(e: Equation) -> ClauseView {
    ClauseView { rhs: constant_of(e) - negative_sum(e.e1.literals@), lits: normal_literals(e.e1.literals@) }
}

pub open spec fn distinct_names(ls: Seq<PbLiteral>) -> bool {
    forall|i: int, j: int| 0 <= i < j < ls.len() ==> ls[i].name != ls[j].name
}

/// `sum of weighted literals >= constant` over distinct variables below `n`,
/// within the bounds of a clause.
pub open spec fn equation_ok(e: Equation, n: nat) -> bool {
    &&& e.symbol == EquationSymbol::ge
    &&& e.e2.literals@.len() == 1
    &&& e.e2.literals@[0] is Factor
    &&& forall|i: int| 0 <= i < e.e1.literals@.len() ==> part_ok(#[trigger] e.e1.literals@[i], n)
    &&& distinct_names(normal_literals(e.e1.literals@))
    &&& i32::MIN <= equation_clause(e).rhs <= i32::MAX
    &&& clause_fits(equation_clause(e).rhs, equation_clause(e).lits)
}

pub open spec fn equations_clauses(es: Seq<Equation>) -> Seq<ClauseView> {
    es.map_values(|e: Equation| equation_clause(e))
}

/// Every equation canonical, and no more variables mentioned than there are.
pub open spec fn system_ok(es: Seq<Equation>, n: nat) -> bool {
    &&& forall|i: int| 0 <= i < es.len() ==> equation_ok(#[trigger] es[i], n)
    &&& clause_vars(equations_clauses(es)).len() <= n
}

fn has_name_before(ls: &Vec<PbLiteral>, x: u32) -> (r: bool)
    ensures
        r == exists|k: int| 0 <= k < ls.len() && ls@[k].name == x,
{
    let mut i: usize = 0;
    while i < ls.len()
        invariant
            0 <= i <= ls.len(),
            forall|k: int| 0 <= k < i ==> ls@[k].name != x,
        decreases ls.len() - i,
    {
        if ls[i].name == x {
            return true;
        }
        i = i + 1;
    }
    false
}

/// The clause of a canonical equation.
fn equation_to_clause(e: &Equation, n: u32) -> (r: Result<Clause, InvalidFormula>)
    ensures
        match r {
            Ok(c) => equation_ok(*e, n as nat) && c.wf() && c@ == equation_clause(*e),
            Err(err) => !equation_ok(*e, n as nat) && err != InvalidFormula::CountTooLarge,
        },
{
    let ghost ps = e.e1.literals@;
    if e.symbol != EquationSymbol::ge || e.e2.literals.len() != 1 {
        return Err(InvalidFormula::NotCanonical);
    }
    let constant: i64 = match e.e2.literals[0] {
        EquationPart::Factor(f) => f as i64,
        EquationPart::Literal { .. } => {
            return Err(InvalidFormula::NotCanonical);
        },
    };
    let mut lits: Vec<PbLiteral> = Vec::new();
    let mut neg: i64 = 0;
    let mut sum: i64 = 0;
    let mut i: usize = 0;
    while i < e.e1.literals.len()
        invariant
            ps == e.e1.literals@,
            constant == constant_of(*e),
            0 <= i <= ps.len(),
            forall|k: int| 0 <= k < i ==> part_ok(#[trigger] ps[k], n as nat),
            lits@ == normal_literals(ps.take(i as int)),
            distinct_names(lits@),
            neg == negative_sum(ps.take(i as int)),
            sum == factor_sum(lits@),
            -sum <= neg <= 0,
            0 <= sum <= i32::MAX,
            forall|k: int| 0 <= k < lits@.len() ==> #[trigger] lits@[k].factor > 0,
        decreases ps.len() - i,
    {
        proof {
            assert(ps.take(i as int + 1).drop_last() =~= ps.take(i as int));
        }
        match e.e1.literals[i] {
            EquationPart::Literal { factor, name, pos } => {
                if factor == 0 || factor == i32::MIN || name >= n {
                    return Err(InvalidFormula::NotCanonical);
                }
                let l = if factor > 0 {
                    PbLiteral { name, factor, pos }
                } else {
                    PbLiteral { name, factor: -factor, pos: !pos }
                };
                if has_name_before(&lits, name) {
                    proof {
                        let k = choose|k: int| 0 <= k < lits.len() && lits@[k].name == name;
                        let q = normal_literals(ps);
                        assert(q[k] == lits@[k]);
                        assert(q[i as int] == l);
                    }
                    return Err(InvalidFormula::RepeatedVariable);
                }
                if factor < 0 {
                    neg = neg + factor as i64;
                }
                let ghost old_lits = lits@;
                lits.push(l);
                sum = sum + l.factor as i64;
                proof {
                    assert(lits@ =~= normal_literals(ps.take(i as int + 1)));
                    assert(lits@.drop_last() =~= old_lits);
                }
                if sum > i32::MAX as i64 {
                    proof {
                        if equation_ok(*e, n as nat) {
                            let q = normal_literals(ps);
                            assert(q.take(i as int + 1) =~= lits@);
                            crate::formula::lemma_factor_sum_prefix(q, i as int + 1);
                        }
                    }
                    return Err(InvalidFormula::OutOfRange);
                }
            },
            EquationPart::Factor(_) => {
                return Err(InvalidFormula::NotCanonical);
            },
        }
        i = i + 1;
    }
    proof {
        assert(ps.take(i as int) =~= ps);
    }
    let rhs: i64 = constant - neg;
    if rhs > i32::MAX as i64 || sum > i32::MAX as i64 || rhs - sum < i32::MIN as i64 {
        return Err(InvalidFormula::OutOfRange);
    }
    Ok(Clause::new(rhs as i32, lits))
}

impl PBFormula {
    /// The formula of a system of canonical equations over `n` variables.
    pub fn new(n: u32, equations: &Vec<Equation>) -> (r: Result<PBFormula, InvalidFormula>)
        ensures
            match r {
                Ok(f) => system_ok(equations@, n as nat) && f.wf() && f@ == (FormulaView {
                    n: n as nat,
                    clauses: equations_clauses(equations@),
                }),
                Err(err) => !system_ok(equations@, n as nat) && err != InvalidFormula::CountTooLarge,
            },
    {
        let mut clauses: Vec<Clause> = Vec::new();
        let mut i: usize = 0;
        while i < equations.len()
            invariant
                0 <= i <= equations.len(),
                clauses.len() == i,
                forall|k: int| 0 <= k < i ==> equation_ok(#[trigger] equations@[k], n as nat),
                forall|k: int| 0 <= k < i ==> (#[trigger] clauses[k]).wf() && clauses[k]@ == equation_clause(equations@[k]),
            decreases equations.len() - i,
        {
            match equation_to_clause(&equations[i], n) {
                Ok(c) => {
                    clauses.push(c);
                },
                Err(err) => {
                    return Err(err);
                },
            }
            i = i + 1;
        }
        let k = count_vars(&clauses);
        proof {
            assert(clauses_view(clauses@) =~= equations_clauses(equations@));
        }
        if k > n as usize {
            return Err(InvalidFormula::TooManyVariables);
        }
        let f = PBFormula { n, clauses };
        proof {
            assert(f@.clauses =~= equations_clauses(equations@));
        }
        Ok(f)
    }
}

proof fn lemma_normal_value(ps: Seq<EquationPart>, m: Map<u32, bool>, n: nat)
    requires
        forall|i: int| 0 <= i < ps.len() ==> part_ok(#[trigger] ps[i], n),
    ensures
        sat_sum(normal_literals(ps), m) + negative_sum(ps) == side_value(ps, m),
    decreases ps.len(),
{
    if ps.len() > 0 {
        let p = ps.drop_last();
        assert forall|i: int| 0 <= i < p.len() implies part_ok(#[trigger] p[i], n) by {
            assert(p[i] == ps[i]);
        }
        lemma_normal_value(p, m, n);
        assert(normal_literals(ps).drop_last() =~= normal_literals(p));
        assert(part_ok(ps[ps.len() - 1], n));
        assert(normal_literals(ps).last() == normal_literal(ps.last()));
    }
}

/// A canonical equation and its clause hold under the same assignments.
pub proof fn lemma_equation_clause_holds(e: Equation, n: nat, m: Map<u32, bool>)
    requires
        equation_ok(e, n),
    ensures
        clause_holds(equation_clause(e), m) == equation_holds(e, m),
{
    let ps = e.e1.literals@;
    lemma_normal_value(ps, m, n);
    let r2 = e.e2.literals@;
    assert(r2.drop_last() =~= Seq::<EquationPart>::empty());
    assert(side_value(r2, m) == side_value(r2.drop_last(), m) + part_value(r2.last(), m));
}

/// A system of canonical equations and its clauses hold under the same
/// assignments.
pub proof fn lemma_system_clauses_hold(es: Seq<Equation>, n: nat, m: Map<u32, bool>)
    requires
        forall|i: int| 0 <= i < es.len() ==> equation_ok(#[trigger] es[i], n),
    ensures
        all_hold(equations_clauses(es), m) == all_equations_hold(es, m),
{
    assert forall|i: int| 0 <= i < es.len() implies clause_holds(#[trigger] equations_clauses(es)[i], m) == equation_holds(es[i], m) by {
        lemma_equation_clause_holds(es[i], n, m);
    }
    if all_equations_hold(es, m) {
        assert forall|i: int| 0 <= i < equations_clauses(es).len() implies clause_holds(#[trigger] equations_clauses(es)[i], m) by {
            assert(equation_holds(es[i], m));
        }
    }
    if all_hold(equations_clauses(es), m) {
        assert forall|i: int| 0 <= i < es.len() implies equation_holds(#[trigger] es[i], m) by {
            assert(clause_holds(equations_clauses(es)[i], m));
        }
    }
}

} // verus!
