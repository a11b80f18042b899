use vstd::prelude::*;
use vstd::arithmetic::power2::{
    pow2, lemma2_to64, lemma_pow2_adds, lemma_pow2_strictly_increases, lemma_pow2_unfold,
};
use crate::formula::{ClauseView, FormulaView, PBFormula, PbLiteral, clause_vars, has_false_clause, lit_vars};
use crate::cache::CountCache;
use crate::equation::{
    Equation, EquationPart, InvalidFormula, equation_clause, equation_ok, equations_clauses, lemma_system_clauses_hold,
    system_ok,
};
use crate::formula::all_hold;
use crate::preprocess::{
    all_equations_hold, canonical_system, equations_match, is_form, preprocess_file, weights_fit,
};
use crate::model::{
    lemma_clause_vars_finite, lemma_false_clause_count, lemma_lit_vars_finite,
    lemma_model_count_range, lemma_no_vars_count, model_count,
};
use crate::reduce::lemma_branch;
use crate::decompose::{
    formula_to_disconnected_formula, formulas_view, is_split, lemma_prefix, lemma_split_count,
    product_of_counts, sum_n,
};

verus! {

/// The most free variables a formula may have to be counted: its count,
/// at most `2^127`, then fits in 128 bits.
pub const MAX_VARIABLES: u32 = 127;

proof fn lemma_pow2_fits(k: nat)
    requires
        k <= 127,
    ensures
        pow2(k) <= 0x8000_0000_0000_0000_0000_0000_0000_0000,
{
    lemma2_to64();
    lemma_pow2_adds(64, 64);
    lemma_pow2_unfold(128);
    if k < 127 {
        lemma_pow2_strictly_increases(k, 127);
    }
}

/// `2^k`.
pub fn pow2_u128(k: u32) -> (r: u128)
    requires
        k <= MAX_VARIABLES,
    ensures
        r == pow2(k as nat),
{
    let mut p: u128 = 1;
    let mut i: u32 = 0;
    proof {
        vstd::arithmetic::power::lemma_pow0(2);
    }
    while i < k
        invariant
            i <= k <= 127,
            p == pow2(i as nat),
        decreases k - i,
    {
        proof {
            lemma_pow2_unfold(i as nat + 1);
            lemma_pow2_fits(i as nat + 1);
        }
        p = p * 2;
        i = i + 1;
    }
    p
}

/// The number of assignments to the free variables of `formula` that satisfy
/// all of its clauses, by branching on one variable at a time; counts of
/// formulas met before are taken from `cache`, and new ones stored there.
pub fn count(formula: &PBFormula, cache: &mut CountCache) -> (r: u128)
    requires
        formula.wf(),
        formula.n <= MAX_VARIABLES,
        old(cache).wf(),
    ensures
        r == model_count(formula@),
        has_false_clause(formula@.clauses) ==> r == 0,
        final(cache).wf(),
        final(cache).max_size() == old(cache).max_size(),
        forall|g: FormulaView| old(cache).holds(g) ==> #[trigger] final(cache).holds(g),
        formula.clauses.len() > 0 && !has_false_clause(formula@.clauses) && clause_vars(formula@.clauses).len() > 0
            ==> final(cache).holds(formula@) || final(cache).size() == final(cache).max_size(),
    decreases formula.n,
{
    if formula.clauses.len() == 0 {
        proof {
            assert(formula@.clauses =~= Seq::<ClauseView>::empty());
            lemma_no_vars_count(formula@);
        }
        return pow2_u128(formula.n);
    }
    if formula.contains_false_clause() {
        proof {
            lemma_false_clause_count(formula@);
        }
        return 0;
    }
    match cache.get(formula) {
        Some(c) => {
            return c;
        },
        None => {},
    }
    match get_next_variable(formula) {
        None => {
            proof {
                lemma_no_vars_count(formula@);
            }
            pow2_u128(formula.n)
        },
        Some(v) => {
            let f1 = formula.get_sub_formula(v, true);
            let f2 = formula.get_sub_formula(v, false);
            let c1 = count(&f1, cache);
            let c2 = count(&f2, cache);
            proof {
                lemma_branch(formula@, v);
                lemma_model_count_range(formula@);
                lemma_pow2_fits(formula.n as nat);
            }
            let res = c1 + c2;
            cache.insert(formula.copy(), res);
            res
        },
    }
}

/// The number of assignments to the free variables of `pb_formula` that
/// satisfy all of its clauses: forced variables are set first, then the
/// formula is split into parts that share no variable, and the counts of the
/// parts are multiplied.
pub fn count_disconnected_components(pb_formula: PBFormula, cache: &mut CountCache) -> (r: u128)
    requires
        pb_formula.wf(),
        pb_formula.n <= MAX_VARIABLES,
        old(cache).wf(),
    ensures
        r == model_count(pb_formula@),
        final(cache).wf(),
        final(cache).max_size() == old(cache).max_size(),
        forall|g: FormulaView| old(cache).holds(g) ==> #[trigger] final(cache).holds(g),
    decreases pb_formula.n, 1nat,
{
    let ghost f0 = pb_formula@;
    let mut g = pb_formula;
    g.bcp();
    let ghost f = g@;
    let n = g.n;
    let parts = formula_to_disconnected_formula(g);
    let ghost pv = formulas_view(parts@);
    let mut res: u128 = 1;
    let mut j: usize = 0;
    proof {
        assert forall|k: int| 0 <= k < pv.len() implies (#[trigger] pv[k]).n <= n by {
            lemma_prefix(pv, k + 1);
            assert(pv.take(k + 1).drop_last() =~= pv.take(k));
            assert(pv.take(k + 1).last() == pv[k]);
        }
        assert(pv.take(0) =~= Seq::<FormulaView>::empty());
        vstd::arithmetic::power::lemma_pow0(2);
    }
    while j < parts.len()
        invariant
            pv == formulas_view(parts@),
            forall|k: int| 0 <= k < parts.len() ==> (#[trigger] parts[k]).wf(),
            sum_n(pv) == n,
            n == f.n,
            n <= pb_formula.n,
            is_split(f, pv),
            forall|k: int| 0 <= k < pv.len() ==> (#[trigger] pv[k]).n <= n,
            n <= MAX_VARIABLES,
            cache.wf(),
            cache.max_size() == old(cache).max_size(),
            forall|g: FormulaView| old(cache).holds(g) ==> #[trigger] cache.holds(g),
            0 <= j <= parts.len(),
            res == product_of_counts(pv.take(j as int)),
            res <= pow2(sum_n(pv.take(j as int))),
        decreases parts.len() - j,
    {
        proof {
            lemma_prefix(pv, j as int + 1);
            assert(pv.take(j as int + 1).drop_last() =~= pv.take(j as int));
            assert(pv[j as int] == parts[j as int]@);
        }
        assert(parts[j as int].n <= n) by {
            assert(pv[j as int].n <= n);
        }
        let c = count_dc(&parts[j], cache);
        proof {
            let a = sum_n(pv.take(j as int));
            let b = parts[j as int].n as nat;
            lemma_model_count_range(parts[j as int]@);
            lemma_pow2_adds(a, b);
            assert(res * c <= pow2(a) * pow2(b)) by (nonlinear_arith)
                requires
                    res <= pow2(a),
                    c <= pow2(b),
            ;
            assert(sum_n(pv.take(j as int + 1)) == a + b);
            if a + b < 127 {
                lemma_pow2_strictly_increases(a + b, 127);
            }
            lemma_pow2_fits(127);
        }
        res = res * c;
        j = j + 1;
    }
    proof {
        assert(pv.take(j as int) =~= pv);
        lemma_split_count(f, pv);
        vstd::arithmetic::power::lemma_pow0(2);
        assert(pow2(0) == 1);
        assert((f.n - sum_n(pv)) as nat == 0);
        assert(model_count(f) == 1 * product_of_counts(pv));
        assert(model_count(f) == model_count(f0));
    }
    res
}

/// The number of assignments to `n` variables that satisfy a system of
/// canonical equations, or why it cannot be counted.
pub fn count_equations(n: u32, equations: &Vec<Equation>, cache: &mut CountCache) -> (r: Result<u128, InvalidFormula>)
    requires
        old(cache).wf(),
    ensures
        final(cache).wf(),
        match r {
            Ok(c) => system_ok(equations@, n as nat) && n <= MAX_VARIABLES && c == model_count(
                FormulaView { n: n as nat, clauses: equations_clauses(equations@) },
            ),
            Err(InvalidFormula::CountTooLarge) => system_ok(equations@, n as nat) && n > MAX_VARIABLES,
            Err(_) => !system_ok(equations@, n as nat),
        },
{
    match PBFormula::new(n, equations) {
        Ok(f) => {
            if n > MAX_VARIABLES {
                Err(InvalidFormula::CountTooLarge)
            } else {
                Ok(count_disconnected_components(f, cache))
            }
        },
        Err(e) => Err(e),
    }
}

/// Any two lists of equations that spell out the same forms give the same
/// clauses and are valid alike.
pub proof fn lemma_same_forms(es1: Seq<Equation>, es2: Seq<Equation>, forms: Seq<(Seq<EquationPart>, i32)>, n: nat)
    requires
        equations_match(es1, forms),
        equations_match(es2, forms),
    ensures
        equations_clauses(es1) == equations_clauses(es2),
        system_ok(es1, n) == system_ok(es2, n),
{
    assert forall|i: int| 0 <= i < es1.len() implies equation_clause(#[trigger] es1[i]) == equation_clause(es2[i])
        && equation_ok(es1[i], n) == equation_ok(es2[i], n) by {
        assert(is_form(es1[i], forms[i]) && is_form(es2[i], forms[i]));
    }
    assert(equations_clauses(es1) =~= equations_clauses(es2));
    if system_ok(es1, n) {
        assert forall|i: int| 0 <= i < es2.len() implies equation_ok(#[trigger] es2[i], n) by {
            assert(equation_ok(es1[i], n));
        }
    }
    if system_ok(es2, n) {
        assert forall|i: int| 0 <= i < es1.len() implies equation_ok(#[trigger] es1[i], n) by {
            assert(equation_ok(es2[i], n));
        }
    }
}

/// The number of assignments to `n` variables that satisfy a system of
/// equations of any form: the count of its canonical system, whose clauses
/// hold exactly where the equations hold. It fails where a combined weight
/// does not fit in 32 bits, and otherwise exactly where the canonical system
/// is not valid over `n` variables or `n` is above the bound.
pub fn count_system(n: u32, equations: &Vec<Equation>, cache: &mut CountCache) -> (r: Result<u128, InvalidFormula>)
    requires
        old(cache).wf(),
    ensures
        final(cache).wf(),
        !(forall|i: int| 0 <= i < equations.len() ==> weights_fit(#[trigger] equations@[i])) ==> r == Err::<u128, InvalidFormula>(
            InvalidFormula::OutOfRange,
        ),
        forall|es: Seq<Equation>|
            #![trigger equations_match(es, canonical_system(equations@))]
            (forall|i: int| 0 <= i < equations.len() ==> weights_fit(#[trigger] equations@[i])) && equations_match(
                es,
                canonical_system(equations@),
            ) ==> (r is Ok <==> system_ok(es, n as nat) && n <= MAX_VARIABLES) && (r matches Ok(c) ==> c == model_count(
                FormulaView { n: n as nat, clauses: equations_clauses(es) },
            ) && forall|m: Map<u32, bool>| #[trigger] all_equations_hold(equations@, m) == all_hold(equations_clauses(es), m)),
{
    match preprocess_file(equations) {
        Err(e) => Err(e),
        Ok(es) => {
            let r = count_equations(n, &es, cache);
            proof {
                assert forall|es2: Seq<Equation>|
                    #![trigger equations_match(es2, canonical_system(equations@))]
                    (forall|i: int| 0 <= i < equations.len() ==> weights_fit(#[trigger] equations@[i])) && equations_match(
                        es2,
                        canonical_system(equations@),
                    ) implies (r is Ok <==> system_ok(es2, n as nat) && n <= MAX_VARIABLES) && (r matches Ok(c) ==> c
                    == model_count(FormulaView { n: n as nat, clauses: equations_clauses(es2) }) && forall|m: Map<u32, bool>|
                    #[trigger] all_equations_hold(equations@, m) == all_hold(equations_clauses(es2), m)) by {
                    lemma_same_forms(es@, es2, canonical_system(equations@), n as nat);
                    if r is Ok {
                        assert forall|m: Map<u32, bool>| #[trigger] all_equations_hold(equations@, m) == all_hold(
                            equations_clauses(es2),
                            m,
                        ) by {
                            lemma_system_clauses_hold(es@, n as nat, m);
                        }
                    }
                }
            }
            r
        },
    }
}

/// `count` with the residual formulas of each branch split into independent
/// parts.
fn count_dc(formula: &PBFormula, cache: &mut CountCache) -> (r: u128)
    requires
        formula.wf(),
        formula.n <= MAX_VARIABLES,
        old(cache).wf(),
    ensures
        r == model_count(formula@),
        has_false_clause(formula@.clauses) ==> r == 0,
        final(cache).wf(),
        final(cache).max_size() == old(cache).max_size(),
        forall|g: FormulaView| old(cache).holds(g) ==> #[trigger] final(cache).holds(g),
        formula.clauses.len() > 0 && !has_false_clause(formula@.clauses) && clause_vars(formula@.clauses).len() > 0
            ==> final(cache).holds(formula@) || final(cache).size() == final(cache).max_size(),
    decreases formula.n, 0nat,
{
    if formula.clauses.len() == 0 {
        proof {
            assert(formula@.clauses =~= Seq::<ClauseView>::empty());
            lemma_no_vars_count(formula@);
        }
        return pow2_u128(formula.n);
    }
    if formula.contains_false_clause() {
        proof {
            lemma_false_clause_count(formula@);
        }
        return 0;
    }
    match cache.get(formula) {
        Some(c) => {
            return c;
        },
        None => {},
    }
    match get_next_variable(formula) {
        None => {
            proof {
                lemma_no_vars_count(formula@);
            }
            pow2_u128(formula.n)
        },
        Some(v) => {
            let f1 = formula.get_sub_formula(v, true);
            let f2 = formula.get_sub_formula(v, false);
            let c1 = count_disconnected_components(f1, cache);
            let c2 = count_disconnected_components(f2, cache);
            proof {
                lemma_branch(formula@, v);
                lemma_model_count_range(formula@);
                lemma_pow2_fits(formula.n as nat);
            }
            let res = c1 + c2;
            cache.insert(formula.copy(), res);
            res
        },
    }
}

/// Number of clauses in which variable `x` occurs.
pub open spec fn occurrences(cs: Seq<ClauseView>, x: u32) -> nat
    decreases cs.len(),
{
    if cs.len() == 0 {
        0
    } else {
        occurrences(cs.drop_last(), x) + if lit_vars(cs.last().lits).contains(x) {
            1nat
        } else {
            0nat
        }
    }
}

/// The variable of the first clause that has exactly one literal, if any.
pub fn get_necessary_variable(formula: &PBFormula) -> (r: Option<u32>)
    ensures
        match r {
            Some(x) => exists|i: int|
                0 <= i < formula.clauses.len() && #[trigger] formula.clauses[i].literals.len() == 1
                    && formula.clauses[i].literals[0].name == x
                    && forall|k: int| 0 <= k < i ==> formula.clauses[k].literals.len() != 1,
            None => forall|i: int| 0 <= i < formula.clauses.len() ==> #[trigger] formula.clauses[i].literals.len() != 1,
        },
{
    let mut i: usize = 0;
    while i < formula.clauses.len()
        invariant
            0 <= i <= formula.clauses.len(),
            forall|k: int| 0 <= k < i ==> #[trigger] formula.clauses[k].literals.len() != 1,
        decreases formula.clauses.len() - i,
    {
        if formula.clauses[i].literals.len() == 1 {
            return Some(formula.clauses[i].literals[0].name);
        }
        i = i + 1;
    }
    None
}

fn count_occurrences(formula: &PBFormula, x: u32) -> (r: usize)
    ensures
        r == occurrences(formula@.clauses, x),
{
    let ghost cs = formula@.clauses;
    let mut c: usize = 0;
    let mut i: usize = 0;
    while i < formula.clauses.len()
        invariant
            cs == formula@.clauses,
            0 <= i <= formula.clauses.len(),
            c == occurrences(cs.take(i as int), x),
            c <= i,
        decreases formula.clauses.len() - i,
    {
        proof {
            assert(cs.take(i as int + 1).drop_last() =~= cs.take(i as int));
        }
        if formula.clauses[i].contains(x) {
            c = c + 1;
        }
        i = i + 1;
    }
    assert(cs.take(i as int) =~= cs);
    c
}

/// `b` is the variable that occurs in the most clauses among `vs`, the lowest
/// such index where several tie.
pub open spec fn most_frequent(cs: Seq<ClauseView>, vs: Set<u32>, b: u32) -> bool {
    &&& vs.contains(b)
    &&& forall|x: u32| #[trigger] vs.contains(x) ==> occurrences(cs, x) < occurrences(cs, b) || (
        occurrences(cs, x) == occurrences(cs, b) && b <= x)
}

/// The branching variable: the variable of the first clause with a single
/// literal, else the variable that occurs in the most clauses (lowest index on
/// ties); `None` when no clause has a literal.
pub fn get_next_variable(formula: &PBFormula) -> (r: Option<u32>)
    ensures
        r is None <==> clause_vars(formula@.clauses).len() == 0,
        match r {
            Some(x) => clause_vars(formula@.clauses).contains(x) && match get_necessary_variable_spec(formula@.clauses) {
                Some(y) => x == y,
                None => most_frequent(formula@.clauses, clause_vars(formula@.clauses), x),
            },
            None => true,
        },
{
    let ghost cs = formula@.clauses;
    proof {
        lemma_clause_vars_finite(cs);
    }
    match get_necessary_variable(formula) {
        Some(t) => {
            proof {
                let i = choose|i: int|
                    0 <= i < formula.clauses.len() && #[trigger] formula.clauses[i].literals.len() == 1
                        && formula.clauses[i].literals[0].name == t
                        && forall|k: int| 0 <= k < i ==> formula.clauses[k].literals.len() != 1;
                lemma_lit_vars_finite(cs[i].lits);
                assert(cs[i].lits[0].name == t);
                assert(clause_vars(cs).contains(t));
                lemma_first_unit(cs, i);
            }
            return Some(t);
        },
        None => {
            proof {
                assert forall|i: int| 0 <= i < cs.len() implies #[trigger] cs[i].lits.len() != 1 by {
                    assert(cs[i] == formula.clauses[i]@);
                    assert(formula.clauses[i].literals.len() != 1);
                }
                lemma_no_unit(cs);
            }
        },
    }
    let mut best: Option<u32> = None;
    let mut best_count: usize = 0;
    let ghost mut seen: Set<u32> = Set::empty();
    let mut i: usize = 0;
    proof {
        assert(cs.take(0) =~= Seq::<ClauseView>::empty());
    }
    while i < formula.clauses.len()
        invariant
            cs == formula@.clauses,
            0 <= i <= cs.len(),
            seen == clause_vars(cs.take(i as int)),
            seen.finite(),
            best is None ==> seen.len() == 0,
            best matches Some(b) ==> best_count == occurrences(cs, b) && most_frequent(cs, seen, b),
        decreases cs.len() - i,
    {
        let c = &formula.clauses[i];
        proof {
            assert(cs.take(i as int + 1).drop_last() =~= cs.take(i as int));
            assert(c.literals@.take(0) =~= Seq::<PbLiteral>::empty());
            assert(seen.union(lit_vars(c@.lits.take(0))) =~= seen);
        }
        let ghost before = seen;
        let mut j: usize = 0;
        while j < c.literals.len()
            invariant
                cs == formula@.clauses,
                0 <= i < cs.len(),
                c@ == cs[i as int],
                0 <= j <= c.literals.len(),
                seen == before.union(lit_vars(c@.lits.take(j as int))),
                seen.finite(),
                best is None ==> seen.len() == 0,
                best matches Some(b) ==> best_count == occurrences(cs, b) && most_frequent(cs, seen, b),
            decreases c.literals.len() - j,
        {
            let x = c.literals[j].name;
            proof {
                assert(c@.lits.take(j as int + 1).drop_last() =~= c@.lits.take(j as int));
                assert(c@.lits[j as int].name == x);
                lemma_lit_vars_finite(c@.lits);
                lemma_clause_vars_finite(cs);
                assert(lit_vars(cs[i as int].lits).contains(x));
                assert(clause_vars(cs).contains(x));
                assert(before.union(lit_vars(c@.lits.take(j as int + 1))) =~= seen.insert(x));
            }
            let (nb, nc) = better(formula, x, best, best_count, Ghost(seen));
            best = nb;
            best_count = nc;
            proof {
                seen = seen.insert(x);
            }
            j = j + 1;
        }
        proof {
            assert(c@.lits.take(j as int) =~= c@.lits);
            assert(clause_vars(cs.take(i as int + 1)) =~= before.union(lit_vars(c@.lits)));
        }
        i = i + 1;
    }
    proof {
        assert(cs.take(i as int) =~= cs);
        if let Some(b) = best {
            assert(seen.contains(b));
        }
    }
    best
}

/// The running choice after candidate `x` has been considered.
fn better(formula: &PBFormula, x: u32, best: Option<u32>, best_count: usize, seen: Ghost<Set<u32>>) -> (r: (
    Option<u32>,
    usize,
))
    requires
        seen@.finite(),
        clause_vars(formula@.clauses).contains(x),
        best is None ==> seen@.len() == 0,
        best matches Some(b) ==> best_count == occurrences(formula@.clauses, b) && most_frequent(formula@.clauses, seen@, b),
    ensures
        r.0 matches Some(b) && r.1 == occurrences(formula@.clauses, b) && most_frequent(formula@.clauses, seen@.insert(x), b),
{
    let k = count_occurrences(formula, x);
    match best {
        None => {
            proof {
                assert(seen@ =~= Set::<u32>::empty());
            }
            (Some(x), k)
        },
        Some(b) => {
            if k > best_count || (k == best_count && x < b) {
                (Some(x), k)
            } else {
                (Some(b), best_count)
            }
        },
    }
}

/// What `get_necessary_variable` picks, over the clauses' meaning.
pub open spec fn get_necessary_variable_spec(cs: Seq<ClauseView>) -> Option<u32> {
    if exists|i: int| 0 <= i < cs.len() && #[trigger] cs[i].lits.len() == 1 {
        let i = choose|i: int|
            0 <= i < cs.len() && #[trigger] cs[i].lits.len() == 1 && forall|k: int| 0 <= k < i ==> cs[k].lits.len() != 1;
        Some(cs[i].lits[0].name)
    } else {
        None
    }
}

proof fn lemma_first_unit(cs: Seq<ClauseView>, i: int)
    requires
        0 <= i < cs.len(),
        cs[i].lits.len() == 1,
        forall|k: int| 0 <= k < i ==> cs[k].lits.len() != 1,
    ensures
        get_necessary_variable_spec(cs) == Some(cs[i].lits[0].name),
{
    let j = choose|j: int|
        0 <= j < cs.len() && #[trigger] cs[j].lits.len() == 1 && forall|k: int| 0 <= k < j ==> cs[k].lits.len() != 1;
    assert(j == i) by {
        if j < i {
            assert(cs[j].lits.len() != 1);
        }
        if i < j {
            assert(cs[i].lits.len() != 1);
        }
    }
}

proof fn lemma_no_unit(cs: Seq<ClauseView>)
    requires
        forall|i: int| 0 <= i < cs.len() ==> #[trigger] cs[i].lits.len() != 1,
    ensures
        get_necessary_variable_spec(cs) is None,
{
}

} // verus!
