use vstd::prelude::*;
use crate::formula::{
    Clause, ClauseView, FormulaView, PBFormula, PbLiteral, all_hold, clause_holds, clause_vars, factor_sum,
    formula_wf, has_false_clause, is_false_clause, lit_vars, max_literal, positive_factors, sat_sum,
};
use crate::model::{
    agrees_outside, count_over, lemma_clause_vars_finite, lemma_count_unsat, lemma_lit_vars_finite,
    model_count,
};
use crate::reduce::{
    clause_forces, false_clause, lemma_branch, lemma_forces_after, lemma_forces_conflict, lemma_reduce_clauses_keeps,
    lemma_reduce_count, reduce, reduce_clause,
};

verus! {

/// Every assignment that satisfies the clauses gives `v` the value `b`.
pub open spec fn is_forced(cs: Seq<ClauseView>, v: u32, b: bool) -> bool {
    forall|m: Map<u32, bool>| #[trigger] all_hold(cs, m) ==> m[v] == b
}

/// Some clause forces `v` to `b`.
pub open spec fn forces_in(cs: Seq<ClauseView>, v: u32, b: bool) -> bool {
    exists|i: int| 0 <= i < cs.len() && clause_forces(#[trigger] cs[i], v, b)
}

/// Some variable is forced both ways.
pub open spec fn has_conflict(cs: Seq<ClauseView>) -> bool {
    exists|v: u32| forces_in(cs, v, true) && forces_in(cs, v, false)
}

/// `f` with each variable of `steps` set, in order, to its value.
pub open spec fn apply_steps(f: FormulaView, steps: Seq<(u32, bool)>) -> FormulaView
    decreases steps.len(),
{
    if steps.len() == 0 {
        f
    } else {
        reduce(apply_steps(f, steps.drop_last()), steps.last().0, steps.last().1)
    }
}

/// Each step sets a variable that the formula before it mentions to the value
/// that one of its clauses forces.
pub open spec fn forced_steps(f: FormulaView, steps: Seq<(u32, bool)>) -> bool {
    forall|k: int|
        0 <= k < steps.len() ==> clause_vars(apply_steps(f, steps.take(k)).clauses).contains((#[trigger] steps[k]).0)
            && forces_in(apply_steps(f, steps.take(k)).clauses, steps[k].0, steps[k].1)
}

/// `g` is `f` after the forced steps `steps`: one free variable fewer per
/// step, the set variables gone, every other clause variable one of `f`'s,
/// and the clauses without a set variable still there.
pub open spec fn propagated_from(f: FormulaView, g: FormulaView, steps: Seq<(u32, bool)>) -> bool {
    &&& forced_steps(f, steps)
    &&& g == apply_steps(f, steps)
    &&& g.n + steps.len() == f.n
    &&& forall|x: u32| #[trigger] clause_vars(g.clauses).contains(x) ==> clause_vars(f.clauses).contains(x) && forall|k: int|
        0 <= k < steps.len() ==> steps[k].0 != x
    &&& forall|c: ClauseView|
        f.clauses.contains(c) && (forall|k: int| 0 <= k < steps.len() ==> !lit_vars(c.lits).contains(#[trigger] steps[k].0))
            ==> #[trigger] g.clauses.contains(c)
}

/// The clauses with a positive threshold, in order: the others hold under
/// every assignment.
pub open spec fn open_clauses(cs: Seq<ClauseView>) -> Seq<ClauseView>
    decreases cs.len(),
{
    if cs.len() == 0 {
        Seq::empty()
    } else if cs.last().rhs > 0 {
        open_clauses(cs.drop_last()).push(cs.last())
    } else {
        open_clauses(cs.drop_last())
    }
}

proof fn lemma_open_clauses(cs: Seq<ClauseView>)
    requires
        forall|i: int| 0 <= i < cs.len() ==> crate::formula::clause_fits(#[trigger] cs[i].rhs, cs[i].lits),
    ensures
        forall|m: Map<u32, bool>| #[trigger] all_hold(open_clauses(cs), m) == all_hold(cs, m),
        clause_vars(open_clauses(cs)).subset_of(clause_vars(cs)),
        forall|i: int| 0 <= i < open_clauses(cs).len() ==> (#[trigger] open_clauses(cs)[i]).rhs > 0 && cs.contains(open_clauses(cs)[i]),
        forall|c: ClauseView| cs.contains(c) && c.rhs > 0 ==> #[trigger] open_clauses(cs).contains(c),
    decreases cs.len(),
{
    if cs.len() > 0 {
        let p = cs.drop_last();
        let l = cs.last();
        assert forall|i: int| 0 <= i < p.len() implies crate::formula::clause_fits(#[trigger] p[i].rhs, p[i].lits) by {
            assert(p[i] == cs[i]);
        }
        lemma_open_clauses(p);
        let q = open_clauses(p);
        assert(crate::formula::clause_fits(cs[cs.len() - 1].rhs, cs[cs.len() - 1].lits));
        let r = open_clauses(cs);
        assert forall|m: Map<u32, bool>| #[trigger] all_hold(r, m) == all_hold(cs, m) by {
            if l.rhs <= 0 {
                lemma_sat_sum_nonneg(l.lits, m);
            }
            if all_hold(cs, m) {
                assert forall|i: int| 0 <= i < p.len() implies clause_holds(#[trigger] p[i], m) by {
                    assert(p[i] == cs[i]);
                }
                assert(clause_holds(cs[cs.len() - 1], m));
                assert(all_hold(q, m) == all_hold(p, m));
                assert(all_hold(q, m));
                if l.rhs > 0 {
                    assert forall|i: int| 0 <= i < r.len() implies clause_holds(#[trigger] r[i], m) by {
                        if i < q.len() {
                            assert(r[i] == q[i]);
                        }
                    }
                }
            }
            if all_hold(r, m) {
                if l.rhs > 0 {
                    assert forall|i: int| 0 <= i < q.len() implies clause_holds(#[trigger] q[i], m) by {
                        assert(r[i] == q[i]);
                    }
                    assert(clause_holds(r[r.len() - 1], m));
                }
                assert(all_hold(q, m));
                assert(all_hold(q, m) == all_hold(p, m));
                assert(all_hold(p, m));
                assert forall|i: int| 0 <= i < cs.len() implies clause_holds(#[trigger] cs[i], m) by {
                    if i < p.len() {
                        assert(cs[i] == p[i]);
                    }
                }
            }
        }
        if l.rhs > 0 {
            assert(r.drop_last() =~= q);
            assert forall|i: int| 0 <= i < r.len() implies (#[trigger] r[i]).rhs > 0 && cs.contains(r[i]) by {
                if i < q.len() {
                    assert(r[i] == q[i]);
                    let k = choose|k: int| 0 <= k < p.len() && p[k] == q[i];
                    assert(cs[k] == p[k]);
                } else {
                    assert(cs[cs.len() - 1] == r[i]);
                }
            }
            assert forall|c: ClauseView| cs.contains(c) && c.rhs > 0 implies #[trigger] r.contains(c) by {
                let k = choose|k: int| 0 <= k < cs.len() && cs[k] == c;
                if k < p.len() {
                    assert(p[k] == c);
                    assert(p.contains(c));
                    assert(q.contains(c));
                    let t = choose|t: int| 0 <= t < q.len() && q[t] == c;
                    assert(r[t] == c);
                } else {
                    assert(r[r.len() - 1] == c);
                }
            }
        } else {
            assert forall|i: int| 0 <= i < r.len() implies (#[trigger] r[i]).rhs > 0 && cs.contains(r[i]) by {
                let k = choose|k: int| 0 <= k < p.len() && p[k] == q[i];
                assert(cs[k] == p[k]);
            }
            assert forall|c: ClauseView| cs.contains(c) && c.rhs > 0 implies #[trigger] r.contains(c) by {
                let k = choose|k: int| 0 <= k < cs.len() && cs[k] == c;
                assert(k < p.len());
                assert(p[k] == c);
            }
        }
        lemma_clause_vars_finite(cs);
        lemma_clause_vars_finite(r);
        assert forall|x: u32| clause_vars(r).contains(x) implies clause_vars(cs).contains(x) by {
            let i = choose|i: int| 0 <= i < r.len() && lit_vars(#[trigger] r[i].lits).contains(x);
            let k = choose|k: int| 0 <= k < cs.len() && cs[k] == r[i];
            assert(lit_vars(cs[k].lits).contains(x));
        }
    }
}

proof fn lemma_sat_sum_nonneg(ls: Seq<PbLiteral>, m: Map<u32, bool>)
    requires
        positive_factors(ls),
    ensures
        sat_sum(ls, m) >= 0,
    decreases ls.len(),
{
    if ls.len() > 0 {
        let p = ls.drop_last();
        assert(positive_factors(p)) by {
            assert forall|i: int| 0 <= i < p.len() implies #[trigger] p[i].factor > 0 by {
                assert(p[i] == ls[i]);
            }
        }
        lemma_sat_sum_nonneg(p, m);
        assert(ls[ls.len() - 1].factor > 0);
    }
}

/// Dropping the clauses that always hold keeps the count.
pub proof fn lemma_open_clauses_count(f: FormulaView)
    requires
        formula_wf(f),
    ensures
        formula_wf(FormulaView { n: f.n, clauses: open_clauses(f.clauses) }),
        model_count(FormulaView { n: f.n, clauses: open_clauses(f.clauses) }) == model_count(f),
{
    let cs = f.clauses;
    let ds = open_clauses(cs);
    lemma_open_clauses(cs);
    lemma_clause_vars_finite(cs);
    lemma_clause_vars_finite(ds);
    let vs = clause_vars(cs);
    let ws = clause_vars(ds);
    vstd::set_lib::lemma_len_subset(ws, vs);
    assert forall|i: int| 0 <= i < ds.len() implies crate::formula::clause_fits(#[trigger] ds[i].rhs, ds[i].lits) by {
        let k = choose|k: int| 0 <= k < cs.len() && cs[k] == ds[i];
    }
    assert forall|m: Map<u32, bool>| agrees_outside(m, Map::empty(), vs) implies #[trigger] all_hold(cs, m) == all_hold(ds, m) by {
        assert(all_hold(ds, m) == all_hold(cs, m));
    }
    crate::decompose::lemma_count_same_sat(vs, Map::empty(), cs, ds);
    crate::model::lemma_count_superset(vs, ws, Map::empty(), ds);
    let k1 = (f.n - vs.len()) as nat;
    let k2 = (vs.len() - ws.len()) as nat;
    vstd::arithmetic::power2::lemma_pow2_adds(k1, k2);
    let q = count_over(ws, Map::empty(), ds);
    assert(vstd::arithmetic::power2::pow2(k1) * (vstd::arithmetic::power2::pow2(k2) * q) == (vstd::arithmetic::power2::pow2(k1)
        * vstd::arithmetic::power2::pow2(k2)) * q) by (nonlinear_arith);
    assert((f.n - ws.len()) as nat == k1 + k2);
}

/// Setting a variable keeps a false clause, and keeps a conflict unless it
/// turns it into a false clause.
pub proof fn lemma_conflict_step(f: FormulaView, w: u32, bw: bool)
    requires
        formula_wf(f),
        has_false_clause(f.clauses) || has_conflict(f.clauses),
    ensures
        has_false_clause(reduce(f, w, bw).clauses) || has_conflict(reduce(f, w, bw).clauses),
{
    let cs = f.clauses;
    let ds = reduce(f, w, bw).clauses;
    if has_false_clause(cs) {
        let i = choose|i: int| 0 <= i < cs.len() && is_false_clause(#[trigger] cs[i]);
        assert(cs.contains(cs[i]));
        assert(lit_vars(cs[i].lits) =~= Set::<u32>::empty()) by {
            lemma_lit_vars_finite(cs[i].lits);
        }
        lemma_reduce_clauses_keeps(cs, w, bw, cs[i]);
        let k = choose|k: int| 0 <= k < ds.len() && ds[k] == cs[i];
        assert(is_false_clause(ds[k]));
    } else {
        let v = choose|v: u32| forces_in(cs, v, true) && forces_in(cs, v, false);
        let it = choose|i: int| 0 <= i < cs.len() && clause_forces(#[trigger] cs[i], v, true);
        let jf = choose|i: int| 0 <= i < cs.len() && clause_forces(#[trigger] cs[i], v, false);
        assert(cs.contains(cs[it]) && cs.contains(cs[jf]));
        if v == w {
            let c = if bw { cs[jf] } else { cs[it] };
            assert(clause_forces(c, v, !bw));
            lemma_forces_conflict(c, v, bw);
            lemma_reduce_clauses_keeps(cs, w, bw, c);
            let k = choose|k: int| 0 <= k < ds.len() && ds[k] == false_clause();
            assert(is_false_clause(ds[k]));
        } else {
            lemma_forces_after(cs[it], w, bw, v, true);
            lemma_forces_after(cs[jf], w, bw, v, false);
            lemma_reduce_clauses_keeps(cs, w, bw, cs[it]);
            lemma_reduce_clauses_keeps(cs, w, bw, cs[jf]);
            if reduce_clause(cs[it], w, bw) == false_clause() && lit_vars(cs[it].lits).contains(w) {
                let k = choose|k: int| 0 <= k < ds.len() && ds[k] == reduce_clause(cs[it], w, bw);
                assert(is_false_clause(ds[k]));
            } else if reduce_clause(cs[jf], w, bw) == false_clause() && lit_vars(cs[jf].lits).contains(w) {
                let k = choose|k: int| 0 <= k < ds.len() && ds[k] == reduce_clause(cs[jf], w, bw);
                assert(is_false_clause(ds[k]));
            } else {
                let ct = if lit_vars(cs[it].lits).contains(w) { reduce_clause(cs[it], w, bw) } else { cs[it] };
                let cf = if lit_vars(cs[jf].lits).contains(w) { reduce_clause(cs[jf], w, bw) } else { cs[jf] };
                let kt = choose|k: int| 0 <= k < ds.len() && ds[k] == ct;
                let kf = choose|k: int| 0 <= k < ds.len() && ds[k] == cf;
                assert(clause_forces(ds[kt], v, true));
                assert(clause_forces(ds[kf], v, false));
                assert(forces_in(ds, v, true) && forces_in(ds, v, false));
            }
        }
    }
}

proof fn lemma_max_literal_ge(ls: Seq<PbLiteral>)
    ensures
        max_literal(ls) matches Some(m) ==> forall|j: int| 0 <= j < ls.len() ==> #[trigger] ls[j].factor <= m.factor,
    decreases ls.len(),
{
    if ls.len() > 0 {
        lemma_max_literal_ge(ls.drop_last());
        if let Some(m) = max_literal(ls) {
            assert forall|j: int| 0 <= j < ls.len() implies #[trigger] ls[j].factor <= m.factor by {
                if j < ls.len() - 1 {
                    assert(ls.drop_last()[j] == ls[j]);
                }
            }
        }
    }
}

/// Where no clause leaves too little room, no clause forces a literal.
proof fn lemma_propagated_forces_nothing(f: PBFormula, v: u32, b: bool)
    requires
        f.wf(),
        propagated(f),
    ensures
        !forces_in(f@.clauses, v, b),
{
    if forces_in(f@.clauses, v, b) {
        let i = choose|i: int| 0 <= i < f@.clauses.len() && clause_forces(#[trigger] f@.clauses[i], v, b);
        let c = f.clauses[i];
        assert(f@.clauses[i] == c@);
        assert(c.wf());
        assert(leaves_room(c));
        let j = choose|j: int|
            0 <= j < c@.lits.len() && #[trigger] c@.lits[j].name == v && c@.lits[j].pos == b && factor_sum(c@.lits)
                - c@.lits[j].factor < c@.rhs;
        lemma_max_literal_ge(c.literals@);
        lemma_max_literal_member(c.literals@);
        assert(c.literals@[j].factor <= c.max_l->0.factor);
    }
}

/// Dropping even the largest literal of the clause leaves it satisfiable.
pub open spec fn leaves_room(c: Clause) -> bool {
    match c.max_l {
        Some(l) => c.sub_unas - l.factor >= c.rhs,
        None => true,
    }
}

/// No clause forces a literal.
pub open spec fn propagated(f: PBFormula) -> bool {
    forall|i: int| 0 <= i < f.clauses.len() ==> leaves_room(#[trigger] f.clauses[i])
}

proof fn lemma_max_literal_member(ls: Seq<PbLiteral>)
    ensures
        ls.len() > 0 ==> (max_literal(ls) matches Some(l) && exists|k: int| 0 <= k < ls.len() && ls[k] == l),
        ls.len() == 0 ==> max_literal(ls) is None,
    decreases ls.len(),
{
    if ls.len() > 0 {
        lemma_max_literal_member(ls.drop_last());
        if let Some(l) = max_literal(ls) {
            if l != ls.last() {
                let k = choose|k: int| 0 <= k < ls.drop_last().len() && ls.drop_last()[k] == l;
                assert(ls[k] == l);
            } else {
                assert(ls[ls.len() - 1] == l);
            }
        }
    }
}

/// A literal that does not hold takes its factor out of what can be reached.
proof fn lemma_sat_sum_without(ls: Seq<PbLiteral>, k: int, m: Map<u32, bool>)
    requires
        positive_factors(ls),
        0 <= k < ls.len(),
        m[ls[k].name] != ls[k].pos,
    ensures
        sat_sum(ls, m) <= factor_sum(ls) - ls[k].factor,
    decreases ls.len(),
{
    let p = ls.drop_last();
    assert(positive_factors(p)) by {
        assert forall|i: int| 0 <= i < p.len() implies #[trigger] p[i].factor > 0 by {
            assert(p[i] == ls[i]);
        }
    }
    lemma_sat_sum_upper(p, m);
    if k < ls.len() - 1 {
        assert(p[k] == ls[k]);
        lemma_sat_sum_without(p, k, m);
    }
    assert(ls[ls.len() - 1].factor > 0);
}

proof fn lemma_sat_sum_upper(ls: Seq<PbLiteral>, m: Map<u32, bool>)
    requires
        positive_factors(ls),
    ensures
        sat_sum(ls, m) <= factor_sum(ls),
    decreases ls.len(),
{
    if ls.len() > 0 {
        let p = ls.drop_last();
        assert(positive_factors(p)) by {
            assert forall|i: int| 0 <= i < p.len() implies #[trigger] p[i].factor > 0 by {
                assert(p[i] == ls[i]);
            }
        }
        lemma_sat_sum_upper(p, m);
        assert(ls[ls.len() - 1].factor > 0);
    }
}

/// Setting a forced variable to its forced value keeps the count.
pub proof fn lemma_forced_count(f: FormulaView, v: u32, b: bool)
    requires
        formula_wf(f),
        clause_vars(f.clauses).contains(v),
        is_forced(f.clauses, v, b),
    ensures
        model_count(f) == model_count(reduce(f, v, b)),
{
    lemma_branch(f, v);
    lemma_reduce_count(f, v, !b);
    lemma_clause_vars_finite(f.clauses);
    let s = clause_vars(f.clauses).remove(v);
    let a = Map::<u32, bool>::empty().insert(v, !b);
    assert forall|m: Map<u32, bool>| agrees_outside(m, a, s) implies !#[trigger] all_hold(f.clauses, m) by {
        assert(m[v] == a[v]);
    }
    lemma_count_unsat(s, a, f.clauses);
    if b {
        assert(model_count(reduce(f, v, false)) == 0) by (nonlinear_arith)
            requires
                model_count(reduce(f, v, false)) == free_factor(f) * count_over(s, a, f.clauses),
                count_over(s, a, f.clauses) == 0,
        ;
    } else {
        assert(model_count(reduce(f, v, true)) == 0) by (nonlinear_arith)
            requires
                model_count(reduce(f, v, true)) == free_factor(f) * count_over(s, a, f.clauses),
                count_over(s, a, f.clauses) == 0,
        ;
    }
}

/// What the variables that no clause mentions contribute to the count.
spec fn free_factor(f: FormulaView) -> nat {
    vstd::arithmetic::power2::pow2((f.n - clause_vars(f.clauses).len()) as nat)
}

/// A literal that some clause forces, if any: the largest literal of a clause
/// whose other literals cannot reach its threshold.
fn find_forced(f: &PBFormula) -> (r: Option<(u32, bool)>)
    requires
        f.wf(),
    ensures
        r matches Some((v, b)) ==> clause_vars(f@.clauses).contains(v) && is_forced(f@.clauses, v, b) && forces_in(
            f@.clauses,
            v,
            b,
        ),
        r is None ==> propagated(*f),
{
    let mut i: usize = 0;
    while i < f.clauses.len()
        invariant
            f.wf(),
            0 <= i <= f.clauses.len(),
            forall|k: int| 0 <= k < i ==> leaves_room(#[trigger] f.clauses[k]),
        decreases f.clauses.len() - i,
    {
        let c = &f.clauses[i];
        proof {
            assert(c.wf());
            lemma_max_literal_member(c.literals@);
            crate::formula::lemma_factor_sum_prefix(c.literals@, c.literals@.len() as int);
            assert(c.literals@.take(c.literals@.len() as int) =~= c.literals@);
            if let Some(l) = c.max_l {
                let k = choose|k: int| 0 <= k < c.literals@.len() && c.literals@[k] == l;
                assert(c.literals@[k].factor > 0);
            }
        }
        match c.max_l {
            Some(l) => {
                if c.sub_unas - l.factor < c.rhs {
                    proof {
                        let ls = c.literals@;
                        let k = choose|k: int| 0 <= k < ls.len() && ls[k] == l;
                        let cs = f@.clauses;
                        assert(cs[i as int] == c@);
                        lemma_lit_vars_finite(ls);
                        lemma_clause_vars_finite(cs);
                        assert(lit_vars(cs[i as int].lits).contains(l.name));
                        assert forall|m: Map<u32, bool>| #[trigger] all_hold(cs, m) implies m[l.name] == l.pos by {
                            assert(clause_holds(cs[i as int], m));
                            if m[l.name] != l.pos {
                                lemma_sat_sum_without(ls, k, m);
                            }
                        }
                        assert(cs[i as int].lits[k].name == l.name);
                        assert(clause_forces(cs[i as int], l.name, l.pos));
                    }
                    return Some((l.name, l.pos));
                }
            },
            None => {},
        }
        i = i + 1;
    }
    None
}

impl PBFormula {
    /// Sets forced variables to their forced values, one at a time, until no
    /// clause forces one; the count stays the same. A variable forced both
    /// ways ends as a false clause. Returns whether no clause is false.
    pub fn bcp(&mut self) -> (r: bool)
        requires
            old(self).wf(),
        ensures
            final(self).wf(),
            exists|steps: Seq<(u32, bool)>|
                #![trigger apply_steps(old(self)@, steps)]
                propagated_from(old(self)@, apply_steps(old(self)@, steps), steps) && final(self)@ == (FormulaView {
                    n: apply_steps(old(self)@, steps).n,
                    clauses: open_clauses(apply_steps(old(self)@, steps).clauses),
                }) && final(self).n + steps.len() == old(self).n && (forall|x: u32|
                    #[trigger] clause_vars(final(self)@.clauses).contains(x) ==> clause_vars(old(self)@.clauses).contains(x)
                        && forall|k: int| 0 <= k < steps.len() ==> steps[k].0 != x) && (forall|c: ClauseView|
                    old(self)@.clauses.contains(c) && c.rhs > 0 && (forall|k: int|
                        0 <= k < steps.len() ==> !lit_vars(c.lits).contains(#[trigger] steps[k].0)) ==> #[trigger] final(self)@.clauses.contains(c)),
            forall|i: int| 0 <= i < final(self).clauses.len() ==> (#[trigger] final(self).clauses[i]).rhs > 0,
            model_count(final(self)@) == model_count(old(self)@),
            propagated(*final(self)),
            has_conflict(old(self)@.clauses) ==> has_false_clause(final(self)@.clauses),
            r == !has_false_clause(final(self)@.clauses),
    {
        let ghost f0 = self@;
        let ghost mut steps: Seq<(u32, bool)> = Seq::empty();
        proof {
            assert(steps.len() == 0);
            assert forall|c: ClauseView|
                f0.clauses.contains(c) && (forall|k: int| 0 <= k < steps.len() ==> !lit_vars(c.lits).contains(#[trigger] steps[k].0))
                    implies #[trigger] self@.clauses.contains(c) by {}
        }
        loop
            invariant
                self.wf(),
                f0 == old(self)@,
                propagated_from(f0, self@, steps),
                model_count(self@) == model_count(f0),
                has_conflict(f0.clauses) ==> has_false_clause(self@.clauses) || has_conflict(self@.clauses),
            ensures
                self.wf(),
                propagated_from(f0, self@, steps),
                model_count(self@) == model_count(f0),
                has_conflict(f0.clauses) ==> has_false_clause(self@.clauses) || has_conflict(self@.clauses),
                propagated(*self),
            decreases self.n,
        {
            match find_forced(self) {
                None => {
                    break ;
                },
                Some((v, b)) => {
                    let ghost before = self@;
                    proof {
                        lemma_forced_count(self@, v, b);
                        if has_conflict(f0.clauses) {
                            lemma_conflict_step(self@, v, b);
                        }
                    }
                    *self = self.get_sub_formula(v, b);
                    proof {
                        let s2 = steps.push((v, b));
                        assert(s2.drop_last() =~= steps);
                        assert(apply_steps(f0, s2) == self@);
                        assert forall|k: int| 0 <= k < s2.len() implies clause_vars(
                            apply_steps(f0, s2.take(k)).clauses,
                        ).contains((#[trigger] s2[k]).0) && forces_in(apply_steps(f0, s2.take(k)).clauses, s2[k].0, s2[k].1) by {
                            if k < steps.len() {
                                assert(s2.take(k) =~= steps.take(k));
                                assert(s2[k] == steps[k]);
                            } else {
                                assert(s2.take(k) =~= steps);
                            }
                        }
                        assert forall|x: u32| #[trigger] clause_vars(self@.clauses).contains(x) implies clause_vars(
                            f0.clauses,
                        ).contains(x) && forall|k: int| 0 <= k < s2.len() ==> s2[k].0 != x by {
                            assert(clause_vars(before.clauses).contains(x));
                            assert forall|k: int| 0 <= k < s2.len() implies s2[k].0 != x by {
                                if k < steps.len() {
                                    assert(s2[k] == steps[k]);
                                }
                            }
                        }
                        assert forall|c: ClauseView|
                            f0.clauses.contains(c) && (forall|k: int| 0 <= k < s2.len() ==> !lit_vars(c.lits).contains(#[trigger] s2[k].0))
                                implies #[trigger] self@.clauses.contains(c) by {
                            assert forall|k: int| 0 <= k < steps.len() implies !lit_vars(c.lits).contains(#[trigger] steps[k].0) by {
                                assert(s2[k] == steps[k]);
                            }
                            assert(before.clauses.contains(c));
                            assert(!lit_vars(c.lits).contains(s2[steps.len() as int].0));
                            lemma_reduce_clauses_keeps(before.clauses, v, b, c);
                        }
                        steps = s2;
                    }
                },
            }
        }
        proof {
            if has_conflict(f0.clauses) && !has_false_clause(self@.clauses) {
                let v = choose|v: u32| forces_in(self@.clauses, v, true) && forces_in(self@.clauses, v, false);
                lemma_propagated_forces_nothing(*self, v, true);
            }
        }
        let ghost g = self@;
        self.drop_satisfied();
        proof {
            lemma_open_clauses_count(g);
            lemma_open_clauses(g.clauses);
            if has_false_clause(g.clauses) {
                let i = choose|i: int| 0 <= i < g.clauses.len() && is_false_clause(#[trigger] g.clauses[i]);
                assert(g.clauses.contains(g.clauses[i]));
                assert(g.clauses[i].rhs > 0);
                assert(open_clauses(g.clauses).contains(g.clauses[i]));
                assert(self@.clauses == open_clauses(g.clauses));
                let k = choose|k: int| 0 <= k < self@.clauses.len() && self@.clauses[k] == g.clauses[i];
                assert(is_false_clause(self@.clauses[k]));
            }
            assert forall|x: u32| #[trigger] clause_vars(self@.clauses).contains(x) implies clause_vars(f0.clauses).contains(x)
                && forall|k: int| 0 <= k < steps.len() ==> steps[k].0 != x by {
                assert(clause_vars(g.clauses).contains(x));
            }
            assert forall|c: ClauseView|
                f0.clauses.contains(c) && c.rhs > 0 && (forall|k: int| 0 <= k < steps.len() ==> !lit_vars(c.lits).contains(#[trigger] steps[k].0))
                    implies #[trigger] self@.clauses.contains(c) by {
                assert(g.clauses.contains(c));
            }
        }
        !self.contains_false_clause()
    }
}

impl PBFormula {
    /// Drops the clauses whose threshold is not positive: they always hold.
    fn drop_satisfied(&mut self)
        requires
            old(self).wf(),
            propagated(*old(self)),
        ensures
            final(self).wf(),
            final(self)@ == (FormulaView { n: old(self)@.n, clauses: open_clauses(old(self)@.clauses) }),
            propagated(*final(self)),
            forall|i: int| 0 <= i < final(self).clauses.len() ==> (#[trigger] final(self).clauses[i]).rhs > 0,
    {
        let ghost cs = self@.clauses;
        proof {
            lemma_open_clauses_count(self@);
            assert(cs.take(0) =~= Seq::<ClauseView>::empty());
        }
        let mut kept: Vec<Clause> = Vec::new();
        let mut i: usize = 0;
        while i < self.clauses.len()
            invariant
                self.wf(),
                propagated(*self),
                cs == self@.clauses,
                0 <= i <= self.clauses.len(),
                kept@.map_values(|c: Clause| c@) == open_clauses(cs.take(i as int)),
                forall|k: int| 0 <= k < kept.len() ==> (#[trigger] kept[k]).wf() && leaves_room(kept[k]) && kept[k].rhs > 0,
            decreases self.clauses.len() - i,
        {
            let ghost before = kept@;
            proof {
                assert(cs.take(i as int + 1).drop_last() =~= cs.take(i as int));
                assert(cs.take(i as int + 1).last() == self.clauses[i as int]@);
                assert(self.clauses[i as int].wf());
                assert(leaves_room(self.clauses[i as int]));
            }
            if self.clauses[i].rhs > 0 {
                let c = self.clauses[i].copy();
                kept.push(c);
                proof {
                    assert(kept@.map_values(|c: Clause| c@) =~= before.map_values(|c: Clause| c@).push(c@));
                }
            }
            i = i + 1;
        }
        proof {
            assert(cs.take(i as int) =~= cs);
        }
        self.clauses = kept;
        proof {
            assert(forall|k: int| 0 <= k < self.clauses.len() ==> (#[trigger] self.clauses[k]).wf());
        }
    }
}

} // verus!
