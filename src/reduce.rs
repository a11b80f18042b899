use vstd::prelude::*;
use vstd::arithmetic::power2::{pow2, lemma_pow2_adds};
use vstd::set_lib::lemma_len_subset;
use crate::formula::{
    Clause, ClauseView, FormulaView, PBFormula, PbLiteral, all_hold, clause_fits, clause_holds,
    clause_vars, factor_sum, formula_wf, has_false_clause, is_false_clause, lemma_factor_sum_prefix,
    lit_vars, positive_factors, sat_sum,
};
use crate::model::{
    count_over, lemma_clause_vars_finite, lemma_count_agree, lemma_count_branch, lemma_count_equisat,
    lemma_count_superset, model_count,
};

verus! {

/// The literals that are not over variable `v`, in their order.
pub open spec fn remove_var(ls: Seq<PbLiteral>, v: u32) -> Seq<PbLiteral>
    decreases ls.len(),
{
    if ls.len() == 0 {
        Seq::empty()
    } else if ls.last().name == v {
        remove_var(ls.drop_last(), v)
    } else {
        remove_var(ls.drop_last(), v).push(ls.last())
    }
}

/// What setting `v` to `b` contributes: the factors of the literals over `v`
/// that then hold.
pub open spec fn gain(ls: Seq<PbLiteral>, v: u32, b: bool) -> int
    decreases ls.len(),
{
    if ls.len() == 0 {
        0
    } else {
        gain(ls.drop_last(), v, b) + if ls.last().name == v && ls.last().pos == b {
            ls.last().factor as int
        } else {
            0
        }
    }
}

/// The canonical clause that nothing satisfies.
pub open spec fn false_clause() -> ClauseView {
    ClauseView { rhs: 1, lits: Seq::empty() }
}

/// A clause with `v` set to `b`: the literal goes, the threshold drops by what
/// it contributed, and a clause that can no longer be met becomes the false clause.
pub open spec fn reduce_clause(c: ClauseView, v: u32, b: bool) -> ClauseView {
    let ls = remove_var(c.lits, v);
    let rhs = c.rhs - gain(c.lits, v, b);
    if factor_sum(ls) < rhs {
        false_clause()
    } else {
        ClauseView { rhs, lits: ls }
    }
}

/// Clauses without `v` stay as they are; the others are reduced, and dropped
/// where nothing is left of them to meet.
pub open spec fn reduce_clauses(cs: Seq<ClauseView>, v: u32, b: bool) -> Seq<ClauseView>
    decreases cs.len(),
{
    if cs.len() == 0 {
        Seq::empty()
    } else {
        let r = reduce_clauses(cs.drop_last(), v, b);
        let c = cs.last();
        if !lit_vars(c.lits).contains(v) {
            r.push(c)
        } else {
            let d = reduce_clause(c, v, b);
            if d.lits.len() == 0 && d.rhs <= 0 {
                r
            } else {
                r.push(d)
            }
        }
    }
}

/// The formula with variable `v` set to `b`: one free variable fewer.
pub open spec fn reduce(f: FormulaView, v: u32, b: bool) -> FormulaView {
    FormulaView { n: (f.n - 1) as nat, clauses: reduce_clauses(f.clauses, v, b) }
}

proof fn lemma_remove_var_parts(ls: Seq<PbLiteral>, v: u32, a: Map<u32, bool>)
    requires
        positive_factors(ls),
    ensures
        sat_sum(ls, a) == sat_sum(remove_var(ls, v), a) + gain(ls, v, a[v]),
        factor_sum(ls) == factor_sum(remove_var(ls, v)) + gain(ls, v, true) + gain(ls, v, false),
        gain(ls, v, true) >= 0,
        gain(ls, v, false) >= 0,
        0 <= sat_sum(remove_var(ls, v), a) <= factor_sum(remove_var(ls, v)),
        positive_factors(remove_var(ls, v)),
        lit_vars(remove_var(ls, v)).subset_of(lit_vars(ls).remove(v)),
    decreases ls.len(),
{
    if ls.len() > 0 {
        let p = ls.drop_last();
        assert(positive_factors(p)) by {
            assert forall|i: int| 0 <= i < p.len() implies #[trigger] p[i].factor > 0 by {
                assert(p[i] == ls[i]);
            }
        }
        lemma_remove_var_parts(p, v, a);
        assert(ls.last().factor > 0) by {
            assert(ls[ls.len() - 1].factor > 0);
        }
        if ls.last().name != v {
            let r = remove_var(p, v);
            assert(r.push(ls.last()).drop_last() =~= r);
            assert forall|i: int| 0 <= i < r.push(ls.last()).len() implies #[trigger] r.push(ls.last())[i].factor > 0 by {
                if i < r.len() {
                    assert(r.push(ls.last())[i] == r[i]);
                }
            }
        }
    }
}

/// Setting `v` to `b` keeps the meaning of the clause under every assignment
/// that gives `v` the value `b`.
pub proof fn lemma_reduce_clause_holds(c: ClauseView, v: u32, b: bool, a: Map<u32, bool>)
    requires
        clause_fits(c.rhs, c.lits),
        a[v] == b,
    ensures
        clause_holds(reduce_clause(c, v, b), a) == clause_holds(c, a),
        clause_fits(reduce_clause(c, v, b).rhs, reduce_clause(c, v, b).lits),
        lit_vars(reduce_clause(c, v, b).lits).subset_of(lit_vars(c.lits).remove(v)),
{
    lemma_remove_var_parts(c.lits, v, a);
    let d = reduce_clause(c, v, b);
    if factor_sum(remove_var(c.lits, v)) < c.rhs - gain(c.lits, v, b) {
        assert(d.lits =~= Seq::<PbLiteral>::empty());
        assert(lit_vars(d.lits) =~= Set::<u32>::empty());
    }
}

proof fn lemma_reduce_clauses(cs: Seq<ClauseView>, v: u32, b: bool)
    requires
        forall|i: int| 0 <= i < cs.len() ==> clause_fits(#[trigger] cs[i].rhs, cs[i].lits),
    ensures
        forall|a: Map<u32, bool>| a[v] == b ==> all_hold(reduce_clauses(cs, v, b), a) == all_hold(cs, a),
        forall|i: int| 0 <= i < reduce_clauses(cs, v, b).len() ==> clause_fits(#[trigger] reduce_clauses(cs, v, b)[i].rhs, reduce_clauses(cs, v, b)[i].lits),
        clause_vars(reduce_clauses(cs, v, b)).subset_of(clause_vars(cs).remove(v)),
    decreases cs.len(),
{
    if cs.len() > 0 {
        let p = cs.drop_last();
        let c = cs.last();
        assert(clause_fits(c.rhs, c.lits)) by {
            assert(cs[cs.len() - 1] == c);
        }
        assert forall|i: int| 0 <= i < p.len() implies clause_fits(#[trigger] p[i].rhs, p[i].lits) by {
            assert(p[i] == cs[i]);
        }
        lemma_reduce_clauses(p, v, b);
        let r = reduce_clauses(p, v, b);
        let d = if !lit_vars(c.lits).contains(v) { c } else { reduce_clause(c, v, b) };
        lemma_reduce_clause_holds(c, v, b, Map::empty().insert(v, b));
        assert forall|a: Map<u32, bool>| a[v] == b implies all_hold(reduce_clauses(cs, v, b), a) == all_hold(cs, a) by {
            lemma_reduce_clause_holds(c, v, b, a);
            assert(all_hold(cs, a) == (all_hold(p, a) && clause_holds(c, a))) by {
                if all_hold(p, a) && clause_holds(c, a) {
                    assert forall|i: int| 0 <= i < cs.len() implies clause_holds(#[trigger] cs[i], a) by {
                        if i < p.len() {
                            assert(cs[i] == p[i]);
                        }
                    }
                }
                if all_hold(cs, a) {
                    assert(clause_holds(cs[cs.len() - 1], a));
                    assert forall|i: int| 0 <= i < p.len() implies clause_holds(#[trigger] p[i], a) by {
                        assert(cs[i] == p[i]);
                    }
                }
            }
            if !(d.lits.len() == 0 && d.rhs <= 0) || !lit_vars(c.lits).contains(v) {
                let q = r.push(d);
                assert(all_hold(q, a) == (all_hold(r, a) && clause_holds(d, a))) by {
                    if all_hold(r, a) && clause_holds(d, a) {
                        assert forall|i: int| 0 <= i < q.len() implies clause_holds(#[trigger] q[i], a) by {
                            if i < r.len() {
                                assert(q[i] == r[i]);
                            }
                        }
                    }
                    if all_hold(q, a) {
                        assert(clause_holds(q[q.len() - 1], a));
                        assert forall|i: int| 0 <= i < r.len() implies clause_holds(#[trigger] r[i], a) by {
                            assert(q[i] == r[i]);
                        }
                    }
                }
            } else {
                assert(sat_sum(d.lits, a) == 0);
            }
        }
        lemma_reduce_clause_holds(c, v, b, Map::empty().insert(v, b));
        if !lit_vars(c.lits).contains(v) || !(d.lits.len() == 0 && d.rhs <= 0) {
            let q = r.push(d);
            assert(q.drop_last() =~= r);
            assert forall|i: int| 0 <= i < q.len() implies clause_fits(#[trigger] q[i].rhs, q[i].lits) by {
                if i < r.len() {
                    assert(q[i] == r[i]);
                }
            }
        } else {
            assert(d.lits =~= Seq::<PbLiteral>::empty());
        }
    }
}

/// Setting `v` to `b` in a formula that mentions `v`: the residual formula is
/// well formed, and it counts exactly the assignments with `v == b`.
pub proof fn lemma_reduce_count(f: FormulaView, v: u32, b: bool)
    requires
        formula_wf(f),
        clause_vars(f.clauses).contains(v),
    ensures
        formula_wf(reduce(f, v, b)),
        clause_vars(reduce(f, v, b).clauses).subset_of(clause_vars(f.clauses).remove(v)),
        model_count(reduce(f, v, b)) == pow2((f.n - clause_vars(f.clauses).len()) as nat)
            * count_over(clause_vars(f.clauses).remove(v), Map::empty().insert(v, b), f.clauses),
{
    let cs = f.clauses;
    let vs = clause_vars(cs);
    let ds = reduce_clauses(cs, v, b);
    let ws = clause_vars(ds);
    let e = Map::<u32, bool>::empty();
    lemma_clause_vars_finite(cs);
    lemma_clause_vars_finite(ds);
    lemma_reduce_clauses(cs, v, b);
    lemma_len_subset(ws, vs.remove(v));
    let s = vs.remove(v);
    lemma_count_equisat(s, e.insert(v, b), cs, ds, v, b);
    lemma_count_agree(s, e.insert(v, b), e, ds);
    lemma_count_superset(s, ws, e, ds);
    let k1 = (f.n - vs.len()) as nat;
    let k2 = (s.len() - ws.len()) as nat;
    lemma_pow2_adds(k1, k2);
    assert((f.n - 1 - ws.len()) as nat == k1 + k2);
    assert(pow2(k1) * (pow2(k2) * count_over(ws, e, ds)) == (pow2(k1) * pow2(k2)) * count_over(ws, e, ds)) by (nonlinear_arith);
}

/// Branching: the count of a formula is the sum of the counts of its two
/// reductions on any variable that it mentions.
pub proof fn lemma_branch(f: FormulaView, v: u32)
    requires
        formula_wf(f),
        clause_vars(f.clauses).contains(v),
    ensures
        model_count(f) == model_count(reduce(f, v, true)) + model_count(reduce(f, v, false)),
{
    let vs = clause_vars(f.clauses);
    lemma_clause_vars_finite(f.clauses);
    lemma_count_branch(vs, Map::empty(), f.clauses, v);
    lemma_reduce_count(f, v, true);
    lemma_reduce_count(f, v, false);
    let p = pow2((f.n - vs.len()) as nat);
    let x = count_over(vs.remove(v), Map::empty().insert(v, true), f.clauses);
    let y = count_over(vs.remove(v), Map::empty().insert(v, false), f.clauses);
    assert(p * (x + y) == p * x + p * y) by (nonlinear_arith);
}

/// The clause forces variable `v` to `b`: it has a literal over `v` with
/// polarity `b` without which its other literals cannot reach its threshold.
pub open spec fn clause_forces(c: ClauseView, v: u32, b: bool) -> bool {
    exists|j: int|
        0 <= j < c.lits.len() && #[trigger] c.lits[j].name == v && c.lits[j].pos == b && factor_sum(c.lits) - c.lits[j].factor
            < c.rhs
}

proof fn lemma_remove_var_keeps(ls: Seq<PbLiteral>, v: u32, j: int)
    requires
        0 <= j < ls.len(),
        ls[j].name != v,
    ensures
        exists|k: int| 0 <= k < remove_var(ls, v).len() && remove_var(ls, v)[k] == ls[j],
    decreases ls.len(),
{
    let p = ls.drop_last();
    if j < ls.len() - 1 {
        assert(p[j] == ls[j]);
        lemma_remove_var_keeps(p, v, j);
        let k = choose|k: int| 0 <= k < remove_var(p, v).len() && remove_var(p, v)[k] == p[j];
        if ls.last().name != v {
            assert(remove_var(ls, v) == remove_var(p, v).push(ls.last()));
            assert(remove_var(ls, v)[k] == remove_var(p, v)[k]);
        } else {
            assert(remove_var(ls, v) == remove_var(p, v));
        }
        assert(remove_var(ls, v)[k] == ls[j]);
    } else {
        assert(remove_var(ls, v) == remove_var(p, v).push(ls.last()));
        assert(remove_var(ls, v)[remove_var(ls, v).len() - 1] == ls[j]);
    }
}

proof fn lemma_gain_member(ls: Seq<PbLiteral>, v: u32, b: bool, j: int)
    requires
        positive_factors(ls),
        0 <= j < ls.len(),
        ls[j].name == v,
        ls[j].pos == b,
    ensures
        gain(ls, v, b) >= ls[j].factor,
    decreases ls.len(),
{
    let p = ls.drop_last();
    assert(positive_factors(p)) by {
        assert forall|i: int| 0 <= i < p.len() implies #[trigger] p[i].factor > 0 by {
            assert(p[i] == ls[i]);
        }
    }
    lemma_remove_var_parts(p, v, Map::empty());
    if j < ls.len() - 1 {
        assert(p[j] == ls[j]);
        lemma_gain_member(p, v, b, j);
        assert(ls[ls.len() - 1].factor > 0);
    }
}

/// A clause that forces another variable than the one set still forces it,
/// unless it has become the false clause.
pub proof fn lemma_forces_after(c: ClauseView, w: u32, bw: bool, u: u32, bu: bool)
    requires
        clause_fits(c.rhs, c.lits),
        clause_forces(c, u, bu),
        u != w,
    ensures
        reduce_clause(c, w, bw) == false_clause() || clause_forces(reduce_clause(c, w, bw), u, bu),
        reduce_clause(c, w, bw).lits.len() > 0 || reduce_clause(c, w, bw).rhs > 0,
{
    let j = choose|j: int|
        0 <= j < c.lits.len() && #[trigger] c.lits[j].name == u && c.lits[j].pos == bu && factor_sum(c.lits) - c.lits[j].factor
            < c.rhs;
    lemma_remove_var_parts(c.lits, w, Map::empty());
    lemma_remove_var_keeps(c.lits, w, j);
    let ls = remove_var(c.lits, w);
    let k = choose|k: int| 0 <= k < ls.len() && ls[k] == c.lits[j];
    let d = reduce_clause(c, w, bw);
    if factor_sum(ls) >= c.rhs - gain(c.lits, w, bw) {
        assert(d.lits[k].name == u && d.lits[k].pos == bu);
        assert(clause_forces(d, u, bu));
    }
}

/// A clause that forces `v` to the other value becomes the false clause when
/// `v` is set to `b`.
pub proof fn lemma_forces_conflict(c: ClauseView, v: u32, b: bool)
    requires
        clause_fits(c.rhs, c.lits),
        clause_forces(c, v, !b),
    ensures
        reduce_clause(c, v, b) == false_clause(),
        lit_vars(c.lits).contains(v),
{
    let j = choose|j: int|
        0 <= j < c.lits.len() && #[trigger] c.lits[j].name == v && c.lits[j].pos == !b && factor_sum(c.lits) - c.lits[j].factor
            < c.rhs;
    lemma_remove_var_parts(c.lits, v, Map::empty());
    lemma_gain_member(c.lits, v, !b, j);
    crate::model::lemma_lit_vars_finite(c.lits);
    if b {
        assert(gain(c.lits, v, false) >= c.lits[j].factor);
    } else {
        assert(gain(c.lits, v, true) >= c.lits[j].factor);
    }
}

/// A clause without `v` stays among the reduced clauses, and so does the
/// reduced form of a clause with `v`, unless nothing of it is left to meet.
pub proof fn lemma_reduce_clauses_keeps(cs: Seq<ClauseView>, v: u32, b: bool, c: ClauseView)
    requires
        cs.contains(c),
    ensures
        !lit_vars(c.lits).contains(v) ==> reduce_clauses(cs, v, b).contains(c),
        lit_vars(c.lits).contains(v) && !(reduce_clause(c, v, b).lits.len() == 0 && reduce_clause(c, v, b).rhs <= 0)
            ==> reduce_clauses(cs, v, b).contains(reduce_clause(c, v, b)),
    decreases cs.len(),
{
    let p = cs.drop_last();
    let r = reduce_clauses(p, v, b);
    if cs.last() == c {
        let q = reduce_clauses(cs, v, b);
        if !lit_vars(c.lits).contains(v) {
            assert(q[q.len() - 1] == c);
        } else if !(reduce_clause(c, v, b).lits.len() == 0 && reduce_clause(c, v, b).rhs <= 0) {
            assert(q[q.len() - 1] == reduce_clause(c, v, b));
        }
    } else {
        let i = choose|i: int| 0 <= i < cs.len() && cs[i] == c;
        assert(i < cs.len() - 1);
        assert(p[i] == c);
        lemma_reduce_clauses_keeps(p, v, b, c);
        let q = reduce_clauses(cs, v, b);
        if r.contains(c) {
            let k = choose|k: int| 0 <= k < r.len() && r[k] == c;
            assert(q[k] == r[k]);
        }
        if r.contains(reduce_clause(c, v, b)) {
            let k = choose|k: int| 0 <= k < r.len() && r[k] == reduce_clause(c, v, b);
            assert(q[k] == r[k]);
        }
    }
}

impl Clause {
    /// A fresh clause with the same meaning.
    pub fn copy(&self) -> (r: Clause)
        requires
            self.wf(),
        ensures
            r.wf(),
            r@ == self@,
    {
        let mut lits: Vec<PbLiteral> = Vec::new();
        let mut i: usize = 0;
        while i < self.literals.len()
            invariant
                0 <= i <= self.literals.len(),
                lits@ == self.literals@.take(i as int),
            decreases self.literals.len() - i,
        {
            lits.push(self.literals[i]);
            i = i + 1;
            assert(lits@ =~= self.literals@.take(i as int));
        }
        assert(lits@ =~= self.literals@);
        Clause::new(self.rhs, lits)
    }

    /// The clause with variable `literal_index` set to `take`.
    fn reduced(&self, literal_index: u32, take: bool) -> (r: Clause)
        requires
            self.wf(),
        ensures
            r.wf(),
            r@ == reduce_clause(self@, literal_index, take),
    {
        let ghost ls = self.literals@;
        let mut lits: Vec<PbLiteral> = Vec::new();
        let mut rhs: i32 = self.rhs;
        let mut sum: i32 = 0;
        let mut i: usize = 0;
        proof {
            lemma_factor_sum_prefix(ls, 0);
            assert(ls.take(0) =~= Seq::<PbLiteral>::empty());
        }
        while i < self.literals.len()
            invariant
                self.wf(),
                ls == self.literals@,
                0 <= i <= ls.len(),
                lits@ == remove_var(ls.take(i as int), literal_index),
                rhs == self.rhs - gain(ls.take(i as int), literal_index, take),
                sum == factor_sum(lits@),
                positive_factors(lits@),
                factor_sum(lits@) + gain(ls.take(i as int), literal_index, true)
                    + gain(ls.take(i as int), literal_index, false) <= factor_sum(ls),
                gain(ls.take(i as int), literal_index, true) >= 0,
                gain(ls.take(i as int), literal_index, false) >= 0,
            decreases ls.len() - i,
        {
            let l = self.literals[i];
            proof {
                let t = ls.take(i as int + 1);
                assert(t.drop_last() =~= ls.take(i as int));
                assert(positive_factors(ls));
                assert(ls[i as int].factor > 0);
                assert(positive_factors(t)) by {
                    assert forall|k: int| 0 <= k < t.len() implies #[trigger] t[k].factor > 0 by {
                        assert(t[k] == ls[k]);
                    }
                }
                lemma_remove_var_parts(t, literal_index, Map::empty());
                lemma_factor_sum_prefix(ls, i as int + 1);
            }
            if l.name == literal_index {
                if l.pos == take {
                    rhs = rhs - l.factor;
                }
            } else {
                proof {
                    assert(lits@.push(l).drop_last() =~= lits@);
                }
                sum = sum + l.factor;
                lits.push(l);
            }
            i = i + 1;
        }
        assert(ls.take(i as int) =~= ls);
        if sum < rhs {
            Clause::new(1, Vec::new())
        } else {
            Clause::new(rhs, lits)
        }
    }
}

impl PBFormula {
    /// Whether some clause has no literals left and a positive threshold.
    pub fn contains_false_clause(&self) -> (r: bool)
        ensures
            r == has_false_clause(self@.clauses),
    {
        let mut i: usize = 0;
        while i < self.clauses.len()
            invariant
                0 <= i <= self.clauses.len(),
                forall|k: int| 0 <= k < i ==> !is_false_clause(#[trigger] self@.clauses[k]),
            decreases self.clauses.len() - i,
        {
            if self.clauses[i].literals.len() == 0 && self.clauses[i].rhs > 0 {
                assert(is_false_clause(self@.clauses[i as int]));
                return true;
            }
            i = i + 1;
        }
        false
    }

    /// The residual formula with variable `literal_index` set to `take`.
    pub fn get_sub_formula(&self, literal_index: u32, take: bool) -> (r: PBFormula)
        requires
            self.wf(),
            clause_vars(self@.clauses).contains(literal_index),
        ensures
            r.wf(),
            r@ == reduce(self@, literal_index, take),
            r.n == self.n - 1,
            clause_vars(r@.clauses).subset_of(clause_vars(self@.clauses).remove(literal_index)),
    {
        proof {
            lemma_reduce_count(self@, literal_index, take);
            lemma_clause_vars_finite(self@.clauses);
            assert(clause_vars(self@.clauses).len() > 0) by {
                assert(clause_vars(self@.clauses).remove(literal_index).len() + 1 == clause_vars(self@.clauses).len());
            }
        }
        let ghost cs = self@.clauses;
        let mut clauses: Vec<Clause> = Vec::new();
        let mut i: usize = 0;
        while i < self.clauses.len()
            invariant
                self.wf(),
                cs == self@.clauses,
                0 <= i <= self.clauses.len(),
                clauses@.map_values(|c: Clause| c@) == reduce_clauses(cs.take(i as int), literal_index, take),
                forall|k: int| 0 <= k < clauses.len() ==> (#[trigger] clauses[k]).wf(),
            decreases self.clauses.len() - i,
        {
            let c = &self.clauses[i];
            proof {
                assert(cs.take(i as int + 1).drop_last() =~= cs.take(i as int));
                assert(cs.take(i as int + 1).last() == c@);
            }
            let ghost before = clauses@;
            if c.contains(literal_index) {
                let d = c.reduced(literal_index, take);
                if !(d.literals.len() == 0 && d.rhs <= 0) {
                    clauses.push(d);
                }
            } else {
                clauses.push(c.copy());
            }
            proof {
                if clauses@.len() > before.len() {
                    assert(clauses@ == before.push(clauses@.last()));
                    assert(clauses@.map_values(|c: Clause| c@) =~= before.map_values(|c: Clause| c@).push(clauses@.last()@));
                }
            }
            i = i + 1;
        }
        proof {
            assert(cs.take(i as int) =~= cs);
        }
        let r = PBFormula { n: self.n - 1, clauses };
        assert(r@.clauses == reduce(self@, literal_index, take).clauses);
        r
    }
}

} // verus!
