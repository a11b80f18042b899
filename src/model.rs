use vstd::prelude::*;
use vstd::arithmetic::power2::{pow2, lemma_pow2_adds, lemma_pow2_unfold};
use vstd::set_lib::lemma_len_subset;
use crate::formula::{
    ClauseView, FormulaView, PbLiteral, all_hold, clause_holds, clause_vars, formula_wf, has_false_clause,
    is_false_clause, lit_vars, sat_sum,
};

verus! {

/// Number of assignments to the variables `s`, each extending `a`, under
/// which every clause of `cs` holds.
pub open spec fn count_over(s: Set<u32>, a: Map<u32, bool>, cs: Seq<ClauseView>) -> nat
    decreases s.len(),
    when s.finite()
{
    if s.len() == 0 {
        if all_hold(cs, a) {
            1
        } else {
            0
        }
    } else {
        let v = s.choose();
        count_over(s.remove(v), a.insert(v, true), cs) + count_over(s.remove(v), a.insert(v, false), cs)
    }
}

/// The number of assignments to the `f.n` free variables of `f` under which
/// every clause holds: the variables that no clause mentions are free either way.
pub open spec fn model_count(f: FormulaView) -> nat {
    let vs = clause_vars(f.clauses);
    pow2((f.n - vs.len()) as nat) * count_over(vs, Map::empty(), f.clauses)
}

pub proof fn lemma_lit_vars_finite(ls: Seq<PbLiteral>)
    ensures
        lit_vars(ls).finite(),
        forall|x: u32| lit_vars(ls).contains(x) <==> exists|j: int| 0 <= j < ls.len() && #[trigger] ls[j].name == x,
    decreases ls.len(),
{
    if ls.len() > 0 {
        lemma_lit_vars_finite(ls.drop_last());
        assert forall|x: u32| lit_vars(ls).contains(x) implies exists|j: int| 0 <= j < ls.len() && #[trigger] ls[j].name == x by {
            if x != ls.last().name {
                let j = choose|j: int| 0 <= j < ls.drop_last().len() && #[trigger] ls.drop_last()[j].name == x;
                assert(ls[j].name == x);
            } else {
                assert(ls[ls.len() - 1].name == x);
            }
        }
        assert forall|x: u32| (exists|j: int| 0 <= j < ls.len() && #[trigger] ls[j].name == x) implies lit_vars(ls).contains(x) by {
            let j = choose|j: int| 0 <= j < ls.len() && #[trigger] ls[j].name == x;
            if j < ls.len() - 1 {
                assert(ls.drop_last()[j].name == x);
            }
        }
    }
}

pub proof fn lemma_clause_vars_finite(cs: Seq<ClauseView>)
    ensures
        clause_vars(cs).finite(),
        forall|x: u32| clause_vars(cs).contains(x) <==> exists|i: int| 0 <= i < cs.len() && lit_vars(#[trigger] cs[i].lits).contains(x),
    decreases cs.len(),
{
    if cs.len() > 0 {
        lemma_clause_vars_finite(cs.drop_last());
        lemma_lit_vars_finite(cs.last().lits);
        assert forall|x: u32| clause_vars(cs).contains(x) implies exists|i: int| 0 <= i < cs.len() && lit_vars(#[trigger] cs[i].lits).contains(x) by {
            if !lit_vars(cs.last().lits).contains(x) {
                let i = choose|i: int| 0 <= i < cs.drop_last().len() && lit_vars(#[trigger] cs.drop_last()[i].lits).contains(x);
                assert(lit_vars(cs[i].lits).contains(x));
            } else {
                assert(lit_vars(cs[cs.len() - 1].lits).contains(x));
            }
        }
        assert forall|x: u32| (exists|i: int| 0 <= i < cs.len() && lit_vars(#[trigger] cs[i].lits).contains(x)) implies clause_vars(cs).contains(x) by {
            let i = choose|i: int| 0 <= i < cs.len() && lit_vars(#[trigger] cs[i].lits).contains(x);
            if i < cs.len() - 1 {
                assert(lit_vars(cs.drop_last()[i].lits).contains(x));
            }
        }
    }
}

/// The sum depends only on the values of the literals' own variables.
pub proof fn lemma_sat_sum_agree(ls: Seq<PbLiteral>, a: Map<u32, bool>, b: Map<u32, bool>)
    requires
        forall|x: u32| lit_vars(ls).contains(x) ==> a[x] == b[x],
    ensures
        sat_sum(ls, a) == sat_sum(ls, b),
    decreases ls.len(),
{
    if ls.len() > 0 {
        lemma_sat_sum_agree(ls.drop_last(), a, b);
    }
}

pub proof fn lemma_all_hold_agree(cs: Seq<ClauseView>, a: Map<u32, bool>, b: Map<u32, bool>)
    requires
        forall|x: u32| clause_vars(cs).contains(x) ==> a[x] == b[x],
    ensures
        all_hold(cs, a) == all_hold(cs, b),
{
    lemma_clause_vars_finite(cs);
    assert forall|i: int| 0 <= i < cs.len() implies clause_holds(#[trigger] cs[i], a) == clause_holds(cs[i], b) by {
        assert forall|x: u32| lit_vars(cs[i].lits).contains(x) implies a[x] == b[x] by {
            assert(clause_vars(cs).contains(x));
        }
        lemma_sat_sum_agree(cs[i].lits, a, b);
    }
}

/// Only the values of variables outside `s` that the clauses mention matter.
pub proof fn lemma_count_agree(s: Set<u32>, a: Map<u32, bool>, b: Map<u32, bool>, cs: Seq<ClauseView>)
    requires
        s.finite(),
        forall|x: u32| clause_vars(cs).contains(x) && !s.contains(x) ==> a[x] == b[x],
    ensures
        count_over(s, a, cs) == count_over(s, b, cs),
    decreases s.len(),
{
    if s.len() == 0 {
        lemma_all_hold_agree(cs, a, b);
    } else {
        let v = s.choose();
        lemma_count_agree(s.remove(v), a.insert(v, true), b.insert(v, true), cs);
        lemma_count_agree(s.remove(v), a.insert(v, false), b.insert(v, false), cs);
    }
}

/// Branching on any variable of `s` splits the count into its two halves.
pub proof fn lemma_count_branch(s: Set<u32>, a: Map<u32, bool>, cs: Seq<ClauseView>, v: u32)
    requires
        s.finite(),
        s.contains(v),
    ensures
        count_over(s, a, cs) == count_over(s.remove(v), a.insert(v, true), cs) + count_over(s.remove(v), a.insert(v, false), cs),
    decreases s.len(),
{
    let w = s.choose();
    if w != v {
        let sw = s.remove(w);
        let sv = s.remove(v);
        assert(sw.remove(v) =~= sv.remove(w));
        lemma_count_branch(sw, a.insert(w, true), cs, v);
        lemma_count_branch(sw, a.insert(w, false), cs, v);
        lemma_count_branch(sv, a.insert(v, true), cs, w);
        lemma_count_branch(sv, a.insert(v, false), cs, w);
        assert(a.insert(w, true).insert(v, true) =~= a.insert(v, true).insert(w, true));
        assert(a.insert(w, true).insert(v, false) =~= a.insert(v, false).insert(w, true));
        assert(a.insert(w, false).insert(v, true) =~= a.insert(v, true).insert(w, false));
        assert(a.insert(w, false).insert(v, false) =~= a.insert(v, false).insert(w, false));
    }
}

/// Variables that no clause mentions each double the count.
pub proof fn lemma_count_superset(s: Set<u32>, t: Set<u32>, a: Map<u32, bool>, cs: Seq<ClauseView>)
    requires
        s.finite(),
        t.subset_of(s),
        clause_vars(cs).subset_of(t),
    ensures
        t.finite(),
        t.len() <= s.len(),
        count_over(s, a, cs) == pow2((s.len() - t.len()) as nat) * count_over(t, a, cs),
    decreases s.len(),
{
    lemma_len_subset(t, s);
    if s =~= t {
        assert(pow2(0) == 1) by {
            vstd::arithmetic::power::lemma_pow0(2);
        }
        assert(s == t);
        assert(s.len() - t.len() == 0);
        assert(pow2((s.len() - t.len()) as nat) == 1);
        assert(count_over(s, a, cs) == pow2((s.len() - t.len()) as nat) * count_over(t, a, cs));
    } else {
        let x = choose|x: u32| s.contains(x) && !t.contains(x);
        lemma_count_branch(s, a, cs, x);
        lemma_count_agree(s.remove(x), a.insert(x, true), a, cs);
        lemma_count_agree(s.remove(x), a.insert(x, false), a, cs);
        assert(t.subset_of(s.remove(x)));
        lemma_count_superset(s.remove(x), t, a, cs);
        lemma_len_subset(t, s.remove(x));
        let k = (s.len() - 1 - t.len()) as nat;
        lemma_pow2_unfold(k + 1);
        assert(pow2(k + 1) == 2 * pow2(k));
        assert(s.remove(x).len() == s.len() - 1);
        assert(count_over(s, a, cs) == 2 * count_over(s.remove(x), a, cs));
        assert(count_over(s, a, cs) == 2 * (pow2(k) * count_over(t, a, cs)));
        assert(2 * (pow2(k) * count_over(t, a, cs)) == (2 * pow2(k)) * count_over(t, a, cs)) by (nonlinear_arith);
        assert((s.len() - t.len()) as nat == k + 1);
        assert(count_over(s, a, cs) == pow2((s.len() - t.len()) as nat) * count_over(t, a, cs));
    }
}

/// At most every assignment satisfies.
pub proof fn lemma_count_bound(s: Set<u32>, a: Map<u32, bool>, cs: Seq<ClauseView>)
    requires
        s.finite(),
    ensures
        count_over(s, a, cs) <= pow2(s.len()),
    decreases s.len(),
{
    if s.len() == 0 {
        vstd::arithmetic::power::lemma_pow0(2);
    } else {
        let v = s.choose();
        lemma_count_bound(s.remove(v), a.insert(v, true), cs);
        lemma_count_bound(s.remove(v), a.insert(v, false), cs);
        lemma_pow2_unfold(s.len());
    }
}

/// Counting over equally satisfied clause lists gives the same number, as long
/// as every assignment considered keeps `v` at `b`.
pub proof fn lemma_count_equisat(s: Set<u32>, a: Map<u32, bool>, cs: Seq<ClauseView>, ds: Seq<ClauseView>, v: u32, b: bool)
    requires
        s.finite(),
        !s.contains(v),
        a[v] == b,
        forall|m: Map<u32, bool>| m[v] == b ==> all_hold(cs, m) == all_hold(ds, m),
    ensures
        count_over(s, a, cs) == count_over(s, a, ds),
    decreases s.len(),
{
    if s.len() > 0 {
        let w = s.choose();
        lemma_count_equisat(s.remove(w), a.insert(w, true), cs, ds, v, b);
        lemma_count_equisat(s.remove(w), a.insert(w, false), cs, ds, v, b);
    }
}

/// The model count of a well-formed formula lies in `[0, 2^n]`.
pub proof fn lemma_model_count_range(f: FormulaView)
    requires
        formula_wf(f),
    ensures
        0 <= model_count(f) <= pow2(f.n),
{
    let vs = clause_vars(f.clauses);
    lemma_clause_vars_finite(f.clauses);
    lemma_count_bound(vs, Map::empty(), f.clauses);
    let k = (f.n - vs.len()) as nat;
    lemma_pow2_adds(k, vs.len());
    assert(pow2(k) * count_over(vs, Map::empty(), f.clauses) <= pow2(k) * pow2(vs.len())) by (nonlinear_arith)
        requires count_over(vs, Map::empty(), f.clauses) <= pow2(vs.len());
}

} // verus!

verus! {

/// `m` gives every variable outside `s` the value that `a` gives it.
pub open spec fn agrees_outside(m: Map<u32, bool>, a: Map<u32, bool>, s: Set<u32>) -> bool {
    forall|x: u32| !s.contains(x) ==> m[x] == a[x]
}

/// No assignment counts where none that varies only `s` satisfies the clauses.
pub proof fn lemma_count_unsat(s: Set<u32>, a: Map<u32, bool>, cs: Seq<ClauseView>)
    requires
        s.finite(),
        forall|m: Map<u32, bool>| agrees_outside(m, a, s) ==> !#[trigger] all_hold(cs, m),
    ensures
        count_over(s, a, cs) == 0,
    decreases s.len(),
{
    if s.len() > 0 {
        let v = s.choose();
        assert forall|m: Map<u32, bool>| agrees_outside(m, a.insert(v, true), s.remove(v)) implies agrees_outside(m, a, s) by {}
        assert forall|m: Map<u32, bool>| agrees_outside(m, a.insert(v, false), s.remove(v)) implies agrees_outside(m, a, s) by {}
        lemma_count_unsat(s.remove(v), a.insert(v, true), cs);
        lemma_count_unsat(s.remove(v), a.insert(v, false), cs);
    } else {
        assert(agrees_outside(a, a, s));
    }
}

/// A formula with a false clause has no model.
pub proof fn lemma_false_clause_count(f: FormulaView)
    requires
        has_false_clause(f.clauses),
    ensures
        model_count(f) == 0,
{
    let i = choose|i: int| 0 <= i < f.clauses.len() && is_false_clause(#[trigger] f.clauses[i]);
    assert forall|m: Map<u32, bool>| !all_hold(f.clauses, m) by {
        assert(!clause_holds(f.clauses[i], m));
    }
    lemma_clause_vars_finite(f.clauses);
    lemma_count_unsat(clause_vars(f.clauses), Map::empty(), f.clauses);
}

/// Clauses that mention no variable and none of which is false hold, so every
/// one of the `2^n` assignments counts.
pub proof fn lemma_no_vars_count(f: FormulaView)
    requires
        clause_vars(f.clauses).len() == 0,
        !has_false_clause(f.clauses),
    ensures
        model_count(f) == pow2(f.n),
{
    lemma_clause_vars_finite(f.clauses);
    assert forall|i: int| 0 <= i < f.clauses.len() implies clause_holds(#[trigger] f.clauses[i], Map::empty()) by {
        lemma_lit_vars_finite(f.clauses[i].lits);
        if f.clauses[i].lits.len() > 0 {
            assert(lit_vars(f.clauses[i].lits).contains(f.clauses[i].lits[0].name));
            assert(clause_vars(f.clauses).contains(f.clauses[i].lits[0].name));
        }
        assert(!is_false_clause(f.clauses[i]));
    }
    assert(all_hold(f.clauses, Map::empty()));
    assert(count_over(clause_vars(f.clauses), Map::empty(), f.clauses) == 1);
    assert((f.n - clause_vars(f.clauses).len()) as nat == f.n);
}

/// Without clauses every one of the `2^n` assignments counts.
pub proof fn lemma_no_clauses_count(n: nat)
    ensures
        model_count(FormulaView { n, clauses: Seq::empty() }) == pow2(n),
{
    let f = FormulaView { n, clauses: Seq::empty() };
    assert(clause_vars(f.clauses) =~= Set::<u32>::empty());
    assert(!has_false_clause(f.clauses));
    lemma_no_vars_count(f);
}

} // verus!
