use vstd::prelude::*;
use vstd::arithmetic::power2::{pow2, lemma_pow2_adds};
use vstd::set_lib::{lemma_len_subset, lemma_set_disjoint_lens};
use vstd::seq_lib::{lemma_multiset_commutative, to_multiset_build, to_multiset_contains, to_multiset_len, to_multiset_remove};
use crate::formula::{
    Clause, ClauseView, FormulaView, PBFormula, PbLiteral, all_hold, clause_holds, clause_vars, lit_vars, sat_sum,
};
use crate::model::{
    agrees_outside, count_over, lemma_lit_vars_finite, lemma_clause_vars_finite, lemma_count_agree, lemma_count_branch, lemma_count_unsat,
    model_count,
};

verus! {

/// The clauses of all parts, one part after another.
pub open spec fn flatten(ps: Seq<FormulaView>) -> Seq<ClauseView>
    decreases ps.len(),
{
    if ps.len() == 0 {
        Seq::empty()
    } else {
        flatten(ps.drop_last()) + ps.last().clauses
    }
}

/// The variables of all parts.
pub open spec fn union_vars(ps: Seq<FormulaView>) -> Set<u32>
    decreases ps.len(),
{
    if ps.len() == 0 {
        Set::empty()
    } else {
        union_vars(ps.drop_last()).union(clause_vars(ps.last().clauses))
    }
}

/// Total of the parts' free variables.
pub open spec fn sum_n(ps: Seq<FormulaView>) -> nat
    decreases ps.len(),
{
    if ps.len() == 0 {
        0
    } else {
        sum_n(ps.drop_last()) + ps.last().n
    }
}

/// Product of the parts' model counts.
pub open spec fn product_of_counts(ps: Seq<FormulaView>) -> nat
    decreases ps.len(),
{
    if ps.len() == 0 {
        1
    } else {
        product_of_counts(ps.drop_last()) * model_count(ps.last())
    }
}

pub open spec fn pairwise_disjoint(ps: Seq<FormulaView>) -> bool {
    forall|i: int, j: int|
        0 <= i < ps.len() && 0 <= j < ps.len() && i != j ==> clause_vars(#[trigger] ps[i].clauses).disjoint(
            clause_vars(#[trigger] ps[j].clauses),
        )
}

/// `ps` splits `f` into independent parts: no two parts share a variable,
/// together they impose exactly the constraints of `f` over exactly its
/// variables, and each part has room for its own variables.
pub open spec fn is_split(f: FormulaView, ps: Seq<FormulaView>) -> bool {
    &&& pairwise_disjoint(ps)
    &&& forall|m: Map<u32, bool>| #[trigger] all_hold(f.clauses, m) == all_hold(flatten(ps), m)
    &&& clause_vars(f.clauses) == union_vars(ps)
    &&& forall|i: int| 0 <= i < ps.len() ==> clause_vars(#[trigger] ps[i].clauses).len() <= ps[i].n
    &&& sum_n(ps) <= f.n
}

pub proof fn lemma_all_hold_append(a: Seq<ClauseView>, b: Seq<ClauseView>, m: Map<u32, bool>)
    ensures
        all_hold(a + b, m) == (all_hold(a, m) && all_hold(b, m)),
{
    if all_hold(a + b, m) {
        assert forall|i: int| 0 <= i < a.len() implies clause_holds(#[trigger] a[i], m) by {
            assert((a + b)[i] == a[i]);
        }
        assert forall|i: int| 0 <= i < b.len() implies clause_holds(#[trigger] b[i], m) by {
            assert((a + b)[a.len() + i] == b[i]);
        }
    }
    if all_hold(a, m) && all_hold(b, m) {
        assert forall|i: int| 0 <= i < (a + b).len() implies clause_holds(#[trigger] (a + b)[i], m) by {
            if i < a.len() {
                assert((a + b)[i] == a[i]);
            } else {
                assert((a + b)[i] == b[i - a.len()]);
            }
        }
    }
}

pub proof fn lemma_clause_vars_append(a: Seq<ClauseView>, b: Seq<ClauseView>)
    ensures
        clause_vars(a + b) == clause_vars(a).union(clause_vars(b)),
    decreases b.len(),
{
    if b.len() == 0 {
        assert(a + b =~= a);
        assert(clause_vars(a).union(clause_vars(b)) =~= clause_vars(a));
    } else {
        assert((a + b).drop_last() =~= a + b.drop_last());
        lemma_clause_vars_append(a, b.drop_last());
        assert(clause_vars(a + b) =~= clause_vars(a).union(clause_vars(b)));
    }
}

/// Counting over clause lists that every assignment varying only `s` satisfies
/// alike gives the same number.
pub proof fn lemma_count_same_sat(s: Set<u32>, a: Map<u32, bool>, cs: Seq<ClauseView>, ds: Seq<ClauseView>)
    requires
        s.finite(),
        forall|m: Map<u32, bool>| agrees_outside(m, a, s) ==> #[trigger] all_hold(cs, m) == all_hold(ds, m),
    ensures
        count_over(s, a, cs) == count_over(s, a, ds),
    decreases s.len(),
{
    if s.len() > 0 {
        let w = s.choose();
        assert forall|m: Map<u32, bool>| agrees_outside(m, a.insert(w, true), s.remove(w)) implies agrees_outside(m, a, s) by {}
        assert forall|m: Map<u32, bool>| agrees_outside(m, a.insert(w, false), s.remove(w)) implies agrees_outside(m, a, s) by {}
        lemma_count_same_sat(s.remove(w), a.insert(w, true), cs, ds);
        lemma_count_same_sat(s.remove(w), a.insert(w, false), cs, ds);
    } else {
        assert(agrees_outside(a, a, s));
        assert(all_hold(cs, a) == all_hold(ds, a));
    }
}

/// Clauses over disjoint variables are counted independently.
pub proof fn lemma_count_product(s1: Set<u32>, s2: Set<u32>, a: Map<u32, bool>, cs1: Seq<ClauseView>, cs2: Seq<ClauseView>)
    requires
        s1.finite(),
        s2.finite(),
        s1.disjoint(s2),
        clause_vars(cs1).disjoint(s2),
        clause_vars(cs2).disjoint(s1),
    ensures
        count_over(s1.union(s2), a, cs1 + cs2) == count_over(s1, a, cs1) * count_over(s2, a, cs2),
    decreases s1.len(),
{
    if s1.len() == 0 {
        assert(s1.union(s2) =~= s2);
        assert forall|m: Map<u32, bool>| agrees_outside(m, a, s2) implies #[trigger] all_hold(cs1, m) == all_hold(cs1, a) by {
            crate::model::lemma_all_hold_agree(cs1, m, a);
        }
        if all_hold(cs1, a) {
            assert forall|m: Map<u32, bool>| agrees_outside(m, a, s2) implies #[trigger] all_hold(cs1 + cs2, m) == all_hold(cs2, m) by {
                lemma_all_hold_append(cs1, cs2, m);
                assert(all_hold(cs1, m) == all_hold(cs1, a));
            }
            lemma_count_same_sat(s2, a, cs1 + cs2, cs2);
            assert(count_over(s1, a, cs1) == 1);
            let y = count_over(s2, a, cs2);
            assert(y == 1 * y);
            assert(count_over(s1.union(s2), a, cs1 + cs2) == count_over(s1, a, cs1) * count_over(s2, a, cs2));
        } else {
            assert forall|m: Map<u32, bool>| agrees_outside(m, a, s2) implies !#[trigger] all_hold(cs1 + cs2, m) by {
                lemma_all_hold_append(cs1, cs2, m);
                assert(all_hold(cs1, m) == all_hold(cs1, a));
            }
            lemma_count_unsat(s2, a, cs1 + cs2);
            assert(count_over(s1, a, cs1) == 0);
            assert(count_over(s2, a, cs1 + cs2) == 0);
            assert(s1.union(s2) == s2);
            let y = count_over(s2, a, cs2);
            assert(0 * y == 0);
            assert(count_over(s1.union(s2), a, cs1 + cs2) == count_over(s1, a, cs1) * count_over(s2, a, cs2));
        }
    } else {
        let v = s1.choose();
        let u = s1.union(s2);
        lemma_count_branch(u, a, cs1 + cs2, v);
        assert(u.remove(v) =~= s1.remove(v).union(s2));
        lemma_count_product(s1.remove(v), s2, a.insert(v, true), cs1, cs2);
        lemma_count_product(s1.remove(v), s2, a.insert(v, false), cs1, cs2);
        lemma_count_agree(s2, a.insert(v, true), a, cs2);
        lemma_count_agree(s2, a.insert(v, false), a, cs2);
        let x1 = count_over(s1.remove(v), a.insert(v, true), cs1);
        let x2 = count_over(s1.remove(v), a.insert(v, false), cs1);
        let y = count_over(s2, a, cs2);
        assert(x1 * y + x2 * y == (x1 + x2) * y) by (nonlinear_arith);
        assert(count_over(s1, a, cs1) == x1 + x2);
        assert(count_over(u, a, cs1 + cs2) == x1 * y + x2 * y);
        let z = count_over(s1, a, cs1);
        assert(count_over(u, a, cs1 + cs2) == z * y) by (nonlinear_arith)
            requires
                count_over(u, a, cs1 + cs2) == x1 * y + x2 * y,
                z == x1 + x2,
        ;
    }
}

/// Product of the parts' counts over their own variables.
pub open spec fn product_over_parts(ps: Seq<FormulaView>) -> nat
    decreases ps.len(),
{
    if ps.len() == 0 {
        1
    } else {
        product_over_parts(ps.drop_last()) * count_over(clause_vars(ps.last().clauses), Map::empty(), ps.last().clauses)
    }
}

/// Sum of the numbers of variables of the parts.
pub open spec fn sum_vars(ps: Seq<FormulaView>) -> nat
    decreases ps.len(),
{
    if ps.len() == 0 {
        0
    } else {
        sum_vars(ps.drop_last()) + clause_vars(ps.last().clauses).len()
    }
}

proof fn lemma_parts(ps: Seq<FormulaView>)
    requires
        pairwise_disjoint(ps),
    ensures
        union_vars(ps).finite(),
        union_vars(ps).len() == sum_vars(ps),
        clause_vars(flatten(ps)) == union_vars(ps),
        count_over(union_vars(ps), Map::empty(), flatten(ps)) == product_over_parts(ps),
    decreases ps.len(),
{
    if ps.len() == 0 {
        assert(clause_vars(Seq::<ClauseView>::empty()) =~= Set::<u32>::empty());
    } else {
        let p = ps.drop_last();
        let l = ps.last();
        assert(pairwise_disjoint(p)) by {
            assert forall|i: int, j: int| 0 <= i < p.len() && 0 <= j < p.len() && i != j implies clause_vars(
                #[trigger] p[i].clauses,
            ).disjoint(clause_vars(#[trigger] p[j].clauses)) by {
                assert(p[i] == ps[i] && p[j] == ps[j]);
            }
        }
        lemma_parts(p);
        lemma_clause_vars_finite(l.clauses);
        lemma_clause_vars_append(flatten(p), l.clauses);
        assert(union_vars(p).disjoint(clause_vars(l.clauses))) by {
            lemma_union_vars_member(p);
            assert forall|x: u32| union_vars(p).contains(x) implies !clause_vars(l.clauses).contains(x) by {
                let i = choose|i: int| 0 <= i < p.len() && clause_vars(#[trigger] p[i].clauses).contains(x);
                assert(p[i] == ps[i]);
                assert(ps[ps.len() - 1] == l);
                assert(clause_vars(ps[i].clauses).disjoint(clause_vars(ps[ps.len() - 1].clauses)));
            }
        }
        lemma_set_disjoint_lens(union_vars(p), clause_vars(l.clauses));
        lemma_count_product(union_vars(p), clause_vars(l.clauses), Map::empty(), flatten(p), l.clauses);
    }
}

proof fn lemma_union_vars_member(ps: Seq<FormulaView>)
    ensures
        forall|x: u32| union_vars(ps).contains(x) ==> exists|i: int| 0 <= i < ps.len() && clause_vars(#[trigger] ps[i].clauses).contains(x),
    decreases ps.len(),
{
    if ps.len() > 0 {
        let p = ps.drop_last();
        lemma_union_vars_member(p);
        assert forall|x: u32| union_vars(ps).contains(x) implies exists|i: int| 0 <= i < ps.len() && clause_vars(#[trigger] ps[i].clauses).contains(x) by {
            if union_vars(p).contains(x) {
                let i = choose|i: int| 0 <= i < p.len() && clause_vars(#[trigger] p[i].clauses).contains(x);
                assert(p[i] == ps[i]);
            } else {
                assert(clause_vars(ps[ps.len() - 1].clauses).contains(x));
            }
        }
    }
}

proof fn lemma_product_of_counts(ps: Seq<FormulaView>)
    requires
        forall|i: int| 0 <= i < ps.len() ==> clause_vars(#[trigger] ps[i].clauses).len() <= ps[i].n,
    ensures
        sum_vars(ps) <= sum_n(ps),
        product_of_counts(ps) == pow2((sum_n(ps) - sum_vars(ps)) as nat) * product_over_parts(ps),
    decreases ps.len(),
{
    if ps.len() == 0 {
        vstd::arithmetic::power::lemma_pow0(2);
        assert(pow2(0) == 1);
        assert(product_of_counts(ps) == 1);
        assert(product_over_parts(ps) == 1);
        assert(sum_n(ps) == 0);
        assert(sum_vars(ps) == 0);
    } else {
        let p = ps.drop_last();
        let l = ps.last();
        assert forall|i: int| 0 <= i < p.len() implies clause_vars(#[trigger] p[i].clauses).len() <= p[i].n by {
            assert(p[i] == ps[i]);
        }
        assert(clause_vars(ps[ps.len() - 1].clauses).len() <= ps[ps.len() - 1].n);
        lemma_product_of_counts(p);
        let k1 = (sum_n(p) - sum_vars(p)) as nat;
        let k2 = (l.n - clause_vars(l.clauses).len()) as nat;
        lemma_pow2_adds(k1, k2);
        let a = product_over_parts(p);
        let c = count_over(clause_vars(l.clauses), Map::empty(), l.clauses);
        assert((pow2(k1) * a) * (pow2(k2) * c) == (pow2(k1) * pow2(k2)) * (a * c)) by (nonlinear_arith);
        assert((sum_n(ps) - sum_vars(ps)) as nat == k1 + k2);
        assert(product_of_counts(ps) == (pow2(k1) * a) * (pow2(k2) * c));
        assert(product_over_parts(ps) == a * c);
        assert(product_of_counts(ps) == pow2(k1 + k2) * product_over_parts(ps)) by (nonlinear_arith)
            requires
                product_of_counts(ps) == (pow2(k1) * a) * (pow2(k2) * c),
                (pow2(k1) * a) * (pow2(k2) * c) == (pow2(k1) * pow2(k2)) * (a * c),
                pow2(k1) * pow2(k2) == pow2(k1 + k2),
                product_over_parts(ps) == a * c,
        ;
    }
}

/// Independence: the count of a formula is the product of the counts of the
/// parts of a split of it, times two for each free variable that no part takes.
pub proof fn lemma_split_count(f: FormulaView, ps: Seq<FormulaView>)
    requires
        is_split(f, ps),
    ensures
        model_count(f) == pow2((f.n - sum_n(ps)) as nat) * product_of_counts(ps),
{
    let vs = clause_vars(f.clauses);
    lemma_parts(ps);
    lemma_product_of_counts(ps);
    lemma_clause_vars_finite(f.clauses);
    assert forall|m: Map<u32, bool>| agrees_outside(m, Map::empty(), vs) implies #[trigger] all_hold(f.clauses, m) == all_hold(flatten(ps), m) by {
        assert(all_hold(f.clauses, m) == all_hold(flatten(ps), m));
    }
    lemma_count_same_sat(vs, Map::empty(), f.clauses, flatten(ps));
    let k1 = (f.n - sum_n(ps)) as nat;
    let k2 = (sum_n(ps) - sum_vars(ps)) as nat;
    lemma_pow2_adds(k1, k2);
    let q = product_over_parts(ps);
    assert(pow2(k1) * (pow2(k2) * q) == (pow2(k1) * pow2(k2)) * q) by (nonlinear_arith);
    assert((f.n - vs.len()) as nat == k1 + k2);
}

/// What a list of clauses means.
pub open spec fn clauses_view(v: Seq<Clause>) -> Seq<ClauseView> {
    v.map_values(|c: Clause| c@)
}

/// A list of clauses as a part without free variables of its own.
pub open spec fn part_view(v: Seq<Clause>) -> FormulaView {
    FormulaView { n: 0, clauses: clauses_view(v) }
}

pub open spec fn parts_view(ps: Seq<Vec<Clause>>) -> Seq<FormulaView> {
    ps.map_values(|p: Vec<Clause>| part_view(p@))
}

/// Whether clause `c` shares a variable with the clauses of `part`.
fn shares_variable(c: &Clause, part: &Vec<Clause>) -> (r: bool)
    ensures
        r == !lit_vars(c@.lits).disjoint(clause_vars(clauses_view(part@))),
{
    let ghost ps = clauses_view(part@);
    let mut k: usize = 0;
    proof {
        lemma_lit_vars_finite(c@.lits);
        lemma_clause_vars_finite(ps);
        assert(ps.take(0) =~= Seq::<ClauseView>::empty());
    }
    while k < part.len()
        invariant
            ps == clauses_view(part@),
            0 <= k <= part.len(),
            lit_vars(c@.lits).disjoint(clause_vars(ps.take(k as int))),
        decreases part.len() - k,
    {
        let d = &part[k];
        assert(ps[k as int] == d@);
        let mut j: usize = 0;
        while j < c.literals.len()
            invariant
                ps == clauses_view(part@),
                0 <= k < part.len(),
                ps[k as int] == d@,
                0 <= j <= c.literals.len(),
                forall|jj: int| 0 <= jj < j ==> !lit_vars(d@.lits).contains(#[trigger] c@.lits[jj].name),
            decreases c.literals.len() - j,
        {
            if d.contains(c.literals[j].name) {
                proof {
                    lemma_lit_vars_finite(c@.lits);
                    lemma_clause_vars_finite(ps);
                    assert(ps[k as int] == d@);
                    assert(lit_vars(c@.lits).contains(c@.lits[j as int].name));
                    assert(lit_vars(ps[k as int].lits).contains(c@.lits[j as int].name));
                    assert(clause_vars(ps).contains(c@.lits[j as int].name));
                }
                return true;
            }
            j = j + 1;
        }
        proof {
            lemma_lit_vars_finite(c@.lits);
            assert(ps.take(k as int + 1).drop_last() =~= ps.take(k as int));
            assert(ps.take(k as int + 1).last() == d@);
            assert forall|x: u32| lit_vars(c@.lits).contains(x) implies !lit_vars(d@.lits).contains(x) by {
                let jj = choose|jj: int| 0 <= jj < c@.lits.len() && #[trigger] c@.lits[jj].name == x;
            }
        }
        k = k + 1;
    }
    proof {
        assert(ps.take(k as int) =~= ps);
    }
    false
}

/// Appends copies of the clauses of `src` to `dst`.
fn append_copies(dst: &mut Vec<Clause>, src: &Vec<Clause>)
    requires
        forall|k: int| 0 <= k < old(dst).len() ==> (#[trigger] old(dst)[k]).wf(),
        forall|k: int| 0 <= k < src.len() ==> (#[trigger] src[k]).wf(),
    ensures
        clauses_view(final(dst)@) == clauses_view(old(dst)@) + clauses_view(src@),
        forall|k: int| 0 <= k < final(dst).len() ==> (#[trigger] final(dst)[k]).wf(),
{
    let ghost start = clauses_view(dst@);
    let mut i: usize = 0;
    while i < src.len()
        invariant
            0 <= i <= src.len(),
            forall|k: int| 0 <= k < src.len() ==> (#[trigger] src[k]).wf(),
            forall|k: int| 0 <= k < dst.len() ==> (#[trigger] dst[k]).wf(),
            clauses_view(dst@) == start + clauses_view(src@).take(i as int),
        decreases src.len() - i,
    {
        let ghost before = dst@;
        dst.push(src[i].copy());
        proof {
            assert(clauses_view(dst@) =~= clauses_view(before) + seq![src[i as int]@]);
            assert(clauses_view(src@).take(i as int + 1) =~= clauses_view(src@).take(i as int) + seq![src[i as int]@]);
            assert(clauses_view(dst@) =~= start + clauses_view(src@).take(i as int + 1));
        }
        i = i + 1;
    }
    assert(clauses_view(src@).take(i as int) =~= clauses_view(src@));
}

proof fn lemma_push_part(ps: Seq<FormulaView>, p: FormulaView)
    ensures
        flatten(ps.push(p)) == flatten(ps) + p.clauses,
        union_vars(ps.push(p)) == union_vars(ps).union(clause_vars(p.clauses)),
{
    assert(ps.push(p).drop_last() =~= ps);
}

proof fn lemma_parts_view_push(ps: Seq<Vec<Clause>>, q: Vec<Clause>)
    ensures
        parts_view(ps.push(q)) == parts_view(ps).push(part_view(q@)),
{
    assert(parts_view(ps.push(q)) =~= parts_view(ps).push(part_view(q@)));
}

/// The parts after clause `c` has joined them: the parts that share a variable
/// with `c` merge with it into one, the others stay as they are.
fn add_clause(parts: &Vec<Vec<Clause>>, c: &Clause) -> (r: Vec<Vec<Clause>>)
    requires
        c.wf(),
        forall|j: int, k: int| 0 <= j < parts.len() && 0 <= k < parts[j].len() ==> (#[trigger] parts[j][k]).wf(),
        pairwise_disjoint(parts_view(parts@)),
        forall|k: int| 0 <= k < parts.len() ==> connected(#[trigger] parts_view(parts@)[k].clauses),
        forall|k: int| 0 <= k < parts.len() ==> (#[trigger] parts[k]).len() > 0,
    ensures
        forall|k: int| 0 <= k < r.len() ==> connected(#[trigger] parts_view(r@)[k].clauses),
        forall|k: int| 0 <= k < r.len() ==> (#[trigger] r[k]).len() > 0,
        forall|j: int, k: int| 0 <= j < r.len() && 0 <= k < r[j].len() ==> (#[trigger] r[j][k]).wf(),
        pairwise_disjoint(parts_view(r@)),
        forall|m: Map<u32, bool>| #[trigger] all_hold(flatten(parts_view(r@)), m) == (all_hold(flatten(parts_view(parts@)), m)
            && clause_holds(c@, m)),
        union_vars(parts_view(r@)) == union_vars(parts_view(parts@)).union(lit_vars(c@.lits)),
        flatten(parts_view(r@)).to_multiset() == flatten(parts_view(parts@)).to_multiset().insert(c@),
{
    let ghost opv = parts_view(parts@);
    let mut np: Vec<Vec<Clause>> = Vec::new();
    let mut merged: Vec<Clause> = Vec::new();
    let mut j: usize = 0;
    proof {
        assert(opv.take(0) =~= Seq::<FormulaView>::empty());
        assert(parts_view(np@) =~= Seq::<FormulaView>::empty());
        assert(clauses_view(merged@) =~= Seq::<ClauseView>::empty());
        assert(clause_vars(Seq::<ClauseView>::empty()) =~= Set::<u32>::empty());
        assert(union_vars(opv.take(0)) =~= union_vars(parts_view(np@)).union(clause_vars(clauses_view(merged@))));
        assert forall|m: Map<u32, bool>| #[trigger] all_hold(flatten(opv.take(0)), m) == (all_hold(flatten(parts_view(np@)), m)
            && all_hold(clauses_view(merged@), m)) by {}
        let none = Seq::<ClauseView>::empty();
        lemma_single_connected(c@);
        assert(clauses_view(merged@) + seq![c@] =~= seq![c@]);
        lemma_multiset_commutative(none, none);
        assert(none + none =~= none);
        assert(flatten(opv.take(0)) =~= none);
        assert(flatten(parts_view(np@)) =~= none);
        assert(flatten(opv.take(0)).to_multiset() =~= flatten(parts_view(np@)).to_multiset().add(
            clauses_view(merged@).to_multiset(),
        ));
    }
    while j < parts.len()
        invariant
            c.wf(),
            opv == parts_view(parts@),
            pairwise_disjoint(opv),
            forall|a: int, k: int| 0 <= a < parts.len() && 0 <= k < parts[a].len() ==> (#[trigger] parts[a][k]).wf(),
            0 <= j <= parts.len(),
            forall|a: int, k: int| 0 <= a < np.len() && 0 <= k < np[a].len() ==> (#[trigger] np[a][k]).wf(),
            forall|k: int| 0 <= k < merged.len() ==> (#[trigger] merged[k]).wf(),
            pairwise_disjoint(parts_view(np@)),
            forall|t: int| 0 <= t < np.len() ==> clause_vars(#[trigger] parts_view(np@)[t].clauses).disjoint(lit_vars(c@.lits)),
            forall|t: int, k: int| 0 <= t < np.len() && j <= k < opv.len() ==> clause_vars(#[trigger] parts_view(np@)[t].clauses).disjoint(
                clause_vars(#[trigger] opv[k].clauses),
            ),
            forall|k: int| j <= k < opv.len() ==> clause_vars(clauses_view(merged@)).disjoint(clause_vars(#[trigger] opv[k].clauses)),
            forall|t: int| 0 <= t < np.len() ==> clause_vars(#[trigger] parts_view(np@)[t].clauses).disjoint(
                clause_vars(clauses_view(merged@)),
            ),
            forall|m: Map<u32, bool>| #[trigger] all_hold(flatten(opv.take(j as int)), m) == (all_hold(flatten(parts_view(np@)), m)
                && all_hold(clauses_view(merged@), m)),
            union_vars(opv.take(j as int)) == union_vars(parts_view(np@)).union(clause_vars(clauses_view(merged@))),
            flatten(opv.take(j as int)).to_multiset() == flatten(parts_view(np@)).to_multiset().add(
                clauses_view(merged@).to_multiset(),
            ),
            forall|k: int| 0 <= k < opv.len() ==> connected(#[trigger] opv[k].clauses),
            forall|t: int| 0 <= t < np.len() ==> connected(#[trigger] parts_view(np@)[t].clauses),
            connected(clauses_view(merged@) + seq![c@]),
            forall|k: int| 0 <= k < parts.len() ==> (#[trigger] parts[k]).len() > 0,
            forall|t: int| 0 <= t < np.len() ==> (#[trigger] np[t]).len() > 0,
        decreases parts.len() - j,
    {
        let ghost old_np = np@;
        let ghost old_merged = merged@;
        let ghost pj = opv[j as int];
        proof {
            assert(opv.take(j as int + 1) =~= opv.take(j as int).push(pj));
            lemma_push_part(opv.take(j as int), pj);
            assert(pj.clauses == clauses_view(parts[j as int]@));
        }
        if shares_variable(c, &parts[j]) {
            append_copies(&mut merged, &parts[j]);
            proof {
                lemma_clause_vars_append(clauses_view(old_merged), pj.clauses);
                assert forall|m: Map<u32, bool>| #[trigger] all_hold(flatten(opv.take(j as int + 1)), m) == (all_hold(
                    flatten(parts_view(np@)),
                    m,
                ) && all_hold(clauses_view(merged@), m)) by {
                    lemma_all_hold_append(flatten(opv.take(j as int)), pj.clauses, m);
                    lemma_all_hold_append(clauses_view(old_merged), pj.clauses, m);
                }
                assert(union_vars(opv.take(j as int + 1)) =~= union_vars(parts_view(np@)).union(clause_vars(clauses_view(merged@))));
                lemma_multiset_commutative(flatten(opv.take(j as int)), pj.clauses);
                lemma_multiset_commutative(clauses_view(old_merged), pj.clauses);
                assert(flatten(opv.take(j as int + 1)).to_multiset() =~= flatten(parts_view(np@)).to_multiset().add(
                    clauses_view(merged@).to_multiset(),
                ));
                let a = clauses_view(old_merged) + seq![c@];
                let v = choose|v: u32| lit_vars(c@.lits).contains(v) && clause_vars(pj.clauses).contains(v);
                lemma_clause_vars_append(clauses_view(old_merged), seq![c@]);
                assert(clause_vars(seq![c@]) =~= lit_vars(c@.lits)) by {
                    assert(seq![c@].drop_last() =~= Seq::<ClauseView>::empty());
                    assert(clause_vars(Seq::<ClauseView>::empty()) =~= Set::<u32>::empty());
                }
                assert(opv[j as int].clauses == pj.clauses);
                lemma_join_connected(a, pj.clauses, v);
                let joined = a + pj.clauses;
                let target = clauses_view(merged@) + seq![c@];
                assert(clauses_view(merged@) == clauses_view(old_merged) + pj.clauses);
                assert(joined.to_set() =~= target.to_set()) by {
                    let om = clauses_view(old_merged);
                    assert forall|z: ClauseView| joined.contains(z) implies target.contains(z) by {
                        let i = choose|i: int| 0 <= i < joined.len() && joined[i] == z;
                        if i < om.len() {
                            assert(target[i] == z);
                        } else if i == om.len() {
                            assert(target[target.len() - 1] == z);
                        } else {
                            assert(target[i - 1] == z);
                        }
                    }
                    assert forall|z: ClauseView| target.contains(z) implies joined.contains(z) by {
                        let i = choose|i: int| 0 <= i < target.len() && target[i] == z;
                        if i < om.len() {
                            assert(joined[i] == z);
                        } else if i == target.len() - 1 {
                            assert(joined[om.len() as int] == z);
                        } else {
                            assert(joined[i + 1] == z);
                        }
                    }
                }
                lemma_connected_same_set(joined, target);
                assert forall|k: int| j + 1 <= k < opv.len() implies clause_vars(clauses_view(merged@)).disjoint(
                    clause_vars(#[trigger] opv[k].clauses),
                ) by {
                    assert(clause_vars(opv[j as int].clauses).disjoint(clause_vars(opv[k].clauses)));
                }
                assert forall|t: int| 0 <= t < np.len() implies clause_vars(#[trigger] parts_view(np@)[t].clauses).disjoint(
                    clause_vars(clauses_view(merged@)),
                ) by {
                    assert(clause_vars(parts_view(np@)[t].clauses).disjoint(clause_vars(opv[j as int].clauses)));
                }
            }
        } else {
            let mut q: Vec<Clause> = Vec::new();
            append_copies(&mut q, &parts[j]);
            proof {
                assert(clauses_view(q@) =~= pj.clauses);
            }
            proof {
                assert(clauses_view(q@).len() == q.len());
                assert(parts[j as int].len() > 0);
            }
            np.push(q);
            proof {
                assert forall|t: int| 0 <= t < np.len() implies (#[trigger] np[t]).len() > 0 by {
                    if t < old_np.len() {
                        assert(np[t] == old_np[t]);
                    }
                }
                lemma_parts_view_push(old_np, q);
                assert(np@ == old_np.push(q));
                lemma_push_part(parts_view(old_np), part_view(q@));
                assert(part_view(q@).clauses == pj.clauses);
                assert forall|m: Map<u32, bool>| #[trigger] all_hold(flatten(opv.take(j as int + 1)), m) == (all_hold(
                    flatten(parts_view(np@)),
                    m,
                ) && all_hold(clauses_view(merged@), m)) by {
                    lemma_all_hold_append(flatten(opv.take(j as int)), pj.clauses, m);
                    lemma_all_hold_append(flatten(parts_view(old_np)), pj.clauses, m);
                }
                assert(union_vars(opv.take(j as int + 1)) =~= union_vars(parts_view(np@)).union(clause_vars(clauses_view(merged@))));
                lemma_multiset_commutative(flatten(opv.take(j as int)), pj.clauses);
                lemma_multiset_commutative(flatten(parts_view(old_np)), pj.clauses);
                assert(flatten(opv.take(j as int + 1)).to_multiset() =~= flatten(parts_view(np@)).to_multiset().add(
                    clauses_view(merged@).to_multiset(),
                ));
                let npv = parts_view(np@);
                assert forall|a: int, b: int| 0 <= a < npv.len() && 0 <= b < npv.len() && a != b implies clause_vars(
                    #[trigger] npv[a].clauses,
                ).disjoint(clause_vars(#[trigger] npv[b].clauses)) by {
                    if a < old_np.len() && b < old_np.len() {
                        assert(npv[a] == parts_view(old_np)[a]);
                        assert(npv[b] == parts_view(old_np)[b]);
                    } else if a < old_np.len() {
                        assert(npv[a] == parts_view(old_np)[a]);
                        assert(clause_vars(parts_view(old_np)[a].clauses).disjoint(clause_vars(opv[j as int].clauses)));
                    } else {
                        assert(npv[b] == parts_view(old_np)[b]);
                        assert(clause_vars(parts_view(old_np)[b].clauses).disjoint(clause_vars(opv[j as int].clauses)));
                    }
                }
                assert forall|t: int| 0 <= t < np.len() implies connected(#[trigger] npv[t].clauses) by {
                    if t < old_np.len() {
                        assert(npv[t] == parts_view(old_np)[t]);
                    } else {
                        assert(opv[j as int].clauses == pj.clauses);
                    }
                }
                assert forall|t: int| 0 <= t < np.len() implies clause_vars(#[trigger] npv[t].clauses).disjoint(lit_vars(c@.lits)) by {
                    if t < old_np.len() {
                        assert(npv[t] == parts_view(old_np)[t]);
                    }
                }
                assert forall|t: int, k: int| 0 <= t < np.len() && j + 1 <= k < opv.len() implies clause_vars(
                    #[trigger] npv[t].clauses,
                ).disjoint(clause_vars(#[trigger] opv[k].clauses)) by {
                    if t < old_np.len() {
                        assert(npv[t] == parts_view(old_np)[t]);
                    } else {
                        assert(clause_vars(opv[j as int].clauses).disjoint(clause_vars(opv[k].clauses)));
                    }
                }
                assert forall|t: int| 0 <= t < np.len() implies clause_vars(#[trigger] npv[t].clauses).disjoint(
                    clause_vars(clauses_view(merged@)),
                ) by {
                    if t < old_np.len() {
                        assert(npv[t] == parts_view(old_np)[t]);
                    }
                }
            }
        }
        j = j + 1;
    }
    let ghost before_c = merged@;
    merged.push(c.copy());
    proof {
        assert(opv.take(j as int) =~= opv);
        assert(clauses_view(merged@) =~= clauses_view(before_c) + seq![c@]);
        lemma_clause_vars_append(clauses_view(before_c), seq![c@]);
        assert(clause_vars(seq![c@]) =~= lit_vars(c@.lits)) by {
            assert(seq![c@].drop_last() =~= Seq::<ClauseView>::empty());
            assert(clause_vars(Seq::<ClauseView>::empty()) =~= Set::<u32>::empty());
        }
    }
    let ghost final_np = np@;
    let ghost mv = merged@;
    np.push(merged);
    proof {
        assert forall|t: int| 0 <= t < np.len() implies (#[trigger] np[t]).len() > 0 by {
            if t < final_np.len() {
                assert(np[t] == final_np[t]);
            }
        }
        assert(np@ == final_np.push(np@.last()));
        assert(np@.last()@ == mv);
        lemma_parts_view_push(final_np, np@.last());
        lemma_push_part(parts_view(final_np), part_view(mv));
        let npv = parts_view(np@);
        assert forall|m: Map<u32, bool>| #[trigger] all_hold(flatten(npv), m) == (all_hold(flatten(opv), m) && clause_holds(c@, m)) by {
            lemma_all_hold_append(flatten(parts_view(final_np)), clauses_view(mv), m);
            lemma_all_hold_append(clauses_view(before_c), seq![c@], m);
            assert(all_hold(seq![c@], m) == clause_holds(c@, m)) by {
                if clause_holds(c@, m) {
                    assert forall|i: int| 0 <= i < 1 implies clause_holds(#[trigger] seq![c@][i], m) by {}
                } else {
                    assert(!clause_holds(seq![c@][0], m));
                }
            }
        }
        assert(union_vars(npv) =~= union_vars(opv).union(lit_vars(c@.lits)));
        assert forall|k: int| 0 <= k < npv.len() implies connected(#[trigger] npv[k].clauses) by {
            if k < final_np.len() {
                assert(npv[k] == parts_view(final_np)[k]);
            } else {
                assert(npv[k].clauses == clauses_view(mv));
            }
        }
        lemma_multiset_commutative(clauses_view(before_c), seq![c@]);
        lemma_multiset_commutative(flatten(parts_view(final_np)), clauses_view(mv));
        assert(seq![c@].to_multiset() =~= vstd::multiset::Multiset::<ClauseView>::empty().insert(c@)) by {
            to_multiset_build(Seq::<ClauseView>::empty(), c@);
            assert(Seq::<ClauseView>::empty().push(c@) =~= seq![c@]);
        }
        assert(flatten(npv).to_multiset() =~= flatten(opv).to_multiset().insert(c@));
        assert forall|a: int, b: int| 0 <= a < npv.len() && 0 <= b < npv.len() && a != b implies clause_vars(
            #[trigger] npv[a].clauses,
        ).disjoint(clause_vars(#[trigger] npv[b].clauses)) by {
            if a < final_np.len() && b < final_np.len() {
                assert(npv[a] == parts_view(final_np)[a]);
                assert(npv[b] == parts_view(final_np)[b]);
            } else if a < final_np.len() {
                assert(npv[a] == parts_view(final_np)[a]);
            } else {
                assert(npv[b] == parts_view(final_np)[b]);
            }
        }
    }
    np
}

fn has_name(names: &Vec<u32>, x: u32) -> (r: bool)
    ensures
        r == names@.contains(x),
{
    let mut i: usize = 0;
    while i < names.len()
        invariant
            0 <= i <= names.len(),
            forall|k: int| 0 <= k < i ==> names@[k] != x,
        decreases names.len() - i,
    {
        if names[i] == x {
            return true;
        }
        i = i + 1;
    }
    false
}

/// Number of distinct variables in the clauses.
pub(crate) fn count_vars(cs: &Vec<Clause>) -> (r: usize)
    ensures
        r == clause_vars(clauses_view(cs@)).len(),
{
    let ghost cv = clauses_view(cs@);
    let mut names: Vec<u32> = Vec::new();
    let mut i: usize = 0;
    proof {
        assert(cv.take(0) =~= Seq::<ClauseView>::empty());
        assert(clause_vars(Seq::<ClauseView>::empty()) =~= Set::<u32>::empty());
    }
    while i < cs.len()
        invariant
            cv == clauses_view(cs@),
            0 <= i <= cs.len(),
            names@.no_duplicates(),
            forall|x: u32| names@.contains(x) <==> #[trigger] clause_vars(cv.take(i as int)).contains(x),
        decreases cs.len() - i,
    {
        let c = &cs[i];
        let ghost before = clause_vars(cv.take(i as int));
        proof {
            assert(cv[i as int] == c@);
            assert(c@.lits.take(0) =~= Seq::<crate::formula::PbLiteral>::empty());
        }
        let mut j: usize = 0;
        while j < c.literals.len()
            invariant
                0 <= j <= c.literals.len(),
                names@.no_duplicates(),
                forall|x: u32| names@.contains(x) <==> #[trigger] before.union(lit_vars(c@.lits.take(j as int))).contains(x),
            decreases c.literals.len() - j,
        {
            let x = c.literals[j].name;
            proof {
                assert(c@.lits.take(j as int + 1).drop_last() =~= c@.lits.take(j as int));
                assert(c@.lits.take(j as int + 1).last().name == x);
            }
            let ghost old_names = names@;
            if !has_name(&names, x) {
                names.push(x);
            }
            proof {
                assert(names@ == old_names || names@ == old_names.push(x));
                let s0 = before.union(lit_vars(c@.lits.take(j as int)));
                assert(before.union(lit_vars(c@.lits.take(j as int + 1))) =~= s0.insert(x));
                assert forall|y: u32| names@.contains(y) <==> #[trigger] before.union(lit_vars(c@.lits.take(j as int + 1))).contains(y) by {
                    assert(s0.contains(y) == old_names.contains(y));
                    if y != x {
                        if names@.contains(y) {
                            let k = choose|k: int| 0 <= k < names@.len() && names@[k] == y;
                            if k < old_names.len() {
                                assert(old_names[k] == y);
                            }
                        }
                        if old_names.contains(y) {
                            let k = choose|k: int| 0 <= k < old_names.len() && old_names[k] == y;
                            assert(names@[k] == y);
                        }
                    }
                    if y == x {
                        assert(before.union(lit_vars(c@.lits.take(j as int + 1))).contains(y));
                        if !names@.contains(y) {
                            assert(names@[names@.len() - 1] == x);
                        }
                    }
                }
            }
            j = j + 1;
        }
        proof {
            assert(c@.lits.take(j as int) =~= c@.lits);
            assert(cv.take(i as int + 1).drop_last() =~= cv.take(i as int));
            assert(cv.take(i as int + 1).last() == c@);
        }
        i = i + 1;
    }
    proof {
        assert(cv.take(i as int) =~= cv);
        names@.unique_seq_to_set();
        assert(names@.to_set() =~= clause_vars(cv));
    }
    names.len()
}

proof fn lemma_same_clauses(ps: Seq<FormulaView>, qs: Seq<FormulaView>)
    requires
        ps.len() == qs.len(),
        forall|k: int| 0 <= k < ps.len() ==> (#[trigger] ps[k]).clauses == qs[k].clauses,
    ensures
        flatten(ps) == flatten(qs),
        union_vars(ps) == union_vars(qs),
        pairwise_disjoint(ps) == pairwise_disjoint(qs),
    decreases ps.len(),
{
    if ps.len() > 0 {
        assert forall|k: int| 0 <= k < ps.drop_last().len() implies (#[trigger] ps.drop_last()[k]).clauses == qs.drop_last()[k].clauses by {
            assert(ps[k].clauses == qs[k].clauses);
        }
        lemma_same_clauses(ps.drop_last(), qs.drop_last());
        assert(ps[ps.len() - 1].clauses == qs[qs.len() - 1].clauses);
    }
    if pairwise_disjoint(ps) {
        assert forall|i: int, j: int| 0 <= i < qs.len() && 0 <= j < qs.len() && i != j implies clause_vars(
            #[trigger] qs[i].clauses,
        ).disjoint(clause_vars(#[trigger] qs[j].clauses)) by {
            assert(ps[i].clauses == qs[i].clauses);
            assert(ps[j].clauses == qs[j].clauses);
        }
    }
    if pairwise_disjoint(qs) {
        assert forall|i: int, j: int| 0 <= i < ps.len() && 0 <= j < ps.len() && i != j implies clause_vars(
            #[trigger] ps[i].clauses,
        ).disjoint(clause_vars(#[trigger] ps[j].clauses)) by {
            assert(ps[i].clauses == qs[i].clauses);
            assert(ps[j].clauses == qs[j].clauses);
        }
    }
}

pub open spec fn formulas_view(fs: Seq<PBFormula>) -> Seq<FormulaView> {
    fs.map_values(|f: PBFormula| f@)
}

pub proof fn lemma_prefix(ps: Seq<FormulaView>, j: int)
    requires
        0 <= j <= ps.len(),
    ensures
        union_vars(ps.take(j)).subset_of(union_vars(ps)),
        sum_n(ps.take(j)) <= sum_n(ps),
        pairwise_disjoint(ps) ==> pairwise_disjoint(ps.take(j)),
    decreases ps.len(),
{
    if j < ps.len() {
        assert(ps.drop_last().take(j) =~= ps.take(j));
        lemma_prefix(ps.drop_last(), j);
        if pairwise_disjoint(ps) {
            let q = ps.drop_last();
            assert forall|a: int, b: int| 0 <= a < q.len() && 0 <= b < q.len() && a != b implies clause_vars(
                #[trigger] q[a].clauses,
            ).disjoint(clause_vars(#[trigger] q[b].clauses)) by {
                assert(q[a] == ps[a] && q[b] == ps[b]);
            }
        }
    } else {
        assert(ps.take(j) =~= ps);
    }
}

/// The clauses of `formula` grouped into parts that share no variable, each
/// with exactly its own variables free, followed by one part without clauses
/// for the variables that no clause mentions, where there are any.
pub fn formula_to_disconnected_formula(formula: PBFormula) -> (r: Vec<PBFormula>)
    requires
        formula.wf(),
    ensures
        forall|k: int| 0 <= k < r.len() ==> (#[trigger] r[k]).wf(),
        is_split(formula@, formulas_view(r@)),
        sum_n(formulas_view(r@)) == formula.n,
        flatten(formulas_view(r@)).to_multiset() == formula@.clauses.to_multiset(),
        forall|k: int| 0 <= k < r.len() ==> connected(#[trigger] formulas_view(r@)[k].clauses),
        forall|k: int| 0 <= k < r.len() ==> (#[trigger] r[k]).n == clause_vars(r[k]@.clauses).len() || (k == r.len() - 1
            && r[k].clauses.len() == 0),
        forall|k: int| 0 <= k < r.len() ==> (#[trigger] r[k]).clauses.len() > 0 || (k == r.len() - 1 && r[k].n > 0),
{
    let ghost cs = formula@.clauses;
    let mut parts: Vec<Vec<Clause>> = Vec::new();
    let mut i: usize = 0;
    proof {
        assert(cs.take(0) =~= Seq::<ClauseView>::empty());
        assert(parts_view(parts@) =~= Seq::<FormulaView>::empty());
        assert(clause_vars(Seq::<ClauseView>::empty()) =~= Set::<u32>::empty());
    }
    while i < formula.clauses.len()
        invariant
            formula.wf(),
            cs == formula@.clauses,
            0 <= i <= formula.clauses.len(),
            forall|j: int, k: int| 0 <= j < parts.len() && 0 <= k < parts[j].len() ==> (#[trigger] parts[j][k]).wf(),
            pairwise_disjoint(parts_view(parts@)),
            forall|m: Map<u32, bool>| #[trigger] all_hold(cs.take(i as int), m) == all_hold(flatten(parts_view(parts@)), m),
            clause_vars(cs.take(i as int)) == union_vars(parts_view(parts@)),
            flatten(parts_view(parts@)).to_multiset() == cs.take(i as int).to_multiset(),
            forall|k: int| 0 <= k < parts.len() ==> connected(#[trigger] parts_view(parts@)[k].clauses),
            forall|k: int| 0 <= k < parts.len() ==> (#[trigger] parts[k]).len() > 0,
        decreases formula.clauses.len() - i,
    {
        let ghost before = parts@;
        proof {
            assert(formula.clauses[i as int].wf());
        }
        parts = add_clause(&parts, &formula.clauses[i]);
        proof {
            let c = formula.clauses[i as int]@;
            assert(cs[i as int] == c);
            assert(cs.take(i as int + 1) =~= cs.take(i as int) + seq![c]);
            assert(cs.take(i as int + 1).drop_last() =~= cs.take(i as int));
            assert(cs.take(i as int + 1) =~= cs.take(i as int).push(c));
            to_multiset_build(cs.take(i as int), c);
            assert forall|m: Map<u32, bool>| #[trigger] all_hold(cs.take(i as int + 1), m) == all_hold(flatten(parts_view(parts@)), m) by {
                lemma_all_hold_append(cs.take(i as int), seq![c], m);
                assert(all_hold(seq![c], m) == clause_holds(c, m)) by {
                    if clause_holds(c, m) {
                        assert forall|t: int| 0 <= t < 1 implies clause_holds(#[trigger] seq![c][t], m) by {}
                    } else {
                        assert(!clause_holds(seq![c][0], m));
                    }
                }
                assert(all_hold(cs.take(i as int), m) == all_hold(flatten(parts_view(before)), m));
            }
        }
        i = i + 1;
    }
    proof {
        assert(cs.take(i as int) =~= cs);
        lemma_clause_vars_finite(cs);
    }
    let ghost pv = parts_view(parts@);
    let mut r: Vec<PBFormula> = Vec::new();
    let mut total: u32 = 0;
    let mut j: usize = 0;
    while j < parts.len()
        invariant
            formula.wf(),
            cs == formula@.clauses,
            pv == parts_view(parts@),
            flatten(pv).to_multiset() == cs.to_multiset(),
            forall|k: int| 0 <= k < pv.len() ==> connected(#[trigger] pv[k].clauses),
            forall|k: int| 0 <= k < parts.len() ==> (#[trigger] parts[k]).len() > 0,
            forall|k: int| 0 <= k < j ==> (#[trigger] r[k]).clauses.len() > 0,
            pairwise_disjoint(pv),
            union_vars(pv) == clause_vars(cs),
            clause_vars(cs).finite(),
            forall|a: int, k: int| 0 <= a < parts.len() && 0 <= k < parts[a].len() ==> (#[trigger] parts[a][k]).wf(),
            0 <= j <= parts.len(),
            r.len() == j,
            forall|k: int| 0 <= k < j ==> (#[trigger] r[k]).wf() && r[k]@.clauses == pv[k].clauses
                && r[k]@.n == clause_vars(r[k]@.clauses).len(),
            total == sum_n(formulas_view(r@)),
            total <= clause_vars(cs).len(),
        decreases parts.len() - j,
    {
        let mut cl: Vec<Clause> = Vec::new();
        append_copies(&mut cl, &parts[j]);
        let k = count_vars(&cl);
        proof {
            assert(clauses_view(cl@) =~= pv[j as int].clauses);
            let rv1 = formulas_view(r@).push(FormulaView { n: k as nat, clauses: pv[j as int].clauses });
            assert forall|t: int| 0 <= t < rv1.len() implies (#[trigger] rv1[t]).clauses == pv.take(j as int + 1)[t].clauses by {
                if t < j {
                    assert(rv1[t] == r[t]@);
                }
            }
            lemma_same_clauses(rv1, pv.take(j as int + 1));
            lemma_prefix(pv, j as int + 1);
            lemma_parts(rv1);
            lemma_len_subset(union_vars(rv1), clause_vars(cs));
            assert(rv1.drop_last() =~= formulas_view(r@));
            assert(sum_n(rv1) == sum_vars(rv1)) by {
                lemma_sum_n_vars(rv1);
            }
        }
        proof {
            assert(clauses_view(cl@).len() == cl.len());
            assert(pv[j as int].clauses.len() == parts[j as int].len());
        }
        let f = PBFormula { n: k as u32, clauses: cl };
        proof {
            lemma_clause_vars_finite(f@.clauses);
            assert forall|t: int| 0 <= t < f.clauses.len() implies (#[trigger] f.clauses[t]).wf() by {}
            assert forall|t: int| 0 <= t < f@.clauses.len() implies crate::formula::clause_fits(#[trigger] f@.clauses[t].rhs, f@.clauses[t].lits) by {
                assert(f@.clauses[t] == f.clauses[t]@);
            }
        }
        let ghost old_rv = formulas_view(r@);
        r.push(f);
        proof {
            assert(formulas_view(r@).drop_last() =~= old_rv);
            assert(formulas_view(r@).last() == f@);
            assert(sum_n(formulas_view(r@)) == sum_n(old_rv) + f@.n);
        }
        total = total + k as u32;
        j = j + 1;
    }
    proof {
        let rv = formulas_view(r@);
        assert forall|t: int| 0 <= t < rv.len() implies (#[trigger] rv[t]).clauses == pv[t].clauses by {
            assert(rv[t] == r[t]@);
        }
        lemma_same_clauses(rv, pv);
    }
    let ghost rv0 = formulas_view(r@);
    if total < formula.n {
        let free = PBFormula { n: formula.n - total, clauses: Vec::new() };
        proof {
            assert(free@.clauses =~= Seq::<ClauseView>::empty());
            assert(clause_vars(free@.clauses) =~= Set::<u32>::empty());
        }
        r.push(free);
        proof {
            let rv = formulas_view(r@);
            assert(rv =~= rv0.push(free@));
            lemma_push_part(rv0, free@);
            assert(flatten(rv) =~= flatten(rv0));
            assert(union_vars(rv) =~= union_vars(rv0));
            assert(rv.drop_last() =~= rv0);
            assert forall|a: int, b: int| 0 <= a < rv.len() && 0 <= b < rv.len() && a != b implies clause_vars(
                #[trigger] rv[a].clauses,
            ).disjoint(clause_vars(#[trigger] rv[b].clauses)) by {
                if a < rv0.len() && b < rv0.len() {
                    assert(rv[a] == rv0[a] && rv[b] == rv0[b]);
                }
            }
        }
    }
    proof {
        let rv = formulas_view(r@);
        assert forall|t: int| 0 <= t < rv.len() implies clause_vars(#[trigger] rv[t].clauses).len() <= rv[t].n by {
            assert(rv[t] == r[t]@);
        }
        assert forall|m: Map<u32, bool>| #[trigger] all_hold(formula@.clauses, m) == all_hold(flatten(rv), m) by {
            assert(all_hold(cs.take(cs.len() as int), m) == all_hold(flatten(pv), m));
        }
        lemma_clause_vars_finite(cs);
        assert(clause_vars(cs).len() <= formula.n);
    }
    r
}

proof fn lemma_sum_n_vars(ps: Seq<FormulaView>)
    requires
        forall|k: int| 0 <= k < ps.len() ==> (#[trigger] ps[k]).n == clause_vars(ps[k].clauses).len(),
    ensures
        sum_n(ps) == sum_vars(ps),
    decreases ps.len(),
{
    if ps.len() > 0 {
        let p = ps.drop_last();
        assert forall|k: int| 0 <= k < p.len() implies (#[trigger] p[k]).n == clause_vars(p[k].clauses).len() by {
            assert(p[k] == ps[k]);
        }
        lemma_sum_n_vars(p);
        assert(ps[ps.len() - 1].n == clause_vars(ps[ps.len() - 1].clauses).len());
    }
}

/// The two clauses have the same threshold and the same literals, in
/// whatever order.
pub open spec fn same_clause_up_to_order(c: ClauseView, d: ClauseView) -> bool {
    c.rhs == d.rhs && c.lits.to_multiset() == d.lits.to_multiset()
}

/// Some clause of `cs` is `c` up to the order of its literals.
pub open spec fn has_match(c: ClauseView, cs: Seq<ClauseView>) -> bool {
    exists|j: int| 0 <= j < cs.len() && same_clause_up_to_order(c, cs[j])
}

/// The two formulas have the same number of free variables, and each clause
/// of one is a clause of the other up to the order of its literals.
pub open spec fn same_up_to_order(f: FormulaView, g: FormulaView) -> bool {
    &&& f.n == g.n
    &&& forall|i: int| 0 <= i < f.clauses.len() ==> has_match(#[trigger] f.clauses[i], g.clauses)
    &&& forall|j: int| 0 <= j < g.clauses.len() ==> has_match(#[trigger] g.clauses[j], f.clauses)
}

pub proof fn lemma_same_up_to_order_refl(f: FormulaView)
    ensures
        same_up_to_order(f, f),
{
    assert forall|i: int| 0 <= i < f.clauses.len() implies has_match(#[trigger] f.clauses[i], f.clauses) by {
        assert(same_clause_up_to_order(f.clauses[i], f.clauses[i]));
    }
}

proof fn lemma_sat_sum_remove(ks: Seq<PbLiteral>, i: int, m: Map<u32, bool>)
    requires
        0 <= i < ks.len(),
    ensures
        sat_sum(ks, m) == sat_sum(ks.remove(i), m) + if m[ks[i].name] == ks[i].pos {
            ks[i].factor as int
        } else {
            0
        },
        lit_vars(ks) == lit_vars(ks.remove(i)).insert(ks[i].name),
    decreases ks.len(),
{
    if i == ks.len() - 1 {
        assert(ks.remove(i) =~= ks.drop_last());
    } else {
        assert(ks.remove(i).drop_last() =~= ks.drop_last().remove(i));
        assert(ks.remove(i).last() == ks.last());
        lemma_sat_sum_remove(ks.drop_last(), i, m);
        assert(ks.drop_last()[i] == ks[i]);
        assert(lit_vars(ks) =~= lit_vars(ks.remove(i)).insert(ks[i].name));
    }
}

/// A clause's value and variables depend only on which literals it has, not
/// on their order.
proof fn lemma_literal_order(ls: Seq<PbLiteral>, ks: Seq<PbLiteral>, m: Map<u32, bool>)
    requires
        ls.to_multiset() == ks.to_multiset(),
    ensures
        sat_sum(ls, m) == sat_sum(ks, m),
        lit_vars(ls) == lit_vars(ks),
    decreases ls.len(),
{
    to_multiset_len(ls);
    to_multiset_len(ks);
    if ls.len() == 0 {
        assert(ks.len() == 0);
        assert(ks =~= ls);
    } else {
        let l = ls.last();
        let p = ls.drop_last();
        assert(p.push(l) =~= ls);
        to_multiset_build(p, l);
        to_multiset_contains(ks, l);
        assert(ks.to_multiset().count(l) > 0);
        let i = choose|i: int| 0 <= i < ks.len() && ks[i] == l;
        to_multiset_remove(ks, i);
        assert(p.to_multiset() =~= ks.remove(i).to_multiset());
        lemma_literal_order(p, ks.remove(i), m);
        lemma_sat_sum_remove(ks, i, m);
    }
}

/// Order does not matter: two formulas with the same number of free
/// variables and the same clauses, in any order, each with its literals in
/// any order, have the same count. `count` returns the model count whether or
/// not its cache answers, so it returns the same for both.
pub proof fn lemma_count_reorder(f: FormulaView, g: FormulaView)
    requires
        same_up_to_order(f, g),
    ensures
        model_count(f) == model_count(g),
{
    lemma_clause_vars_finite(f.clauses);
    lemma_clause_vars_finite(g.clauses);
    assert forall|x: u32| clause_vars(f.clauses).contains(x) implies clause_vars(g.clauses).contains(x) by {
        let i = choose|i: int| 0 <= i < f.clauses.len() && lit_vars(#[trigger] f.clauses[i].lits).contains(x);
        assert(has_match(f.clauses[i], g.clauses));
        let j = choose|j: int| 0 <= j < g.clauses.len() && same_clause_up_to_order(f.clauses[i], g.clauses[j]);
        lemma_literal_order(f.clauses[i].lits, g.clauses[j].lits, Map::empty());
        assert(lit_vars(g.clauses[j].lits).contains(x));
    }
    assert forall|x: u32| clause_vars(g.clauses).contains(x) implies clause_vars(f.clauses).contains(x) by {
        let j = choose|j: int| 0 <= j < g.clauses.len() && lit_vars(#[trigger] g.clauses[j].lits).contains(x);
        assert(has_match(g.clauses[j], f.clauses));
        let i = choose|i: int| 0 <= i < f.clauses.len() && same_clause_up_to_order(g.clauses[j], f.clauses[i]);
        lemma_literal_order(f.clauses[i].lits, g.clauses[j].lits, Map::empty());
        assert(lit_vars(f.clauses[i].lits).contains(x));
    }
    assert(clause_vars(f.clauses) =~= clause_vars(g.clauses));
    let vs = clause_vars(f.clauses);
    assert forall|m: Map<u32, bool>| agrees_outside(m, Map::empty(), vs) implies #[trigger] all_hold(f.clauses, m) == all_hold(
        g.clauses,
        m,
    ) by {
        if all_hold(f.clauses, m) {
            assert forall|j: int| 0 <= j < g.clauses.len() implies clause_holds(#[trigger] g.clauses[j], m) by {
                assert(has_match(g.clauses[j], f.clauses));
                let i = choose|i: int| 0 <= i < f.clauses.len() && same_clause_up_to_order(g.clauses[j], f.clauses[i]);
                lemma_literal_order(f.clauses[i].lits, g.clauses[j].lits, m);
                assert(clause_holds(f.clauses[i], m));
            }
        }
        if all_hold(g.clauses, m) {
            assert forall|i: int| 0 <= i < f.clauses.len() implies clause_holds(#[trigger] f.clauses[i], m) by {
                assert(has_match(f.clauses[i], g.clauses));
                let j = choose|j: int| 0 <= j < g.clauses.len() && same_clause_up_to_order(f.clauses[i], g.clauses[j]);
                lemma_literal_order(f.clauses[i].lits, g.clauses[j].lits, m);
                assert(clause_holds(g.clauses[j], m));
            }
        }
    }
    lemma_count_same_sat(vs, Map::empty(), f.clauses, g.clauses);
}

/// The clause has a variable in `s` and a variable outside it.
pub open spec fn straddles(c: ClauseView, s: Set<u32>) -> bool {
    exists|x: u32, y: u32| lit_vars(c.lits).contains(x) && lit_vars(c.lits).contains(y) && s.contains(x) && !s.contains(y)
}

/// `s` holds some of the clauses' variables but not all.
pub open spec fn cuts(cs: Seq<ClauseView>, s: Set<u32>) -> bool {
    &&& exists|x: u32| clause_vars(cs).contains(x) && s.contains(x)
    &&& exists|y: u32| clause_vars(cs).contains(y) && !s.contains(y)
}

/// The clauses cannot be split further: however their variables are cut in
/// two, some clause has variables on both sides.
pub open spec fn connected(cs: Seq<ClauseView>) -> bool {
    forall|s: Set<u32>| #[trigger] cuts(cs, s) ==> exists|i: int| 0 <= i < cs.len() && straddles(cs[i], s)
}

proof fn lemma_single_connected(c: ClauseView)
    ensures
        connected(seq![c]),
{
    let cs = seq![c];
    lemma_clause_vars_finite(cs);
    assert forall|s: Set<u32>| #[trigger] cuts(cs, s) implies exists|i: int| 0 <= i < cs.len() && straddles(cs[i], s) by {
        let x = choose|x: u32| clause_vars(cs).contains(x) && s.contains(x);
        let y = choose|y: u32| clause_vars(cs).contains(y) && !s.contains(y);
        assert(lit_vars(cs[0].lits).contains(x));
        assert(lit_vars(cs[0].lits).contains(y));
        assert(straddles(cs[0], s));
    }
}

/// Two connected lists of clauses that share a variable are connected together.
proof fn lemma_join_connected(a: Seq<ClauseView>, b: Seq<ClauseView>, v: u32)
    requires
        connected(a),
        connected(b),
        clause_vars(a).contains(v),
        clause_vars(b).contains(v),
    ensures
        connected(a + b),
{
    lemma_clause_vars_append(a, b);
    assert forall|s: Set<u32>| #[trigger] cuts(a + b, s) implies exists|i: int| 0 <= i < (a + b).len() && straddles((a + b)[i], s) by {
        let x = choose|x: u32| clause_vars(a + b).contains(x) && s.contains(x);
        let y = choose|y: u32| clause_vars(a + b).contains(y) && !s.contains(y);
        if cuts(a, s) {
            let i = choose|i: int| 0 <= i < a.len() && straddles(a[i], s);
            assert((a + b)[i] == a[i]);
        } else if cuts(b, s) {
            let i = choose|i: int| 0 <= i < b.len() && straddles(b[i], s);
            assert((a + b)[a.len() + i] == b[i]);
        } else {
            // Each side lies wholly in `s` or wholly outside it, and `v` joins them.
            if s.contains(v) {
                assert(clause_vars(a).contains(y) || clause_vars(b).contains(y));
            } else {
                assert(clause_vars(a).contains(x) || clause_vars(b).contains(x));
            }
        }
    }
}

/// Connectedness depends only on which clauses there are.
proof fn lemma_connected_same_set(a: Seq<ClauseView>, b: Seq<ClauseView>)
    requires
        connected(a),
        a.to_set() == b.to_set(),
    ensures
        connected(b),
{
    lemma_clause_vars_finite(a);
    lemma_clause_vars_finite(b);
    assert forall|x: u32| clause_vars(b).contains(x) implies clause_vars(a).contains(x) by {
        let j = choose|j: int| 0 <= j < b.len() && lit_vars(#[trigger] b[j].lits).contains(x);
        assert(b.to_set().contains(b[j]));
        let i = choose|i: int| 0 <= i < a.len() && a[i] == b[j];
        assert(lit_vars(a[i].lits).contains(x));
    }
    assert forall|x: u32| clause_vars(a).contains(x) implies clause_vars(b).contains(x) by {
        let i = choose|i: int| 0 <= i < a.len() && lit_vars(#[trigger] a[i].lits).contains(x);
        assert(a.to_set().contains(a[i]));
        let j = choose|j: int| 0 <= j < b.len() && b[j] == a[i];
        assert(lit_vars(b[j].lits).contains(x));
    }
    assert forall|s: Set<u32>| #[trigger] cuts(b, s) implies exists|j: int| 0 <= j < b.len() && straddles(b[j], s) by {
        let x = choose|x: u32| clause_vars(b).contains(x) && s.contains(x);
        let y = choose|y: u32| clause_vars(b).contains(y) && !s.contains(y);
        assert(clause_vars(a).contains(x) && clause_vars(a).contains(y));
        assert(cuts(a, s));
        let i = choose|i: int| 0 <= i < a.len() && straddles(a[i], s);
        assert(a.to_set().contains(a[i]));
        let j = choose|j: int| 0 <= j < b.len() && b[j] == a[i];
    }
}

} // verus!
