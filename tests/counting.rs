use pb_counter::cache::CountCache;
use pb_counter::decompose::formula_to_disconnected_formula;
use pb_counter::formula::{Clause, PBFormula, PbLiteral};
use pb_counter::solver::{count, count_disconnected_components, get_necessary_variable, get_next_variable, pow2_u128};

fn lit(name: u32, factor: i32, pos: bool) -> PbLiteral {
    PbLiteral { name, factor, pos }
}

fn clause(rhs: i32, lits: Vec<PbLiteral>) -> Clause {
    Clause::new(rhs, lits)
}

fn formula(n: u32, clauses: Vec<Clause>) -> PBFormula {
    PBFormula { n, clauses }
}

fn both_counts(f: &PBFormula) -> (u128, u128) {
    let mut cache = CountCache::new(1000);
    let a = count(f, &mut cache);
    let mut cache2 = CountCache::new(1000);
    let b = count_disconnected_components(f.copy(), &mut cache2);
    (a, b)
}

/// Counts by enumerating all assignments of variables `0..n`.
fn brute_force(f: &PBFormula) -> u128 {
    let n = f.n;
    let mut total: u128 = 0;
    for bits in 0u64..(1u64 << n) {
        let ok = f.clauses.iter().all(|c| {
            let s: i64 = c
                .literals
                .iter()
                .filter(|l| ((bits >> l.name) & 1 == 1) == l.pos)
                .map(|l| l.factor as i64)
                .sum();
            s >= c.rhs as i64
        });
        if ok {
            total += 1;
        }
    }
    total
}

#[test]
fn at_least_two_of_three() {
    let f = formula(3, vec![clause(2, vec![lit(0, 1, true), lit(1, 1, true), lit(2, 1, true)])]);
    assert_eq!(both_counts(&f), (4, 4));
}

#[test]
fn two_disjoint_constraints() {
    let f = formula(
        4,
        vec![
            clause(1, vec![lit(0, 1, true), lit(1, 1, true)]),
            clause(1, vec![lit(2, 1, true), lit(3, 1, true)]),
        ],
    );
    let parts = formula_to_disconnected_formula(f.copy());
    assert_eq!(parts.len(), 2);
    assert_eq!(parts[0].n, 2);
    assert_eq!(parts[1].n, 2);
    assert_eq!(both_counts(&f), (9, 9));
}

#[test]
fn unit_clause_forces_chain() {
    let f = formula(
        2,
        vec![clause(1, vec![lit(0, 1, true)]), clause(2, vec![lit(0, 1, true), lit(1, 1, true)])],
    );
    assert_eq!(both_counts(&f), (1, 1));
}

#[test]
fn no_clauses_no_variables_counts_one() {
    assert_eq!(both_counts(&formula(0, vec![])), (1, 1));
}

#[test]
fn no_clauses_counts_every_assignment() {
    assert_eq!(both_counts(&formula(5, vec![])), (32, 32));
}

#[test]
fn largest_free_formula() {
    let expected: u128 = 1u128 << 127;
    assert_eq!(both_counts(&formula(127, vec![])), (expected, expected));
    assert_eq!(pow2_u128(127), expected);
}

#[test]
fn false_clause_counts_zero() {
    let f = formula(3, vec![clause(1, vec![]), clause(1, vec![lit(0, 1, true)])]);
    assert!(f.contains_false_clause());
    assert_eq!(both_counts(&f), (0, 0));
}

#[test]
fn vacuous_empty_clause_is_not_false() {
    let f = formula(2, vec![clause(0, vec![])]);
    assert!(!f.contains_false_clause());
    assert_eq!(both_counts(&f), (4, 4));
}

#[test]
fn negative_polarity_and_weights() {
    // 3*x0 + 2*(not x1) + x2 >= 3 over four variables.
    let f = formula(4, vec![clause(3, vec![lit(0, 3, true), lit(1, 2, false), lit(2, 1, true)])]);
    let expected = brute_force(&f);
    assert_eq!(expected, 10);
    assert_eq!(both_counts(&f), (expected, expected));
}

#[test]
fn count_is_within_range() {
    let f = formula(
        5,
        vec![
            clause(2, vec![lit(0, 1, true), lit(1, 2, false), lit(4, 1, true)]),
            clause(1, vec![lit(1, 1, true), lit(2, 1, true)]),
            clause(3, vec![lit(2, 2, true), lit(3, 2, false)]),
        ],
    );
    let (a, b) = both_counts(&f);
    assert!(a <= 32);
    assert_eq!(a, b);
    assert_eq!(a, brute_force(&f));
}

#[test]
fn branch_law_on_concrete_formula() {
    let f = formula(
        4,
        vec![
            clause(2, vec![lit(0, 1, true), lit(1, 1, true), lit(2, 1, false)]),
            clause(1, vec![lit(1, 1, false), lit(3, 1, true)]),
        ],
    );
    let mut cache = CountCache::new(100);
    let whole = count(&f, &mut cache);
    for v in 0..4u32 {
        let t = f.get_sub_formula(v, true);
        let e = f.get_sub_formula(v, false);
        assert_eq!(t.n, 3);
        assert_eq!(whole, count(&t, &mut cache) + count(&e, &mut cache));
    }
    assert_eq!(whole, brute_force(&f));
}

#[test]
fn independence_law_on_concrete_formula() {
    let f = formula(
        6,
        vec![
            clause(1, vec![lit(0, 1, true), lit(1, 1, true)]),
            clause(2, vec![lit(3, 1, true), lit(4, 1, true), lit(5, 1, false)]),
            clause(1, vec![lit(1, 1, false)]),
        ],
    );
    let parts = formula_to_disconnected_formula(f.copy());
    // {x0, x1}, {x3, x4, x5} and the free x2.
    assert_eq!(parts.len(), 3);
    assert_eq!(parts[2].n, 1);
    assert!(parts[2].clauses.is_empty());
    let mut cache = CountCache::new(100);
    let product: u128 = parts.iter().map(|p| count(p, &mut cache)).product();
    assert_eq!(product, count(&f, &mut cache));
    assert_eq!(product, brute_force(&f));
}

#[test]
fn split_merges_parts_joined_by_a_later_clause() {
    let f = formula(
        5,
        vec![
            clause(1, vec![lit(0, 1, true)]),
            clause(1, vec![lit(1, 1, true)]),
            clause(1, vec![lit(0, 1, true), lit(1, 1, true)]),
            clause(1, vec![lit(3, 1, true)]),
        ],
    );
    let parts = formula_to_disconnected_formula(f.copy());
    assert_eq!(parts.len(), 3);
    assert_eq!(parts[0].n, 2);
    assert_eq!(parts[0].clauses.len(), 3);
    assert_eq!(parts[1].n, 1);
    assert_eq!(parts[2].n, 2);
    assert!(parts[2].clauses.is_empty());
}

#[test]
fn cache_serves_equal_formulas_alike() {
    let c1 = || clause(1, vec![lit(0, 1, true), lit(1, 1, true)]);
    let c2 = || clause(2, vec![lit(1, 1, true), lit(2, 1, true), lit(3, 1, true)]);
    let f = formula(4, vec![c1(), c2()]);
    let g = formula(4, vec![c2(), c1()]);
    let mut cache = CountCache::new(100);
    let first = count(&f, &mut cache);
    assert!(cache.len() > 0);
    // The reordered formula is answered from the cache, also with the
    // literals of a clause in another order.
    assert_eq!(cache.get(&g), Some(first));
    let h = formula(4, vec![clause(2, vec![lit(3, 1, true), lit(1, 1, true), lit(2, 1, true)]), c1()]);
    assert_eq!(cache.get(&h), Some(first));
    let other = formula(4, vec![clause(2, vec![lit(3, 1, true), lit(1, 1, true), lit(0, 1, true)]), c1()]);
    assert_eq!(cache.get(&other), None);
    assert!(f.same_up_to_order(&g));
    assert!(!f.same_as(&g));
    let again = count(&f, &mut cache);
    let reordered = count(&g, &mut cache);
    let mut fresh = CountCache::new(0);
    let uncached = count(&g, &mut fresh);
    assert_eq!(fresh.len(), 0);
    assert_eq!(first, again);
    assert_eq!(first, reordered);
    assert_eq!(first, uncached);
    assert_eq!(first, brute_force(&f));
}

#[test]
fn cache_holds_computed_count() {
    let f = formula(3, vec![clause(2, vec![lit(0, 1, true), lit(1, 1, true), lit(2, 1, true)])]);
    let mut cache = CountCache::new(100);
    assert_eq!(cache.get(&f), None);
    let c = count(&f, &mut cache);
    assert_eq!(cache.get(&f), Some(c));
}

#[test]
fn reduction_updates_threshold_and_statistics() {
    let f = formula(3, vec![clause(3, vec![lit(0, 2, true), lit(1, 1, false), lit(2, 1, true)])]);
    let t = f.get_sub_formula(0, true);
    assert_eq!(t.n, 2);
    assert_eq!(t.clauses.len(), 1);
    assert_eq!(t.clauses[0].rhs, 1);
    assert_eq!(t.clauses[0].sub_unas, 2);
    assert_eq!(t.clauses[0].literals, vec![lit(1, 1, false), lit(2, 1, true)]);
    assert_eq!(t.clauses[0].max_l, Some(lit(2, 1, true)));
    // Without x0 the remaining literals cannot reach 3: the clause becomes false.
    let e = f.get_sub_formula(0, false);
    assert_eq!(e.clauses.len(), 1);
    assert_eq!(e.clauses[0].rhs, 1);
    assert!(e.clauses[0].literals.is_empty());
    assert!(e.contains_false_clause());
}

#[test]
fn reduction_drops_satisfied_clause_and_keeps_others() {
    let f = formula(
        3,
        vec![clause(1, vec![lit(0, 1, true)]), clause(1, vec![lit(1, 1, true), lit(2, 1, true)])],
    );
    let t = f.get_sub_formula(0, true);
    assert_eq!(t.clauses.len(), 1);
    assert_eq!(t.clauses[0].rhs, 1);
    assert_eq!(t.clauses[0].literals, vec![lit(1, 1, true), lit(2, 1, true)]);
}

#[test]
fn clause_statistics_prefer_last_largest() {
    let c = clause(2, vec![lit(0, 2, true), lit(1, 1, true), lit(2, 2, false)]);
    assert_eq!(c.sub_unas, 5);
    assert_eq!(c.max_l, Some(lit(2, 2, false)));
    assert!(c.contains(1));
    assert!(!c.contains(3));
    let copy = c.copy();
    assert!(copy.same_as(&c));
    assert!(!copy.same_as(&clause(3, vec![lit(0, 2, true), lit(1, 1, true), lit(2, 2, false)])));
}

#[test]
fn branching_prefers_unit_clause() {
    let f = formula(
        3,
        vec![
            clause(1, vec![lit(0, 1, true), lit(1, 1, true)]),
            clause(1, vec![lit(2, 1, true)]),
            clause(1, vec![lit(1, 1, true)]),
        ],
    );
    assert_eq!(get_necessary_variable(&f), Some(2));
    assert_eq!(get_next_variable(&f), Some(2));
}

#[test]
fn branching_picks_most_frequent_lowest_index() {
    let f = formula(
        4,
        vec![
            clause(1, vec![lit(3, 1, true), lit(2, 1, true)]),
            clause(1, vec![lit(2, 1, true), lit(1, 1, true)]),
            clause(1, vec![lit(1, 1, true), lit(3, 1, true)]),
        ],
    );
    assert_eq!(get_necessary_variable(&f), None);
    assert_eq!(get_next_variable(&f), Some(1));
    assert_eq!(get_next_variable(&formula(2, vec![clause(0, vec![])])), None);
}
