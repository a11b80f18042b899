use vstd::prelude::*;
use crate::formula::{Clause, ClauseView, FormulaView, PBFormula, PbLiteral};
use crate::model::model_count;
use crate::decompose::{
    has_match, lemma_count_reorder, lemma_same_up_to_order_refl, same_clause_up_to_order, same_up_to_order,
};
use vstd::seq_lib::{to_multiset_build, to_multiset_contains, to_multiset_len};

verus! {

impl PBFormula {
    /// A fresh formula with the same meaning.
    pub fn copy(&self) -> (r: PBFormula)
        requires
            self.wf(),
        ensures
            r.wf(),
            r@ == self@,
    {
        let mut clauses: Vec<Clause> = Vec::new();
        let mut i: usize = 0;
        while i < self.clauses.len()
            invariant
                self.wf(),
                0 <= i <= self.clauses.len(),
                clauses.len() == i,
                forall|k: int| 0 <= k < i ==> (#[trigger] clauses[k]).wf() && clauses[k]@ == self.clauses[k]@,
            decreases self.clauses.len() - i,
        {
            clauses.push(self.clauses[i].copy());
            i = i + 1;
        }
        let r = PBFormula { n: self.n, clauses };
        assert(r@.clauses =~= self@.clauses);
        r
    }

    /// Whether the two formulas have the same meaning: the same number of free
    /// variables and the same clauses in the same order.
    pub fn same_as(&self, other: &PBFormula) -> (r: bool)
        ensures
            r == (self@ == other@),
    {
        if self.n != other.n || self.clauses.len() != other.clauses.len() {
            proof {
                if self@ == other@ {
                    assert(self@.clauses.len() == other@.clauses.len());
                }
            }
            return false;
        }
        let mut i: usize = 0;
        while i < self.clauses.len()
            invariant
                self.n == other.n,
                self.clauses.len() == other.clauses.len(),
                0 <= i <= self.clauses.len(),
                forall|k: int| 0 <= k < i ==> self.clauses[k]@ == other.clauses[k]@,
            decreases self.clauses.len() - i,
        {
            if !self.clauses[i].same_as(&other.clauses[i]) {
                proof {
                    if self@ == other@ {
                        assert(self@.clauses[i as int] == other@.clauses[i as int]);
                    }
                }
                return false;
            }
            i = i + 1;
        }
        assert(self@.clauses =~= other@.clauses);
        true
    }
}

/// Number of times `x` occurs in `ls`.
fn literal_count(ls: &Vec<PbLiteral>, x: PbLiteral) -> (r: usize)
    ensures
        r == ls@.to_multiset().count(x),
{
    let mut c: usize = 0;
    let mut i: usize = 0;
    proof {
        assert(ls@.take(0) =~= Seq::<PbLiteral>::empty());
        to_multiset_len(ls@.take(0));
    }
    while i < ls.len()
        invariant
            0 <= i <= ls.len(),
            c <= i,
            c == ls@.take(i as int).to_multiset().count(x),
        decreases ls.len() - i,
    {
        proof {
            assert(ls@.take(i as int + 1) =~= ls@.take(i as int).push(ls@[i as int]));
            to_multiset_build(ls@.take(i as int), ls@[i as int]);
        }
        if ls[i] == x {
            c = c + 1;
        }
        i = i + 1;
    }
    proof {
        assert(ls@.take(i as int) =~= ls@);
    }
    c
}

/// Whether every literal of `a` occurs as often in `b`.
fn counts_within(a: &Vec<PbLiteral>, b: &Vec<PbLiteral>) -> (r: bool)
    ensures
        r == forall|k: int| 0 <= k < a.len() ==> a@.to_multiset().count(#[trigger] a@[k]) == b@.to_multiset().count(a@[k]),
{
    let mut k: usize = 0;
    while k < a.len()
        invariant
            0 <= k <= a.len(),
            forall|t: int| 0 <= t < k ==> a@.to_multiset().count(#[trigger] a@[t]) == b@.to_multiset().count(a@[t]),
        decreases a.len() - k,
    {
        if literal_count(a, a[k]) != literal_count(b, a[k]) {
            return false;
        }
        k = k + 1;
    }
    true
}

impl Clause {
    /// Whether the two clauses have the same threshold and the same literals,
    /// in whatever order.
    pub fn same_up_to_order(&self, other: &Clause) -> (r: bool)
        ensures
            r == same_clause_up_to_order(self@, other@),
    {
        let r = self.rhs == other.rhs && counts_within(&self.literals, &other.literals) && counts_within(
            &other.literals,
            &self.literals,
        );
        proof {
            let a = self.literals@;
            let b = other.literals@;
            if r {
                assert forall|x: PbLiteral| a.to_multiset().count(x) == b.to_multiset().count(x) by {
                    to_multiset_contains(a, x);
                    to_multiset_contains(b, x);
                    if a.contains(x) {
                        let k = choose|k: int| 0 <= k < a.len() && a[k] == x;
                        assert(a.to_multiset().count(a[k]) == b.to_multiset().count(a[k]));
                    } else if b.contains(x) {
                        let k = choose|k: int| 0 <= k < b.len() && b[k] == x;
                        assert(b.to_multiset().count(b[k]) == a.to_multiset().count(b[k]));
                    }
                }
                assert(a.to_multiset() =~= b.to_multiset());
            }
        }
        r
    }
}

/// Whether every clause of `a` is, up to the order of its literals, a clause
/// of `b`.
fn clauses_within(a: &PBFormula, b: &PBFormula) -> (r: bool)
    ensures
        r == forall|i: int| 0 <= i < a@.clauses.len() ==> has_match(#[trigger] a@.clauses[i], b@.clauses),
{
    let mut i: usize = 0;
    while i < a.clauses.len()
        invariant
            0 <= i <= a.clauses.len(),
            forall|k: int| 0 <= k < i ==> has_match(#[trigger] a@.clauses[k], b@.clauses),
        decreases a.clauses.len() - i,
    {
        let mut j: usize = 0;
        let mut found = false;
        while j < b.clauses.len() && !found
            invariant
                0 <= i < a.clauses.len(),
                0 <= j <= b.clauses.len(),
                found ==> has_match(a@.clauses[i as int], b@.clauses),
                !found ==> forall|t: int| 0 <= t < j ==> !same_clause_up_to_order(a@.clauses[i as int], #[trigger] b@.clauses[t]),
            decreases b.clauses.len() - j,
        {
            if a.clauses[i].same_up_to_order(&b.clauses[j]) {
                proof {
                    assert(same_clause_up_to_order(a@.clauses[i as int], b@.clauses[j as int]));
                }
                found = true;
            }
            j = j + 1;
        }
        if !found {
            proof {
                if has_match(a@.clauses[i as int], b@.clauses) {
                    let t = choose|t: int| 0 <= t < b@.clauses.len() && same_clause_up_to_order(a@.clauses[i as int], b@.clauses[t]);
                    assert(!same_clause_up_to_order(a@.clauses[i as int], b@.clauses[t]));
                }
            }
            return false;
        }
        i = i + 1;
    }
    true
}

impl PBFormula {
    /// Whether the two formulas have the same number of free variables and
    /// the same clauses, in whatever order, each with its literals in
    /// whatever order.
    pub fn same_up_to_order(&self, other: &PBFormula) -> (r: bool)
        ensures
            r == same_up_to_order(self@, other@),
    {
        self.n == other.n && clauses_within(self, other) && clauses_within(other, self)
    }
}

impl Clause {
    /// Whether the two clauses have the same threshold and the same literals
    /// in the same order.
    pub fn same_as(&self, other: &Clause) -> (r: bool)
        ensures
            r == (self@ == other@),
    {
        if self.rhs != other.rhs || self.literals.len() != other.literals.len() {
            proof {
                if self@ == other@ {
                    assert(self@.lits.len() == other@.lits.len());
                }
            }
            return false;
        }
        let mut i: usize = 0;
        while i < self.literals.len()
            invariant
                self.rhs == other.rhs,
                self.literals.len() == other.literals.len(),
                0 <= i <= self.literals.len(),
                forall|k: int| 0 <= k < i ==> self.literals[k] == other.literals[k],
            decreases self.literals.len() - i,
        {
            if self.literals[i] != other.literals[i] {
                proof {
                    if self@ == other@ {
                        assert(self@.lits[i as int] == other@.lits[i as int]);
                    }
                }
                return false;
            }
            i = i + 1;
        }
        assert(self@.lits =~= other@.lits);
        true
    }
}

/// Counts already computed, keyed by the formula they belong to. It holds at
/// most `capacity` entries; once full it keeps what it has and takes no more.
pub struct CountCache {
    entries: Vec<(PBFormula, u128)>,
    capacity: usize,
}

impl CountCache {
    /// Every entry is a well-formed formula with its model count.
    pub closed spec fn wf(&self) -> bool {
        &&& self.entries.len() <= self.capacity
        &&& forall|i: int| 0 <= i < self.entries.len() ==> (#[trigger] self.entries[i]).0.wf()
            && self.entries[i].1 == model_count(self.entries[i].0@)
    }

    /// Whether a count is stored of a formula with the same free variables
    /// and the same clauses as `f`, in whatever order.
    pub closed spec fn holds(&self, f: FormulaView) -> bool {
        exists|i: int| 0 <= i < self.entries.len() && same_up_to_order((#[trigger] self.entries[i]).0@, f)
    }

    pub closed spec fn size(&self) -> nat {
        self.entries@.len()
    }

    pub closed spec fn max_size(&self) -> nat {
        self.capacity as nat
    }

    /// An empty cache that holds at most `capacity` counts.
    pub fn new(capacity: usize) -> (r: CountCache)
        ensures
            r.wf(),
            r.size() == 0,
            r.max_size() == capacity,
    {
        CountCache { entries: Vec::new(), capacity }
    }

    /// Number of counts held.
    pub fn len(&self) -> (r: usize)
        ensures
            r == self.size(),
    {
        self.entries.len()
    }

    /// The stored count of a formula with the same free variables and the
    /// same clauses as `f`, in whatever order, if there is one.
    pub fn get(&self, f: &PBFormula) -> (r: Option<u128>)
        requires
            self.wf(),
        ensures
            r matches Some(c) ==> c == model_count(f@),
            r is Some <==> self.holds(f@),
    {
        let mut i: usize = 0;
        while i < self.entries.len()
            invariant
                self.wf(),
                0 <= i <= self.entries.len(),
                forall|k: int| 0 <= k < i ==> !same_up_to_order((#[trigger] self.entries[k]).0@, f@),
            decreases self.entries.len() - i,
        {
            assert(self.entries[i as int].1 == model_count(self.entries[i as int].0@));
            if self.entries[i].0.same_up_to_order(f) {
                proof {
                    lemma_count_reorder(self.entries[i as int].0@, f@);
                }
                return Some(self.entries[i].1);
            }
            i = i + 1;
        }
        None
    }

    /// Stores the count `c` of `f`, unless the cache is full.
    pub fn insert(&mut self, f: PBFormula, c: u128)
        requires
            old(self).wf(),
            f.wf(),
            c == model_count(f@),
        ensures
            final(self).wf(),
            final(self).max_size() == old(self).max_size(),
            final(self).size() <= final(self).max_size(),
            final(self).size() == if old(self).size() < old(self).max_size() {
                old(self).size() + 1
            } else {
                old(self).size()
            },
            forall|g: FormulaView| old(self).holds(g) ==> final(self).holds(g),
            old(self).size() < old(self).max_size() ==> final(self).holds(f@),
            forall|g: FormulaView| final(self).holds(g) ==> old(self).holds(g) || same_up_to_order(f@, g),
    {
        let ghost old_entries = self.entries@;
        let ghost fv = f@;
        if self.entries.len() < self.capacity {
            self.entries.push((f, c));
            proof {
                assert(self.entries@[old_entries.len() as int].0@ == fv);
                lemma_same_up_to_order_refl(fv);
                assert forall|g: FormulaView| #[trigger] old(self).holds(g) implies self.holds(g) by {
                    let i = choose|i: int| 0 <= i < old_entries.len() && same_up_to_order((#[trigger] old_entries[i]).0@, g);
                    assert(self.entries@[i] == old_entries[i]);
                }
                assert forall|g: FormulaView| #[trigger] self.holds(g) implies old(self).holds(g) || same_up_to_order(fv, g) by {
                    let i = choose|i: int| 0 <= i < self.entries.len() && same_up_to_order((#[trigger] self.entries[i]).0@, g);
                    if i < old_entries.len() {
                        assert(self.entries@[i] == old_entries[i]);
                    }
                }
            }
        }
    }
}

} // verus!
