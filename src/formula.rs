use vstd::prelude::*;

verus! {

/// A weighted literal: `factor` counts toward its clause when variable `name`
/// has the value `pos`.
#[derive(Clone, Copy, Debug, PartialEq, Eq, Structural)]
pub struct PbLiteral {
    pub name: u32,
    pub factor: i32,
    pub pos: bool,
}

/// A constraint `sum of the factors of the literals that hold >= rhs`, with
/// two cached statistics: `sub_unas`, the sum of all factors, and `max_l`, a
/// literal of largest factor (the last one in storage order among equals).
#[derive(Debug)]
pub struct Clause {
    pub rhs: i32,
    pub literals: Vec<PbLiteral>,
    pub sub_unas: i32,
    pub max_l: Option<PbLiteral>,
}

/// `n` free variables constrained by a list of clauses.
#[derive(Debug)]
pub struct PBFormula {
    pub n: u32,
    pub clauses: Vec<Clause>,
}

/// What a clause means: its threshold and its literals.
pub struct ClauseView {
    pub rhs: int,
    pub lits: Seq<PbLiteral>,
}

/// What a formula means: its number of free variables and its clauses.
pub struct FormulaView {
    pub n: nat,
    pub clauses: Seq<ClauseView>,
}

impl View for Clause {
    type V = ClauseView;

    open spec fn view(&self) -> ClauseView {
        ClauseView { rhs: self.rhs as int, lits: self.literals@ }
    }
}

impl View for PBFormula {
    type V = FormulaView;

    open spec fn view(&self) -> FormulaView {
        FormulaView { n: self.n as nat, clauses: self.clauses@.map_values(|c: Clause| c@) }
    }
}

/// Sum of all factors.
pub open spec fn factor_sum(ls: Seq<PbLiteral>) -> int
    decreases ls.len(),
{
    if ls.len() == 0 {
        0
    } else {
        factor_sum(ls.drop_last()) + ls.last().factor
    }
}

/// The literal of largest factor; among equal factors the last one.
pub open spec fn max_literal(ls: Seq<PbLiteral>) -> Option<PbLiteral>
    decreases ls.len(),
{
    if ls.len() == 0 {
        None
    } else {
        match max_literal(ls.drop_last()) {
            None => Some(ls.last()),
            Some(m) => if ls.last().factor >= m.factor {
                Some(ls.last())
            } else {
                Some(m)
            },
        }
    }
}

pub open spec fn positive_factors(ls: Seq<PbLiteral>) -> bool {
    forall|i: int| 0 <= i < ls.len() ==> #[trigger] ls[i].factor > 0
}

/// Literals and threshold within the bounds that keep every reduction free of
/// overflow.
pub open spec fn clause_fits(rhs: int, ls: Seq<PbLiteral>) -> bool {
    &&& positive_factors(ls)
    &&& factor_sum(ls) <= i32::MAX
    &&& rhs - factor_sum(ls) >= i32::MIN
}

impl Clause {
    /// Positive factors, and statistics that agree with the literals.
    pub open spec fn wf(&self) -> bool {
        &&& clause_fits(self.rhs as int, self.literals@)
        &&& self.sub_unas == factor_sum(self.literals@)
        &&& self.max_l == max_literal(self.literals@)
    }
}

/// Names of the variables that occur in some literal.
pub open spec fn lit_vars(ls: Seq<PbLiteral>) -> Set<u32>
    decreases ls.len(),
{
    if ls.len() == 0 {
        Set::empty()
    } else {
        lit_vars(ls.drop_last()).insert(ls.last().name)
    }
}

/// Names of the variables that occur in some clause.
pub open spec fn clause_vars(cs: Seq<ClauseView>) -> Set<u32>
    decreases cs.len(),
{
    if cs.len() == 0 {
        Set::empty()
    } else {
        clause_vars(cs.drop_last()).union(lit_vars(cs.last().lits))
    }
}

/// Every clause well formed, and no more variables in the clauses than are free.
pub open spec fn formula_wf(f: FormulaView) -> bool {
    &&& forall|i: int| 0 <= i < f.clauses.len() ==> clause_fits(#[trigger] f.clauses[i].rhs, f.clauses[i].lits)
    &&& clause_vars(f.clauses).len() <= f.n
}

impl PBFormula {
    pub open spec fn wf(&self) -> bool {
        &&& forall|i: int| 0 <= i < self.clauses.len() ==> (#[trigger] self.clauses[i]).wf()
        &&& formula_wf(self@)
    }
}

/// Sum of the factors of the literals that hold under the assignment `a`.
pub open spec fn sat_sum(ls: Seq<PbLiteral>, a: Map<u32, bool>) -> int
    decreases ls.len(),
{
    if ls.len() == 0 {
        0
    } else {
        sat_sum(ls.drop_last(), a) + if a[ls.last().name] == ls.last().pos {
            ls.last().factor as int
        } else {
            0
        }
    }
}

pub open spec fn clause_holds(c: ClauseView, a: Map<u32, bool>) -> bool {
    sat_sum(c.lits, a) >= c.rhs
}

pub open spec fn all_hold(cs: Seq<ClauseView>, a: Map<u32, bool>) -> bool {
    forall|i: int| 0 <= i < cs.len() ==> clause_holds(#[trigger] cs[i], a)
}

/// A clause that no assignment satisfies because it has no literals left.
pub open spec fn is_false_clause(c: ClauseView) -> bool {
    c.lits.len() == 0 && c.rhs > 0
}

pub open spec fn has_false_clause(cs: Seq<ClauseView>) -> bool {
    exists|i: int| 0 <= i < cs.len() && is_false_clause(#[trigger] cs[i])
}

pub proof fn lemma_factor_sum_prefix(ls: Seq<PbLiteral>, i: int)
    requires
        positive_factors(ls),
        0 <= i <= ls.len(),
    ensures
        factor_sum(ls.take(i)) <= factor_sum(ls),
        factor_sum(ls.take(i)) >= 0,
    decreases ls.len(),
{
    if i < ls.len() {
        assert(ls.drop_last().take(i) =~= ls.take(i));
        lemma_factor_sum_prefix(ls.drop_last(), i);
    } else {
        assert(ls.take(i) =~= ls);
        if ls.len() > 0 {
            lemma_factor_sum_prefix(ls.drop_last(), i - 1);
            assert(ls.drop_last().take(i - 1) =~= ls.drop_last());
        }
    }
}

impl Clause {
    /// Builds a clause and computes its statistics.
    pub fn new(rhs: i32, literals: Vec<PbLiteral>) -> (r: Clause)
        requires
            clause_fits(rhs as int, literals@),
        ensures
            r.wf(),
            r@ == (ClauseView { rhs: rhs as int, lits: literals@ }),
    {
        let mut sum: i32 = 0;
        let mut max_l: Option<PbLiteral> = None;
        let mut i: usize = 0;
        while i < literals.len()
            invariant
                clause_fits(rhs as int, literals@),
                0 <= i <= literals.len(),
                sum == factor_sum(literals@.take(i as int)),
                max_l == max_literal(literals@.take(i as int)),
            decreases literals.len() - i,
        {
            let l = literals[i];
            proof {
                let t = literals@.take(i as int + 1);
                assert(t.drop_last() =~= literals@.take(i as int));
                lemma_factor_sum_prefix(literals@, i as int + 1);
            }
            sum = sum + l.factor;
            max_l = match max_l {
                None => Some(l),
                Some(m) => if l.factor >= m.factor {
                    Some(l)
                } else {
                    Some(m)
                },
            };
            i = i + 1;
        }
        assert(literals@.take(i as int) =~= literals@);
        Clause { rhs, literals, sub_unas: sum, max_l }
    }

    /// Whether variable `literal_index` occurs in the clause.
    pub fn contains(&self, literal_index: u32) -> (r: bool)
        ensures
            r == lit_vars(self.literals@).contains(literal_index),
    {
        let mut i: usize = 0;
        while i < self.literals.len()
            invariant
                0 <= i <= self.literals.len(),
                !lit_vars(self.literals@.take(i as int)).contains(literal_index),
            decreases self.literals.len() - i,
        {
            proof {
                assert(self.literals@.take(i as int + 1).drop_last() =~= self.literals@.take(i as int));
            }
            if self.literals[i].name == literal_index {
                proof {
                    lemma_lit_vars_prefix(self.literals@, i as int + 1);
                }
                return true;
            }
            i = i + 1;
        }
        assert(self.literals@.take(i as int) =~= self.literals@);
        false
    }
}

/// Variables of a prefix are variables of the whole.
pub proof fn lemma_lit_vars_prefix(ls: Seq<PbLiteral>, i: int)
    requires
        0 <= i <= ls.len(),
    ensures
        lit_vars(ls.take(i)).subset_of(lit_vars(ls)),
    decreases ls.len(),
{
    if i < ls.len() {
        assert(ls.drop_last().take(i) =~= ls.take(i));
        lemma_lit_vars_prefix(ls.drop_last(), i);
    } else {
        assert(ls.take(i) =~= ls);
    }
}

} // verus!
