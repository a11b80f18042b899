use vstd::prelude::*;
use crate::equation::{Equation, EquationPart, EquationSide, EquationSymbol, InvalidFormula};

verus! {

/// What a term contributes under the assignment `m`.
pub open spec fn part_value(p: EquationPart, m: Map<u32, bool>) -> int {
    match p {
        EquationPart::Literal { factor, name, pos } => if m[name] == pos {
            factor as int
        } else {
            0
        },
        EquationPart::Factor(c) => c as int,
    }
}

pub open spec fn side_value(ps: Seq<EquationPart>, m: Map<u32, bool>) -> int
    decreases ps.len(),
{
    if ps.len() == 0 {
        0
    } else {
        side_value(ps.drop_last(), m) + part_value(ps.last(), m)
    }
}

/// Whether the equation holds under the assignment `m`.
pub open spec fn equation_holds(e: Equation, m: Map<u32, bool>) -> bool {
    let d = side_value(e.e1.literals@, m) - side_value(e.e2.literals@, m);
    match e.symbol {
        EquationSymbol::eq => d == 0,
        EquationSymbol::ge => d >= 0,
        EquationSymbol::le => d <= 0,
    }
}

/// A canonical equation: positive-polarity literals over distinct variables
/// with nonzero weights on the left, `>=`, and one constant on the right.
pub open spec fn is_canonical(e: Equation) -> bool {
    &&& e.symbol == EquationSymbol::ge
    &&& e.e2.literals@.len() == 1
    &&& e.e2.literals@[0] is Factor
    &&& forall|i: int| 0 <= i < e.e1.literals@.len() ==> (#[trigger] e.e1.literals@[i] matches EquationPart::Literal {
        factor,
        pos,
        ..
    } && factor != 0 && pos)
    &&& forall|i: int, j: int| 0 <= i < j < e.e1.literals@.len() ==> name_of(#[trigger] e.e1.literals@[i]) != name_of(
        #[trigger] e.e1.literals@[j],
    )
}

pub open spec fn name_of(p: EquationPart) -> u32 {
    match p {
        EquationPart::Literal { name, .. } => name,
        EquationPart::Factor(_) => 0,
    }
}

/// Weight of `x` in a side: a literal over `x` adds its weight, negated where
/// its polarity is negative.
pub open spec fn side_coefficient(ps: Seq<EquationPart>, x: u32) -> int
    decreases ps.len(),
{
    if ps.len() == 0 {
        0
    } else {
        side_coefficient(ps.drop_last(), x) + part_coefficient(ps.last(), x)
    }
}

pub open spec fn part_coefficient(p: EquationPart, x: u32) -> int {
    match p {
        EquationPart::Literal { factor, name, pos } => if name != x {
            0
        } else if pos {
            factor as int
        } else {
            -factor
        },
        EquationPart::Factor(_) => 0,
    }
}

/// Constant of a side: its constants, and the weight of each literal of
/// negative polarity (`w * not x` is `w - w * x`).
pub open spec fn side_constant(ps: Seq<EquationPart>) -> int
    decreases ps.len(),
{
    if ps.len() == 0 {
        0
    } else {
        side_constant(ps.drop_last()) + part_constant(ps.last())
    }
}

pub open spec fn part_constant(p: EquationPart) -> int {
    match p {
        EquationPart::Literal { factor, pos, .. } => if pos {
            0
        } else {
            factor as int
        },
        EquationPart::Factor(c) => c as int,
    }
}

pub open spec fn fits(v: int) -> bool {
    -0x7fff_ffff <= v <= 0x7fff_ffff
}

/// The combined weight of every variable, and the combined constant, of
/// `left - right` fit in 32 bits (the least 32-bit value excluded).
pub open spec fn weights_fit(e: Equation) -> bool {
    &&& fits(side_constant(e.e1.literals@) - side_constant(e.e2.literals@))
    &&& forall|x: u32| fits(#[trigger] side_coefficient(e.e1.literals@, x) - side_coefficient(e.e2.literals@, x))
}

/// Weight collected for `x`.
pub open spec fn collected_coefficient(names: Seq<u32>, coefs: Seq<i128>, x: u32) -> int
    decreases names.len(),
{
    if names.len() == 0 || coefs.len() == 0 {
        0
    } else {
        collected_coefficient(names.drop_last(), coefs.drop_last(), x) + if names.last() == x {
            coefs.last() as int
        } else {
            0
        }
    }
}

proof fn lemma_coefficient_update(names: Seq<u32>, coefs: Seq<i128>, k: int, c: i128, x: u32)
    requires
        names.len() == coefs.len(),
        0 <= k < names.len(),
    ensures
        collected_coefficient(names, coefs.update(k, c), x) == collected_coefficient(names, coefs, x) + if names[k] == x {
            c - coefs[k]
        } else {
            0
        },
    decreases names.len(),
{
    if k < names.len() - 1 {
        assert(coefs.update(k, c).drop_last() =~= coefs.drop_last().update(k, c));
        lemma_coefficient_update(names.drop_last(), coefs.drop_last(), k, c, x);
    } else {
        assert(coefs.update(k, c).drop_last() =~= coefs.drop_last());
    }
}

proof fn lemma_coefficient_push(names: Seq<u32>, coefs: Seq<i128>, y: u32, c: i128, x: u32)
    requires
        names.len() == coefs.len(),
    ensures
        collected_coefficient(names.push(y), coefs.push(c), x) == collected_coefficient(names, coefs, x) + if y == x {
            c as int
        } else {
            0
        },
{
    assert(names.push(y).drop_last() =~= names);
    assert(coefs.push(c).drop_last() =~= coefs);
}

/// Over distinct names, the weight collected for a name is the one stored with it;
/// a variable without a stored weight has none.
proof fn lemma_coefficient_at(names: Seq<u32>, coefs: Seq<i128>, x: u32)
    requires
        names.len() == coefs.len(),
        names.no_duplicates(),
    ensures
        forall|k: int| 0 <= k < names.len() && names[k] == x ==> collected_coefficient(names, coefs, x) == coefs[k],
        !names.contains(x) ==> collected_coefficient(names, coefs, x) == 0,
    decreases names.len(),
{
    if names.len() > 0 {
        let p = names.drop_last();
        assert(p.no_duplicates());
        lemma_coefficient_at(p, coefs.drop_last(), x);
        assert forall|k: int| 0 <= k < names.len() && names[k] == x implies collected_coefficient(names, coefs, x) == coefs[k] by {
            if k < names.len() - 1 {
                assert(p[k] == x);
                assert(names.last() != x);
            }
        }
        if !names.contains(x) {
            assert(!p.contains(x)) by {
                if p.contains(x) {
                    let k = choose|k: int| 0 <= k < p.len() && p[k] == x;
                    assert(names[k] == x);
                }
            }
            assert(names[names.len() - 1] != x);
        }
    }
}

/// The variables of the terms in the order they first appear.
pub open spec fn appearance(ps: Seq<EquationPart>) -> Seq<u32>
    decreases ps.len(),
{
    if ps.len() == 0 {
        Seq::empty()
    } else {
        appearance_step(appearance(ps.drop_last()), ps.last())
    }
}

pub open spec fn appearance_step(a: Seq<u32>, p: EquationPart) -> Seq<u32> {
    match p {
        EquationPart::Literal { name, .. } => if a.contains(name) {
            a
        } else {
            a.push(name)
        },
        EquationPart::Factor(_) => a,
    }
}

/// Combined weight of `x` in `left - right`.
pub open spec fn coefficient(e: Equation, x: u32) -> int {
    side_coefficient(e.e1.literals@, x) - side_coefficient(e.e2.literals@, x)
}

/// Combined constant of `left - right`.
pub open spec fn constant(e: Equation) -> int {
    side_constant(e.e1.literals@) - side_constant(e.e2.literals@)
}

/// The literals of a canonical form of `e`: one for each variable of
/// `names` with a nonzero combined weight, in that order, the weight negated
/// where `flip` holds.
pub open spec fn canonical_literals(names: Seq<u32>, e: Equation, flip: bool) -> Seq<EquationPart>
    decreases names.len(),
{
    if names.len() == 0 {
        Seq::empty()
    } else {
        let rest = canonical_literals(names.drop_last(), e, flip);
        let x = names.last();
        if coefficient(e, x) == 0 {
            rest
        } else {
            rest.push(
                EquationPart::Literal {
                    factor: (if flip {
                        -coefficient(e, x)
                    } else {
                        coefficient(e, x)
                    }) as i32,
                    name: x,
                    pos: true,
                },
            )
        }
    }
}

/// A canonical form: `literals >= constant`.
pub open spec fn canonical_form(e: Equation, flip: bool) -> (Seq<EquationPart>, i32) {
    (
        canonical_literals(appearance(e.e1.literals@ + e.e2.literals@), e, flip),
        (if flip {
            constant(e)
        } else {
            -constant(e)
        }) as i32,
    )
}

/// The canonical forms of `e`: `<=` turned around, `>=` as it is, and both
/// for `=`, the `<=` half first.
pub open spec fn canonical_forms(e: Equation) -> Seq<(Seq<EquationPart>, i32)> {
    match e.symbol {
        EquationSymbol::le => seq![canonical_form(e, true)],
        EquationSymbol::ge => seq![canonical_form(e, false)],
        EquationSymbol::eq => seq![canonical_form(e, true), canonical_form(e, false)],
    }
}

/// The canonical forms of all equations, in order.
pub open spec fn canonical_system(es: Seq<Equation>) -> Seq<(Seq<EquationPart>, i32)>
    decreases es.len(),
{
    if es.len() == 0 {
        Seq::empty()
    } else {
        canonical_system(es.drop_last()) + canonical_forms(es.last())
    }
}

/// `e` is the equation `form.0 >= form.1`.
pub open spec fn is_form(e: Equation, form: (Seq<EquationPart>, i32)) -> bool {
    &&& e.symbol == EquationSymbol::ge
    &&& e.e1.literals@ == form.0
    &&& e.e2.literals@ == seq![EquationPart::Factor(form.1)]
}

pub open spec fn equations_match(es: Seq<Equation>, forms: Seq<(Seq<EquationPart>, i32)>) -> bool {
    es.len() == forms.len() && forall|i: int| 0 <= i < es.len() ==> is_form(#[trigger] es[i], forms[i])
}

/// Value of collected weights: `sum of coefs[k]` over the `k` whose variable is true.
pub open spec fn collected_value(names: Seq<u32>, coefs: Seq<i128>, m: Map<u32, bool>) -> int
    decreases names.len(),
{
    if names.len() == 0 || coefs.len() == 0 {
        0
    } else {
        collected_value(names.drop_last(), coefs.drop_last(), m) + if m[names.last()] {
            coefs.last() as int
        } else {
            0
        }
    }
}

proof fn lemma_collected_update(names: Seq<u32>, coefs: Seq<i128>, k: int, c: i128, m: Map<u32, bool>)
    requires
        names.len() == coefs.len(),
        0 <= k < names.len(),
    ensures
        collected_value(names, coefs.update(k, c), m) == collected_value(names, coefs, m) + if m[names[k]] {
            c - coefs[k]
        } else {
            0
        },
    decreases names.len(),
{
    if k < names.len() - 1 {
        assert(coefs.update(k, c).drop_last() =~= coefs.drop_last().update(k, c));
        lemma_collected_update(names.drop_last(), coefs.drop_last(), k, c, m);
    } else {
        assert(coefs.update(k, c).drop_last() =~= coefs.drop_last());
    }
}

proof fn lemma_collected_push(names: Seq<u32>, coefs: Seq<i128>, x: u32, c: i128, m: Map<u32, bool>)
    requires
        names.len() == coefs.len(),
    ensures
        collected_value(names.push(x), coefs.push(c), m) == collected_value(names, coefs, m) + if m[x] {
            c as int
        } else {
            0
        },
{
    assert(names.push(x).drop_last() =~= names);
    assert(coefs.push(c).drop_last() =~= coefs);
}

/// Collected weights and a constant `k` such that `left - right` equals
/// `k + collected value` under every assignment.
struct Collected {
    names: Vec<u32>,
    coefs: Vec<i128>,
    constant: i128,
}

/// Adds the term, negated where `negate` holds, to the collection.
fn collect_part(acc: &mut Collected, p: EquationPart, negate: bool, Ghost(bound): Ghost<int>)
    requires
        old(acc).names.len() == old(acc).coefs.len(),
        old(acc).names@.no_duplicates(),
        0 <= bound < 0x1_0000_0000_0000_0000_0000,
        -bound * 0x8000_0000 <= old(acc).constant <= bound * 0x8000_0000,
        forall|k: int| 0 <= k < old(acc).coefs.len() ==> -bound * 0x8000_0000 <= #[trigger] old(acc).coefs@[k] <= bound * 0x8000_0000,
    ensures
        final(acc).names.len() == final(acc).coefs.len(),
        final(acc).names@.no_duplicates(),
        -(bound + 1) * 0x8000_0000 <= final(acc).constant <= (bound + 1) * 0x8000_0000,
        forall|k: int| 0 <= k < final(acc).coefs.len() ==> -(bound + 1) * 0x8000_0000 <= #[trigger] final(acc).coefs@[k] <= (bound + 1)
            * 0x8000_0000,
        forall|m: Map<u32, bool>| #[trigger] collected_value(final(acc).names@, final(acc).coefs@, m) + final(acc).constant
            == collected_value(old(acc).names@, old(acc).coefs@, m) + old(acc).constant + if negate {
            -part_value(p, m)
        } else {
            part_value(p, m)
        },        final(acc).names@ == appearance_step(old(acc).names@, p),
        final(acc).constant == old(acc).constant + if negate {
            -part_constant(p)
        } else {
            part_constant(p)
        },
        forall|x: u32| #[trigger] collected_coefficient(final(acc).names@, final(acc).coefs@, x) == collected_coefficient(
            old(acc).names@,
            old(acc).coefs@,
            x,
        ) + if negate {
            -part_coefficient(p, x)
        } else {
            part_coefficient(p, x)
        },
{
    match p {
        EquationPart::Factor(c) => {
            let v: i128 = if negate { -(c as i128) } else { c as i128 };
            acc.constant = acc.constant + v;
        },
        EquationPart::Literal { factor, name, pos } => {
            let f: i128 = if negate { -(factor as i128) } else { factor as i128 };
            // A literal of negative polarity is `factor - factor * x`.
            let c: i128 = if pos {
                f
            } else {
                acc.constant = acc.constant + f;
                -f
            };
            let ghost names0 = acc.names@;
            let ghost coefs0 = acc.coefs@;
            let mut k: usize = 0;
            while k < acc.names.len() && acc.names[k] != name
                invariant
                    acc.names@ == names0,
                    acc.coefs@ == coefs0,
                    0 <= k <= names0.len(),
                    forall|j: int| 0 <= j < k ==> names0[j] != name,
                decreases names0.len() - k,
            {
                k = k + 1;
            }
            if k < acc.names.len() {
                let v = acc.coefs[k] + c;
                acc.coefs.set(k, v);
                proof {
                    assert forall|m: Map<u32, bool>| #[trigger] collected_value(acc.names@, acc.coefs@, m) == collected_value(
                        names0,
                        coefs0,
                        m,
                    ) + if m[name] {
                        c as int
                    } else {
                        0
                    } by {
                        lemma_collected_update(names0, coefs0, k as int, v, m);
                    }
                    assert forall|x: u32| #[trigger] collected_coefficient(acc.names@, acc.coefs@, x) == collected_coefficient(
                        names0,
                        coefs0,
                        x,
                    ) + if name == x {
                        c as int
                    } else {
                        0
                    } by {
                        lemma_coefficient_update(names0, coefs0, k as int, v, x);
                    }
                }
            } else {
                acc.names.push(name);
                acc.coefs.push(c);
                proof {
                    assert forall|m: Map<u32, bool>| #[trigger] collected_value(acc.names@, acc.coefs@, m) == collected_value(
                        names0,
                        coefs0,
                        m,
                    ) + if m[name] {
                        c as int
                    } else {
                        0
                    } by {
                        lemma_collected_push(names0, coefs0, name, c, m);
                    }
                    assert forall|x: u32| #[trigger] collected_coefficient(acc.names@, acc.coefs@, x) == collected_coefficient(
                        names0,
                        coefs0,
                        x,
                    ) + if name == x {
                        c as int
                    } else {
                        0
                    } by {
                        lemma_coefficient_push(names0, coefs0, name, c, x);
                    }
                    assert forall|a: int, b: int| 0 <= a < b < acc.names@.len() implies acc.names@[a] != acc.names@[b] by {
                        if b == names0.len() {
                            assert(names0[a] != name);
                        }
                    }
                }
            }
        },
    }
}

/// Collects both sides of `e`, the right one negated.
fn collect(e: &Equation) -> (r: Collected)
    ensures
        r.names.len() == r.coefs.len(),
        r.names@.no_duplicates(),
        -(e.e1.literals.len() + e.e2.literals.len()) * 0x8000_0000 <= r.constant <= (e.e1.literals.len() + e.e2.literals.len())
            * 0x8000_0000,
        forall|k: int| 0 <= k < r.coefs.len() ==> -(e.e1.literals.len() + e.e2.literals.len()) * 0x8000_0000 <= #[trigger] r.coefs@[k]
            <= (e.e1.literals.len() + e.e2.literals.len()) * 0x8000_0000,
        forall|m: Map<u32, bool>| #[trigger] collected_value(r.names@, r.coefs@, m) + r.constant == side_value(e.e1.literals@, m)
            - side_value(e.e2.literals@, m),
        r.constant == side_constant(e.e1.literals@) - side_constant(e.e2.literals@),
        r.names@ == appearance(e.e1.literals@ + e.e2.literals@),
        forall|x: u32| #[trigger] collected_coefficient(r.names@, r.coefs@, x) == side_coefficient(e.e1.literals@, x)
            - side_coefficient(e.e2.literals@, x),
{
    let mut acc = Collected { names: Vec::new(), coefs: Vec::new(), constant: 0 };
    let ghost l1 = e.e1.literals@;
    let ghost l2 = e.e2.literals@;
    let mut i: usize = 0;
    proof {
        assert(l1.take(0) =~= Seq::<EquationPart>::empty());
    }
    while i < e.e1.literals.len()
        invariant
            l1 == e.e1.literals@,
            0 <= i <= l1.len(),
            acc.names.len() == acc.coefs.len(),
            acc.names@.no_duplicates(),
            -i * 0x8000_0000 <= acc.constant <= i * 0x8000_0000,
            forall|k: int| 0 <= k < acc.coefs.len() ==> -i * 0x8000_0000 <= #[trigger] acc.coefs@[k] <= i * 0x8000_0000,
            forall|m: Map<u32, bool>| #[trigger] collected_value(acc.names@, acc.coefs@, m) + acc.constant == side_value(l1.take(i as int), m),
            acc.constant == side_constant(l1.take(i as int)),
            acc.names@ == appearance(l1.take(i as int)),
            forall|x: u32| #[trigger] collected_coefficient(acc.names@, acc.coefs@, x) == side_coefficient(l1.take(i as int), x),
        decreases l1.len() - i,
    {
        proof {
            assert(l1.take(i as int + 1).drop_last() =~= l1.take(i as int));
        }
        collect_part(&mut acc, e.e1.literals[i], false, Ghost(i as int));
        i = i + 1;
    }
    proof {
        assert(l1.take(i as int) =~= l1);
        assert(l2.take(0) =~= Seq::<EquationPart>::empty());
        assert(l1 + l2.take(0) =~= l1);
    }
    let n1 = i;
    let mut j: usize = 0;
    while j < e.e2.literals.len()
        invariant
            l1 == e.e1.literals@,
            l2 == e.e2.literals@,
            n1 == l1.len(),
            0 <= j <= l2.len(),
            acc.names.len() == acc.coefs.len(),
            acc.names@.no_duplicates(),
            -(n1 + j) * 0x8000_0000 <= acc.constant <= (n1 + j) * 0x8000_0000,
            forall|k: int| 0 <= k < acc.coefs.len() ==> -(n1 + j) * 0x8000_0000 <= #[trigger] acc.coefs@[k] <= (n1 + j) * 0x8000_0000,
            forall|m: Map<u32, bool>| #[trigger] collected_value(acc.names@, acc.coefs@, m) + acc.constant == side_value(l1, m)
                - side_value(l2.take(j as int), m),
            acc.constant == side_constant(l1) - side_constant(l2.take(j as int)),
            acc.names@ == appearance(l1 + l2.take(j as int)),
            forall|x: u32| #[trigger] collected_coefficient(acc.names@, acc.coefs@, x) == side_coefficient(l1, x) - side_coefficient(
                l2.take(j as int),
                x,
            ),
        decreases l2.len() - j,
    {
        proof {
            assert(l2.take(j as int + 1).drop_last() =~= l2.take(j as int));
            assert((l1 + l2.take(j as int + 1)).drop_last() =~= l1 + l2.take(j as int));
            assert((l1 + l2.take(j as int + 1)).last() == l2[j as int]);
        }
        collect_part(&mut acc, e.e2.literals[j], true, Ghost(n1 + j as int));
        j = j + 1;
    }
    proof {
        assert(l2.take(j as int) =~= l2);
        assert(l1 + l2.take(j as int) =~= l1 + l2);
    }
    acc
}

/// The canonical equation `collected value >= -constant`, or, where `flip`
/// holds, `-collected value >= constant`.
fn canonical_from(acc: &Collected, flip: bool, src: &Equation) -> (r: Result<Equation, InvalidFormula>)
    requires
        acc.names.len() == acc.coefs.len(),
        acc.names@.no_duplicates(),
        forall|x: u32| #[trigger] collected_coefficient(acc.names@, acc.coefs@, x) == coefficient(*src, x),
        acc.names@ == appearance(src.e1.literals@ + src.e2.literals@),
        acc.constant == constant(*src),
    ensures
        r matches Ok(e) ==> is_form(e, canonical_form(*src, flip)),
        r matches Ok(e) ==> is_canonical(e) && forall|m: Map<u32, bool>| #[trigger] equation_holds(e, m) == if flip {
            collected_value(acc.names@, acc.coefs@, m) + acc.constant <= 0
        } else {
            collected_value(acc.names@, acc.coefs@, m) + acc.constant >= 0
        },
        r matches Err(err) ==> err == InvalidFormula::OutOfRange,
        r is Err <==> !(fits(acc.constant as int) && forall|k: int| 0 <= k < acc.coefs.len() ==> fits(#[trigger] acc.coefs@[k] as int)),
{
    let max: i128 = i32::MAX as i128;
    if acc.constant > max || acc.constant < -max {
        return Err(InvalidFormula::OutOfRange);
    }
    let ghost names = acc.names@;
    let ghost coefs = acc.coefs@;
    let mut lits: Vec<EquationPart> = Vec::new();
    let mut k: usize = 0;
    proof {
        assert(names.take(0) =~= Seq::<u32>::empty());
        assert(coefs.take(0) =~= Seq::<i128>::empty());
    }
    while k < acc.names.len()
        invariant
            max == i32::MAX as i128,
            -max <= acc.constant <= max,
            names == acc.names@,
            coefs == acc.coefs@,
            names.len() == coefs.len(),
            names.no_duplicates(),
            0 <= k <= names.len(),
            forall|t: int| 0 <= t < k ==> fits(#[trigger] coefs[t] as int),
            forall|x: u32| #[trigger] collected_coefficient(names, coefs, x) == coefficient(*src, x),
            lits@ == canonical_literals(names.take(k as int), *src, flip),
            forall|i: int| 0 <= i < lits@.len() ==> (#[trigger] lits@[i] matches EquationPart::Literal { factor, pos, .. } && factor != 0
                && pos),
            forall|i: int| 0 <= i < lits@.len() ==> exists|t: int| 0 <= t < k && names[t] == name_of(#[trigger] lits@[i]),
            forall|i: int, j: int| 0 <= i < j < lits@.len() ==> name_of(#[trigger] lits@[i]) != name_of(#[trigger] lits@[j]),
            forall|m: Map<u32, bool>| #[trigger] side_value(lits@, m) == if flip {
                -collected_value(names.take(k as int), coefs.take(k as int), m)
            } else {
                collected_value(names.take(k as int), coefs.take(k as int), m)
            },
        decreases names.len() - k,
    {
        let c = acc.coefs[k];
        let x = acc.names[k];
        if c > max || c < -max {
            return Err(InvalidFormula::OutOfRange);
        }
        proof {
            lemma_coefficient_at(names, coefs, x);
            assert(collected_coefficient(names, coefs, x) == c);
            assert(names.take(k as int + 1).drop_last() =~= names.take(k as int));
            assert(coefs.take(k as int + 1).drop_last() =~= coefs.take(k as int));
            assert(names.take(k as int + 1).last() == x);
            assert(coefs.take(k as int + 1).last() == c);
        }
        if c != 0 {
            let f: i32 = if flip { -(c as i32) } else { c as i32 };
            let ghost old_lits = lits@;
            lits.push(EquationPart::Literal { factor: f, name: x, pos: true });
            proof {
                assert(lits@.drop_last() =~= old_lits);
                assert(lits@ =~= canonical_literals(names.take(k as int + 1), *src, flip));
                assert forall|m: Map<u32, bool>| #[trigger] side_value(lits@, m) == if flip {
                    -collected_value(names.take(k as int + 1), coefs.take(k as int + 1), m)
                } else {
                    collected_value(names.take(k as int + 1), coefs.take(k as int + 1), m)
                } by {
                    assert(side_value(old_lits, m) == if flip {
                        -collected_value(names.take(k as int), coefs.take(k as int), m)
                    } else {
                        collected_value(names.take(k as int), coefs.take(k as int), m)
                    });
                }
                assert forall|i: int| 0 <= i < old_lits.len() implies name_of(#[trigger] old_lits[i]) != x by {
                    let t = choose|t: int| 0 <= t < k && names[t] == name_of(old_lits[i]);
                    assert(names[t] != names[k as int]);
                }
                assert forall|i: int| 0 <= i < lits@.len() implies exists|t: int| 0 <= t < k + 1 && names[t] == name_of(
                    #[trigger] lits@[i],
                ) by {
                    if i < old_lits.len() {
                        assert(lits@[i] == old_lits[i]);
                        let t = choose|t: int| 0 <= t < k && names[t] == name_of(old_lits[i]);
                    } else {
                        assert(names[k as int] == name_of(lits@[i]));
                    }
                }
                assert forall|i: int, j: int| 0 <= i < j < lits@.len() implies name_of(#[trigger] lits@[i]) != name_of(
                    #[trigger] lits@[j],
                ) by {
                    if j < old_lits.len() {
                        assert(lits@[i] == old_lits[i] && lits@[j] == old_lits[j]);
                    } else {
                        assert(lits@[i] == old_lits[i]);
                    }
                }
                assert forall|i: int| 0 <= i < lits@.len() implies (#[trigger] lits@[i] matches EquationPart::Literal {
                    factor,
                    pos,
                    ..
                } && factor != 0 && pos) by {
                    if i < old_lits.len() {
                        assert(lits@[i] == old_lits[i]);
                    }
                }
            }
        } else {
            proof {
                assert(lits@ =~= canonical_literals(names.take(k as int + 1), *src, flip));
                assert forall|m: Map<u32, bool>| #[trigger] side_value(lits@, m) == if flip {
                    -collected_value(names.take(k as int + 1), coefs.take(k as int + 1), m)
                } else {
                    collected_value(names.take(k as int + 1), coefs.take(k as int + 1), m)
                } by {
                    assert(side_value(lits@, m) == if flip {
                        -collected_value(names.take(k as int), coefs.take(k as int), m)
                    } else {
                        collected_value(names.take(k as int), coefs.take(k as int), m)
                    });
                }
                assert forall|i: int| 0 <= i < lits@.len() implies exists|t: int| 0 <= t < k + 1 && names[t] == name_of(
                    #[trigger] lits@[i],
                ) by {
                    let t = choose|t: int| 0 <= t < k && names[t] == name_of(lits@[i]);
                }
            }
        }
        k = k + 1;
    }
    proof {
        assert(names.take(k as int) =~= names);
        assert(coefs.take(k as int) =~= coefs);
    }
    let constant: i32 = if flip { acc.constant as i32 } else { -(acc.constant as i32) };
    let mut right: Vec<EquationPart> = Vec::new();
    right.push(EquationPart::Factor(constant));
    let e = Equation {
        e1: EquationSide { literals: lits },
        e2: EquationSide { literals: right },
        symbol: EquationSymbol::ge,
    };
    proof {
        let r2 = e.e2.literals@;
        assert(r2.len() == 1);
        assert(r2.drop_last() =~= Seq::<EquationPart>::empty());
        assert forall|m: Map<u32, bool>| side_value(r2, m) == constant as int by {
            assert(r2[0] == EquationPart::Factor(constant));
            assert(r2.last() == EquationPart::Factor(constant));
            assert(side_value(r2.drop_last(), m) == 0);
            assert(side_value(r2, m) == side_value(r2.drop_last(), m) + part_value(r2.last(), m));
        }
        assert(r2 =~= seq![EquationPart::Factor(constant)]);
    }
    Ok(e)
}

/// The canonical equations that hold exactly where `e` holds: one for `>=`
/// and for `<=`, the `<=` and the `>=` half for `=`. Fails where a combined
/// weight or constant does not fit in 32 bits (or is the least 32-bit value).
pub fn preprocess_equation(e: &Equation) -> (r: Result<Vec<Equation>, InvalidFormula>)
    ensures
        r matches Ok(es) ==> (forall|i: int| 0 <= i < es.len() ==> is_canonical(#[trigger] es@[i])) && forall|m: Map<u32, bool>|
            #[trigger] equation_holds(*e, m) == all_equations_hold(es@, m),
        r matches Err(err) ==> err == InvalidFormula::OutOfRange,
        r is Err <==> !weights_fit(*e),
        r matches Ok(es) ==> equations_match(es@, canonical_forms(*e)),
{
    let acc = collect(e);
    proof {
        let ok = fits(acc.constant as int) && forall|k: int| 0 <= k < acc.coefs.len() ==> fits(#[trigger] acc.coefs@[k] as int);
        assert forall|x: u32| #[trigger] collected_coefficient(acc.names@, acc.coefs@, x) == 0 || exists|k: int| 0 <= k < acc.names.len() && acc.names@[k] == x
            && collected_coefficient(acc.names@, acc.coefs@, x) == acc.coefs@[k] by {
            lemma_coefficient_at(acc.names@, acc.coefs@, x);
            if acc.names@.contains(x) {
                let k = choose|k: int| 0 <= k < acc.names@.len() && acc.names@[k] == x;
            }
        }
        if ok {
            assert forall|x: u32| fits(#[trigger] side_coefficient(e.e1.literals@, x) - side_coefficient(e.e2.literals@, x)) by {
                assert(collected_coefficient(acc.names@, acc.coefs@, x) == side_coefficient(e.e1.literals@, x) - side_coefficient(e.e2.literals@, x));
            }
        }
        if weights_fit(*e) {
            assert forall|k: int| 0 <= k < acc.coefs.len() implies fits(#[trigger] acc.coefs@[k] as int) by {
                let x = acc.names@[k];
                lemma_coefficient_at(acc.names@, acc.coefs@, x);
                assert(fits(side_coefficient(e.e1.literals@, x) - side_coefficient(e.e2.literals@, x)));
            }
        }
        assert(ok == weights_fit(*e));
    }
    let mut out: Vec<Equation> = Vec::new();
    if e.symbol == EquationSymbol::le || e.symbol == EquationSymbol::eq {
        match canonical_from(&acc, true, e) {
            Ok(c) => out.push(c),
            Err(err) => return Err(err),
        }
    }
    if e.symbol == EquationSymbol::ge || e.symbol == EquationSymbol::eq {
        match canonical_from(&acc, false, e) {
            Ok(c) => out.push(c),
            Err(err) => return Err(err),
        }
    }
    proof {
        assert(equations_match(out@, canonical_forms(*e)));
        assert forall|m: Map<u32, bool>| #[trigger] equation_holds(*e, m) == all_equations_hold(out@, m) by {
            if out@.len() == 2 {
                assert(all_equations_hold(out@, m) == (equation_holds(out@[0], m) && equation_holds(out@[1], m)));
            } else {
                assert(all_equations_hold(out@, m) == equation_holds(out@[0], m));
            }
        }
    }
    Ok(out)
}

/// Whether every equation holds under `m`.
pub open spec fn all_equations_hold(es: Seq<Equation>, m: Map<u32, bool>) -> bool {
    forall|i: int| 0 <= i < es.len() ==> equation_holds(#[trigger] es[i], m)
}

/// The canonical system with exactly the solutions of `equations`.
pub fn preprocess_file(equations: &Vec<Equation>) -> (r: Result<Vec<Equation>, InvalidFormula>)
    ensures
        r matches Ok(es) ==> (forall|i: int| 0 <= i < es.len() ==> is_canonical(#[trigger] es@[i])) && forall|m: Map<u32, bool>|
            #[trigger] all_equations_hold(equations@, m) == all_equations_hold(es@, m),
        r matches Err(err) ==> err == InvalidFormula::OutOfRange,
        r is Err <==> !forall|i: int| 0 <= i < equations.len() ==> weights_fit(#[trigger] equations@[i]),
        r matches Ok(es) ==> equations_match(es@, canonical_system(equations@)),
{
    let mut out: Vec<Equation> = Vec::new();
    let mut i: usize = 0;
    proof {
        assert(equations@.take(0) =~= Seq::<Equation>::empty());
    }
    while i < equations.len()
        invariant
            0 <= i <= equations.len(),
            forall|k: int| 0 <= k < i ==> weights_fit(#[trigger] equations@[k]),
            forall|k: int| 0 <= k < out.len() ==> is_canonical(#[trigger] out@[k]),
            equations_match(out@, canonical_system(equations@.take(i as int))),
            forall|m: Map<u32, bool>| #[trigger] all_equations_hold(equations@.take(i as int), m) == all_equations_hold(out@, m),
        decreases equations.len() - i,
    {
        let mut es = match preprocess_equation(&equations[i]) {
            Ok(es) => es,
            Err(err) => return Err(err),
        };
        let ghost before = out@;
        let ghost added = es@;
        out.append(&mut es);
        proof {
            let t = equations@.take(i as int + 1);
            assert(t.drop_last() =~= equations@.take(i as int));
            assert(t.last() == equations@[i as int]);
            let cs0 = canonical_system(equations@.take(i as int));
            let cf = canonical_forms(equations@[i as int]);
            assert(canonical_system(t) == cs0 + cf);
            assert forall|k: int| 0 <= k < out@.len() implies is_form(#[trigger] out@[k], (cs0 + cf)[k]) by {
                if k < before.len() {
                    assert(out@[k] == before[k]);
                } else {
                    assert(out@[k] == added[k - before.len()]);
                }
            }
            assert(t =~= equations@.take(i as int).push(equations@[i as int]));
            assert forall|m: Map<u32, bool>| #[trigger] all_equations_hold(t, m) == all_equations_hold(out@, m) by {
                assert(all_equations_hold(equations@.take(i as int), m) == all_equations_hold(before, m));
                assert(equation_holds(equations@[i as int], m) == all_equations_hold(added, m));
                if all_equations_hold(out@, m) {
                    assert forall|k: int| 0 <= k < before.len() implies equation_holds(#[trigger] before[k], m) by {
                        assert(out@[k] == before[k]);
                    }
                    assert forall|k: int| 0 <= k < added.len() implies equation_holds(#[trigger] added[k], m) by {
                        assert(out@[before.len() + k] == added[k]);
                    }
                    assert forall|k: int| 0 <= k < t.len() implies equation_holds(#[trigger] t[k], m) by {
                        if k < i {
                            assert(t[k] == equations@.take(i as int)[k]);
                        }
                    }
                }
                if all_equations_hold(t, m) {
                    assert forall|k: int| 0 <= k < equations@.take(i as int).len() implies equation_holds(
                        #[trigger] equations@.take(i as int)[k],
                        m,
                    ) by {
                        assert(t[k] == equations@.take(i as int)[k]);
                    }
                    assert(equation_holds(t[i as int], m));
                    assert forall|k: int| 0 <= k < out@.len() implies equation_holds(#[trigger] out@[k], m) by {
                        if k < before.len() {
                            assert(out@[k] == before[k]);
                        } else {
                            assert(out@[k] == added[k - before.len()]);
                        }
                    }
                }
            }
        }
        i = i + 1;
    }
    proof {
        assert(equations@.take(i as int) =~= equations@);
    }
    Ok(out)
}

} // verus!
