use vstd::prelude::*;
use vstd::string::StringExecFns;
use crate::equation::{Equation, EquationPart, EquationSide, EquationSymbol};
use crate::file::{File, name_at, name_count, name_pairs};

verus! {

pub open spec fn digit(d: int) -> char {
    if d == 0 {
        '0'
    } else if d == 1 {
        '1'
    } else if d == 2 {
        '2'
    } else if d == 3 {
        '3'
    } else if d == 4 {
        '4'
    } else if d == 5 {
        '5'
    } else if d == 6 {
        '6'
    } else if d == 7 {
        '7'
    } else if d == 8 {
        '8'
    } else {
        '9'
    }
}

/// Decimal notation of `v`, with a leading `-` where it is negative.
pub open spec fn decimal(v: int) -> Seq<char>
    decreases (if v < 0 {
        -v
    } else {
        v
    }), (if v < 0 {
        1int
    } else {
        0
    }),
{
    if v < 0 {
        seq!['-'] + decimal(-v)
    } else if v < 10 {
        seq![digit(v)]
    } else {
        decimal(v / 10) + seq![digit(v % 10)]
    }
}

/// Relies on the standard `Display` of `i128` (through `format!`): its
/// decimal notation.
#[verifier::external_body]
fn decimal_text(v: i128) -> (r: String)
    ensures
        r@ == decimal(v as int),
{
    format!("{}", v)
}

/// A literal as its 1-based variable number, negative for a negative weight;
/// a constant as nothing.
pub open spec fn part_dimacs(p: EquationPart) -> Seq<char> {
    match p {
        EquationPart::Literal { factor, name, .. } => if factor < 0 {
            seq!['-'] + decimal(name + 1)
        } else {
            decimal(name + 1)
        },
        EquationPart::Factor(_) => Seq::empty(),
    }
}

/// The terms, separated by single spaces.
pub open spec fn side_dimacs(ps: Seq<EquationPart>) -> Seq<char>
    decreases ps.len(),
{
    if ps.len() == 0 {
        Seq::empty()
    } else if ps.len() == 1 {
        part_dimacs(ps[0])
    } else {
        side_dimacs(ps.drop_last()) + seq![' '] + part_dimacs(ps.last())
    }
}

pub open spec fn equation_dimacs(e: Equation) -> Seq<char> {
    side_dimacs(e.e1.literals@) + seq![' ', '0']
}

/// One line for each equation.
pub open spec fn lines_dimacs(es: Seq<Equation>) -> Seq<char>
    decreases es.len(),
{
    if es.len() == 0 {
        Seq::empty()
    } else {
        lines_dimacs(es.drop_last()) + equation_dimacs(es.last()) + seq!['\n']
    }
}

/// The header `p cnf <variables> <clauses>` and one line for each equation.
pub open spec fn file_dimacs(variables: nat, es: Seq<Equation>) -> Seq<char> {
    seq!['p', ' ', 'c', 'n', 'f', ' '] + decimal(variables as int) + seq![' '] + decimal(es.len() as int) + seq!['\n']
        + lines_dimacs(es)
}

impl EquationPart {
    /// The term in DIMACS form.
    pub fn to_dimacs_string(&self) -> (r: String)
        ensures
            r@ == part_dimacs(*self),
    {
        match self {
            EquationPart::Literal { factor, name, .. } => {
                let number = decimal_text(*name as i128 + 1);
                if *factor < 0 {
                    let mut r = String::from_str("-");
                    proof {
                        reveal_strlit("-");
                    }
                    r.append(number.as_str());
                    r
                } else {
                    number
                }
            },
            EquationPart::Factor(_) => String::new(),
        }
    }
}

impl EquationSide {
    /// The terms in DIMACS form, separated by spaces.
    pub fn to_dimacs_string(&self) -> (r: String)
        ensures
            r@ == side_dimacs(self.literals@),
    {
        let ghost ps = self.literals@;
        let mut result = String::new();
        let mut i: usize = 0;
        proof {
            assert(ps.take(0) =~= Seq::<EquationPart>::empty());
        }
        while i < self.literals.len()
            invariant
                ps == self.literals@,
                0 <= i <= ps.len(),
                result@ == side_dimacs(ps.take(i as int)),
            decreases ps.len() - i,
        {
            let part = self.literals[i].to_dimacs_string();
            proof {
                assert(ps.take(i as int + 1).drop_last() =~= ps.take(i as int));
                assert(ps.take(i as int + 1).last() == ps[i as int]);
            }
            if i > 0 {
                let space = String::from_str(" ");
                proof {
                    reveal_strlit(" ");
                }
                result.append(space.as_str());
            } else {
                proof {
                    assert(ps.take(1)[0] == ps[0]);
                }
            }
            result.append(part.as_str());
            proof {
                if i > 0 {
                    assert(result@ =~= side_dimacs(ps.take(i as int + 1)));
                } else {
                    assert(result@ =~= side_dimacs(ps.take(i as int + 1)));
                }
            }
            i = i + 1;
        }
        proof {
            assert(ps.take(i as int) =~= ps);
        }
        result
    }
}

impl Equation {
    /// The left side in DIMACS form, ended by ` 0`.
    pub fn to_dimacs_string(&self) -> (r: String)
        ensures
            r@ == equation_dimacs(*self),
    {
        let mut result = self.e1.to_dimacs_string();
        proof {
            reveal_strlit(" 0");
        }
        result.append(" 0");
        assert(result@ =~= equation_dimacs(*self));
        result
    }
}

impl File {
    /// The whole system in DIMACS form.
    pub fn to_dimacs_string(&self) -> (r: String)
        ensures
            r@ == file_dimacs(name_pairs(self.name_map).len(), self.equations@),
    {
        let ghost es = self.equations@;
        let mut result = String::from_str("p cnf ");
        proof {
            reveal_strlit("p cnf ");
            reveal_strlit(" ");
            reveal_strlit("\n");
        }
        let names = decimal_text(name_count(&self.name_map) as i128);
        result.append(names.as_str());
        result.append(" ");
        let count = decimal_text(self.equations.len() as i128);
        result.append(count.as_str());
        result.append("\n");
        let ghost header = result@;
        let mut i: usize = 0;
        proof {
            assert(es.take(0) =~= Seq::<Equation>::empty());
            assert(header + lines_dimacs(es.take(0)) =~= header);
        }
        while i < self.equations.len()
            invariant
                es == self.equations@,
                0 <= i <= es.len(),
                result@ == header + lines_dimacs(es.take(i as int)),
            decreases es.len() - i,
        {
            let line = self.equations[i].to_dimacs_string();
            result.append(line.as_str());
            proof {
                reveal_strlit("\n");
            }
            result.append("\n");
            proof {
                assert(es.take(i as int + 1).drop_last() =~= es.take(i as int));
                assert(es.take(i as int + 1).last() == es[i as int]);
                assert(result@ =~= header + lines_dimacs(es.take(i as int + 1)));
            }
            i = i + 1;
        }
        proof {
            assert(es.take(i as int) =~= es);
            assert(result@ =~= file_dimacs(name_pairs(self.name_map).len(), es));
        }
        result
    }
}

/// A number with its sign always written: `+` before one that is positive.
pub open spec fn signed(v: int) -> Seq<char> {
    if v > 0 {
        seq!['+'] + decimal(v)
    } else {
        decimal(v)
    }
}

/// A number with `+` before it where it is not negative.
pub open spec fn plus_unless_negative(v: int) -> Seq<char> {
    if v < 0 {
        decimal(v)
    } else {
        seq!['+'] + decimal(v)
    }
}

/// A literal as `<weight> x<1-based variable>`, with `+` before a weight that
/// is not negative; a constant as its signed value.
pub open spec fn part_pbcount(p: EquationPart) -> Seq<char> {
    match p {
        EquationPart::Literal { factor, name, .. } => plus_unless_negative(factor as int) + seq![' ', 'x'] + decimal(name + 1),
        EquationPart::Factor(c) => signed(c as int),
    }
}

pub open spec fn side_pbcount(ps: Seq<EquationPart>) -> Seq<char>
    decreases ps.len(),
{
    if ps.len() == 0 {
        Seq::empty()
    } else if ps.len() == 1 {
        part_pbcount(ps[0])
    } else {
        side_pbcount(ps.drop_last()) + seq![' '] + part_pbcount(ps.last())
    }
}

pub open spec fn symbol_text(s: EquationSymbol) -> Seq<char> {
    match s {
        EquationSymbol::eq => seq!['='],
        EquationSymbol::ge => seq!['>', '='],
        EquationSymbol::le => seq!['<', '='],
    }
}

pub open spec fn equation_pbcount(e: Equation) -> Seq<char> {
    side_pbcount(e.e1.literals@) + seq![' '] + symbol_text(e.symbol) + seq![' '] + side_pbcount(e.e2.literals@)
}

pub open spec fn lines_pbcount(es: Seq<Equation>) -> Seq<char>
    decreases es.len(),
{
    if es.len() == 0 {
        Seq::empty()
    } else {
        lines_pbcount(es.drop_last()) + equation_pbcount(es.last()) + seq![';', '\n']
    }
}

/// The header `* #variable= <variables> #constraint= <equations>` and one
/// line, ended by `;`, for each equation.
pub open spec fn file_pbcount(variables: nat, es: Seq<Equation>) -> Seq<char> {
    seq!['*', ' ', '#', 'v', 'a', 'r', 'i', 'a', 'b', 'l', 'e', '=', ' '] + decimal(variables as int) + seq![
        ' ',
        '#',
        'c',
        'o',
        'n',
        's',
        't',
        'r',
        'a',
        'i',
        'n',
        't',
        '=',
        ' ',
    ] + decimal(es.len() as int) + seq!['\n'] + lines_pbcount(es)
}

fn signed_text(v: i32) -> (r: String)
    ensures
        r@ == signed(v as int),
{
    let number = decimal_text(v as i128);
    if v > 0 {
        let mut r = String::from_str("+");
        proof {
            reveal_strlit("+");
        }
        r.append(number.as_str());
        r
    } else {
        number
    }
}

impl EquationSymbol {
    /// `=`, `>=` or `<=`.
    pub fn to_string(&self) -> (r: String)
        ensures
            r@ == symbol_text(*self),
    {
        proof {
            reveal_strlit("=");
            reveal_strlit(">=");
            reveal_strlit("<=");
        }
        match self {
            EquationSymbol::eq => String::from_str("="),
            EquationSymbol::ge => String::from_str(">="),
            EquationSymbol::le => String::from_str("<="),
        }
    }
}

impl EquationPart {
    /// The term with its sign and a 1-based `x` variable name.
    pub fn to_pbcount_string(&self) -> (r: String)
        ensures
            r@ == part_pbcount(*self),
    {
        match self {
            EquationPart::Literal { factor, name, .. } => {
                let number = decimal_text(*factor as i128);
                let mut r = if *factor < 0 {
                    String::new()
                } else {
                    String::from_str("+")
                };
                proof {
                    reveal_strlit("+");
                    reveal_strlit(" x");
                }
                r.append(number.as_str());
                r.append(" x");
                let number = decimal_text(*name as i128 + 1);
                r.append(number.as_str());
                r
            },
            EquationPart::Factor(c) => signed_text(*c),
        }
    }
}

impl EquationSide {
    /// The terms with their signs, separated by spaces.
    pub fn to_pbcount_string(&self) -> (r: String)
        ensures
            r@ == side_pbcount(self.literals@),
    {
        let ghost ps = self.literals@;
        let mut result = String::new();
        let mut i: usize = 0;
        proof {
            assert(ps.take(0) =~= Seq::<EquationPart>::empty());
            reveal_strlit(" ");
        }
        while i < self.literals.len()
            invariant
                ps == self.literals@,
                0 <= i <= ps.len(),
                result@ == side_pbcount(ps.take(i as int)),
            decreases ps.len() - i,
        {
            let part = self.literals[i].to_pbcount_string();
            proof {
                assert(ps.take(i as int + 1).drop_last() =~= ps.take(i as int));
                assert(ps.take(i as int + 1).last() == ps[i as int]);
                reveal_strlit(" ");
            }
            if i > 0 {
                result.append(" ");
            } else {
                proof {
                    assert(ps.take(1)[0] == ps[0]);
                }
            }
            result.append(part.as_str());
            proof {
                assert(result@ =~= side_pbcount(ps.take(i as int + 1)));
            }
            i = i + 1;
        }
        proof {
            assert(ps.take(i as int) =~= ps);
        }
        result
    }
}

impl Equation {
    /// Both sides and the comparison between them.
    pub fn to_pbcount_string(&self) -> (r: String)
        ensures
            r@ == equation_pbcount(*self),
    {
        proof {
            reveal_strlit(" ");
        }
        let mut result = self.e1.to_pbcount_string();
        result.append(" ");
        let symbol = self.symbol.to_string();
        result.append(symbol.as_str());
        result.append(" ");
        let right = self.e2.to_pbcount_string();
        result.append(right.as_str());
        assert(result@ =~= equation_pbcount(*self));
        result
    }
}

impl File {
    /// The whole system in the form read by pseudo-boolean model counters.
    pub fn to_pbcount_string(&self) -> (r: String)
        ensures
            r@ == file_pbcount(name_pairs(self.name_map).len(), self.equations@),
    {
        let ghost es = self.equations@;
        proof {
            reveal_strlit("* #variable= ");
            reveal_strlit(" #constraint= ");
            reveal_strlit("\n");
            reveal_strlit(";\n");
        }
        let mut result = String::from_str("* #variable= ");
        let names = decimal_text(name_count(&self.name_map) as i128);
        result.append(names.as_str());
        result.append(" #constraint= ");
        let count = decimal_text(self.equations.len() as i128);
        result.append(count.as_str());
        result.append("\n");
        let ghost header = result@;
        let mut i: usize = 0;
        proof {
            assert(es.take(0) =~= Seq::<Equation>::empty());
            assert(header + lines_pbcount(es.take(0)) =~= header);
        }
        while i < self.equations.len()
            invariant
                es == self.equations@,
                0 <= i <= es.len(),
                result@ == header + lines_pbcount(es.take(i as int)),
            decreases es.len() - i,
        {
            let line = self.equations[i].to_pbcount_string();
            result.append(line.as_str());
            proof {
                reveal_strlit(";\n");
            }
            result.append(";\n");
            proof {
                assert(es.take(i as int + 1).drop_last() =~= es.take(i as int));
                assert(es.take(i as int + 1).last() == es[i as int]);
                assert(result@ =~= header + lines_pbcount(es.take(i as int + 1)));
            }
            i = i + 1;
        }
        proof {
            assert(es.take(i as int) =~= es);
            assert(result@ =~= file_pbcount(name_pairs(self.name_map).len(), es));
        }
        result
    }
}

/// Whether some name is paired with index `i`.
pub open spec fn is_named(names: Map<Seq<char>, u32>, i: u32) -> bool {
    exists|l: Seq<char>| names.contains_key(l) && names[l] == i
}

/// The name paired with index `i`.
pub open spec fn name_text(names: Map<Seq<char>, u32>, i: u32) -> Seq<char> {
    choose|l: Seq<char>| names.contains_key(l) && names[l] == i
}

/// A literal as `<weight>*<name>`, with `+` before a weight that is not
/// negative; a constant as its signed value.
pub open spec fn part_text(p: EquationPart, names: Map<Seq<char>, u32>) -> Seq<char> {
    match p {
        EquationPart::Literal { factor, name, .. } => plus_unless_negative(factor as int) + seq!['*'] + name_text(names, name),
        EquationPart::Factor(c) => signed(c as int),
    }
}

pub open spec fn side_text(ps: Seq<EquationPart>, names: Map<Seq<char>, u32>) -> Seq<char>
    decreases ps.len(),
{
    if ps.len() == 0 {
        Seq::empty()
    } else if ps.len() == 1 {
        part_text(ps[0], names)
    } else {
        side_text(ps.drop_last(), names) + seq![' '] + part_text(ps.last(), names)
    }
}

pub open spec fn equation_text(e: Equation, names: Map<Seq<char>, u32>) -> Seq<char> {
    side_text(e.e1.literals@, names) + seq![' '] + symbol_text(e.symbol) + seq![' '] + side_text(e.e2.literals@, names)
}

/// One line for each equation.
pub open spec fn lines_text(es: Seq<Equation>, names: Map<Seq<char>, u32>) -> Seq<char>
    decreases es.len(),
{
    if es.len() == 0 {
        Seq::empty()
    } else {
        lines_text(es.drop_last(), names) + equation_text(es.last(), names) + seq!['\n']
    }
}

pub open spec fn part_named(p: EquationPart, names: Map<Seq<char>, u32>) -> bool {
    match p {
        EquationPart::Literal { name, .. } => is_named(names, name),
        EquationPart::Factor(_) => true,
    }
}

pub open spec fn side_named(ps: Seq<EquationPart>, names: Map<Seq<char>, u32>) -> bool {
    forall|j: int| 0 <= j < ps.len() ==> part_named(#[trigger] ps[j], names)
}

pub open spec fn equation_named(e: Equation, names: Map<Seq<char>, u32>) -> bool {
    side_named(e.e1.literals@, names) && side_named(e.e2.literals@, names)
}

/// Every variable of every equation has a name.
pub open spec fn all_named(es: Seq<Equation>, names: Map<Seq<char>, u32>) -> bool {
    forall|i: int| 0 <= i < es.len() ==> equation_named(#[trigger] es[i], names)
}

fn part_to_string(p: &EquationPart, file: &File) -> (r: Option<String>)
    ensures
        r is Some <==> part_named(*p, name_pairs(file.name_map)),
        r matches Some(t) ==> t@ == part_text(*p, name_pairs(file.name_map)),
{
    match p {
        EquationPart::Literal { factor, name, .. } => {
            let label = match name_at(&file.name_map, *name) {
                Some(l) => l,
                None => {
                    return None;
                },
            };
            let number = decimal_text(*factor as i128);
            proof {
                reveal_strlit("+");
                reveal_strlit("*");
                let names = name_pairs(file.name_map);
                let chosen = name_text(names, *name);
                assert(names.contains_key(label@) && names[label@] == *name);
                assert(names.contains_key(chosen) && names[chosen] == *name);
                assert(chosen == label@);
            }
            let mut r = if *factor < 0 {
                String::new()
            } else {
                String::from_str("+")
            };
            r.append(number.as_str());
            r.append("*");
            r.append(label.as_str());
            Some(r)
        },
        EquationPart::Factor(c) => Some(signed_text(*c)),
    }
}

fn side_to_string(side: &EquationSide, file: &File) -> (r: Option<String>)
    ensures
        r is Some <==> side_named(side.literals@, name_pairs(file.name_map)),
        r matches Some(t) ==> t@ == side_text(side.literals@, name_pairs(file.name_map)),
{
    let ghost ps = side.literals@;
    let ghost names = name_pairs(file.name_map);
    let mut result = String::new();
    let mut i: usize = 0;
    proof {
        assert(ps.take(0) =~= Seq::<EquationPart>::empty());
        reveal_strlit(" ");
    }
    while i < side.literals.len()
        invariant
            ps == side.literals@,
            names == name_pairs(file.name_map),
            0 <= i <= ps.len(),
            forall|j: int| 0 <= j < i ==> part_named(#[trigger] ps[j], names),
            result@ == side_text(ps.take(i as int), names),
        decreases ps.len() - i,
    {
        let part = match part_to_string(&side.literals[i], file) {
            Some(t) => t,
            None => {
                return None;
            },
        };
        proof {
            assert(ps.take(i as int + 1).drop_last() =~= ps.take(i as int));
            assert(ps.take(i as int + 1).last() == ps[i as int]);
            reveal_strlit(" ");
        }
        if i > 0 {
            result.append(" ");
        } else {
            proof {
                assert(ps.take(1)[0] == ps[0]);
            }
        }
        result.append(part.as_str());
        proof {
            assert(result@ =~= side_text(ps.take(i as int + 1), names));
        }
        i = i + 1;
    }
    proof {
        assert(ps.take(i as int) =~= ps);
    }
    Some(result)
}

impl File {
    /// The equations with their variables' names, one to a line; `None` where
    /// a variable has no name.
    pub fn to_string(&self) -> (r: Option<String>)
        ensures
            r is Some <==> all_named(self.equations@, name_pairs(self.name_map)),
            r matches Some(t) ==> t@ == lines_text(self.equations@, name_pairs(self.name_map)),
    {
        let ghost es = self.equations@;
        let ghost names = name_pairs(self.name_map);
        let mut result = String::new();
        let mut i: usize = 0;
        proof {
            assert(es.take(0) =~= Seq::<Equation>::empty());
        }
        while i < self.equations.len()
            invariant
                es == self.equations@,
                names == name_pairs(self.name_map),
                0 <= i <= es.len(),
                forall|k: int| 0 <= k < i ==> equation_named(#[trigger] es[k], names),
                result@ == lines_text(es.take(i as int), names),
            decreases es.len() - i,
        {
            let e = &self.equations[i];
            let left = match side_to_string(&e.e1, self) {
                Some(t) => t,
                None => {
                    return None;
                },
            };
            let right = match side_to_string(&e.e2, self) {
                Some(t) => t,
                None => {
                    return None;
                },
            };
            proof {
                reveal_strlit(" ");
                reveal_strlit("\n");
            }
            result.append(left.as_str());
            result.append(" ");
            let symbol = e.symbol.to_string();
            result.append(symbol.as_str());
            result.append(" ");
            result.append(right.as_str());
            result.append("\n");
            proof {
                assert(es[i as int] == *e);
                assert(equation_named(es[i as int], names));
                assert(es.take(i as int + 1).drop_last() =~= es.take(i as int));
                assert(es.take(i as int + 1).last() == es[i as int]);
                assert(result@ =~= lines_text(es.take(i as int + 1), names));
            }
            i = i + 1;
        }
        proof {
            assert(es.take(i as int) =~= es);
        }
        Some(result)
    }
}

} // verus!
