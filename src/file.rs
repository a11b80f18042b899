use vstd::prelude::*;
use crate::equation::{Equation, InvalidFormula, equations_clauses, system_ok};
use crate::formula::{FormulaView, PBFormula};

verus! {

#[verifier::external_type_specification]
#[verifier::external_body]
#[verifier::reject_recursive_types(L)]
#[verifier::reject_recursive_types(R)]
#[verifier::reject_recursive_types(LS)]
#[verifier::reject_recursive_types(RS)]
pub struct ExBiHashMap<L, R, LS, RS>(bimap::BiHashMap<L, R, LS, RS>);

/// The name-index pairs that a name map holds, by name.
pub uninterp spec fn name_pairs(m: bimap::BiHashMap<String, u32>) -> Map<Seq<char>, u32>;

/// Relies on bimap's `BiHashMap::len`: the number of left-right pairs it holds.
#[verifier::external_body]
pub(crate) fn name_count(m: &bimap::BiHashMap<String, u32>) -> (r: usize)
    ensures
        r == name_pairs(*m).len(),
{
    m.len()
}

/// Relies on bimap's `BiHashMap::get_by_right`: the name paired with
/// `index`, if there is one; a bimap pairs an index with at most one name.
#[verifier::external_body]
pub(crate) fn name_at(m: &bimap::BiHashMap<String, u32>, index: u32) -> (r: Option<String>)
    ensures
        r is Some == (exists|l: Seq<char>| name_pairs(*m).contains_key(l) && name_pairs(*m)[l] == index),
        r is Some ==> name_pairs(*m).contains_key(r->0@) && name_pairs(*m)[r->0@] == index,
        r is Some ==> forall|l: Seq<char>| name_pairs(*m).contains_key(l) && name_pairs(*m)[l] == index ==> l == r->0@,
{
    m.get_by_right(&index).cloned()
}

/// A parsed system: the variables by name and index, and the equations over
/// the indices.
pub struct File {
    pub name_map: bimap::BiMap<String, u32>,
    pub equations: Vec<Equation>,
    pub name_index: u32,
}

/// The formula of a file of canonical equations, with one free variable for
/// each name in the file.
pub fn new(file: &File) -> (r: Result<PBFormula, InvalidFormula>)
    ensures
        match r {
            Ok(f) => name_pairs(file.name_map).len() <= u32::MAX && system_ok(
                file.equations@,
                name_pairs(file.name_map).len(),
            ) && f.wf() && f@ == (FormulaView {
                n: name_pairs(file.name_map).len(),
                clauses: equations_clauses(file.equations@),
            }),
            Err(InvalidFormula::TooManyVariables) => name_pairs(file.name_map).len() > u32::MAX || !system_ok(
                file.equations@,
                name_pairs(file.name_map).len(),
            ),
            Err(InvalidFormula::CountTooLarge) => false,
            Err(_) => !system_ok(file.equations@, name_pairs(file.name_map).len()),
        },
{
    let count = name_count(&file.name_map);
    if count > u32::MAX as usize {
        return Err(InvalidFormula::TooManyVariables);
    }
    PBFormula::new(count as u32, &file.equations)
}

} // verus!
