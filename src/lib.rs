//! An exact model counter for systems of linear pseudo-boolean constraints:
//! it counts the assignments of 0/1 values to the variables under which every
//! constraint `sum of weighted literals >= threshold` holds.
//!
//! - `formula`: literals, clauses and formulas, what they mean, and when they
//!   are well formed.
//! - `model`: the number of satisfying assignments, and lemmas about it.
//! - `reduce`: setting one variable, and the branching law.
//! - `propagate`: setting the variables that the clauses force.
//! - `decompose`: splitting a formula into parts that share no variable, and
//!   the independence law.
//! - `cache`: counts of formulas met before.
//! - `solver`: the counters, and the choice of the variable to branch on.
//! - `equation`, `file`, `preprocess`, `text`: systems of equations, their
//!   canonical form, the formulas they give, and their text forms.

pub mod cache;
pub mod decompose;
pub mod equation;
pub mod file;
pub mod formula;
pub mod model;
pub mod preprocess;
pub mod propagate;
pub mod reduce;
pub mod solver;
pub mod text;
