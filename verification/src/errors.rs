//! Error values of the query engine and the install planner.

use vstd::prelude::*;

use crate::name::PackageName;

verus! {

/// A referenced name is absent from the resolved package set.  This is
/// terminal for a query or a closure computation: no partial result is
/// produced.
#[derive(Debug)]
pub enum QueryError {
    NotFoundInSet(PackageName),
}

impl QueryError {
    /// The name that was not found.
    pub fn name(&self) -> (r: &PackageName)
        ensures
            *self matches QueryError::NotFoundInSet(n) && r@ == n@,
    {
        match self {
            QueryError::NotFoundInSet(n) => n,
        }
    }

    /// The user-visible description of the error.
    pub fn message(&self) -> (r: String)
        ensures
            *self matches QueryError::NotFoundInSet(n) ==> r@ == "Package '"@ + n@
                + "' not found in package set"@,
    {
        match self {
            QueryError::NotFoundInSet(n) => String::from_str("Package '").concat(
                n.0.as_str(),
            ).concat("' not found in package set"),
        }
    }
}

} // verus!
