//! Error kinds raised while loading the catalog and planning.

use vstd::prelude::*;

verus! {

/// Every way that loading or planning can fail.
///
/// Errors that arise from file handling and the network live with the
/// caller that performs that I/O; this type covers what the library itself
/// can detect.
#[derive(Debug)]
pub enum PlanError {
    /// A document field has the wrong shape.
    Schema,
    /// An item name referenced as a target or as a recipe input has no
    /// catalog entry.
    MissingDescription(String),
    /// A popped node's next obligation admits neither buy, vendor nor craft.
    NoSourcing(String),
    /// The frontier emptied without ever reaching a complete plan.  The
    /// error model reserves this for a degenerate search; the planner's
    /// expansions always produce a child or a no-sourcing error first,
    /// so planning itself is proved never to report it.
    Infeasible,
    /// A cost or quantity would not fit in 32 bits.
    Overflow,
}

impl PlanError {
    /// A short human-readable description of the error: a fixed phrase,
    /// with the item's name appended for the two name-carrying kinds.
    pub fn describe(&self) -> (r: String)
        ensures
            match self {
                PlanError::Schema => r@ == "schema error in document"@,
                PlanError::MissingDescription(n) => r@ == "missing description for "@ + n@,
                PlanError::NoSourcing(n) => r@ == "no way to source "@ + n@,
                PlanError::Infeasible => r@ == "no complete plan exists"@,
                PlanError::Overflow => r@ == "cost or quantity overflow"@,
            },
    {
        match self {
            PlanError::Schema => String::from_str("schema error in document"),
            PlanError::MissingDescription(name) => String::from_str("missing description for ")
                .concat(name.as_str()),
            PlanError::NoSourcing(name) => String::from_str("no way to source ").concat(
                name.as_str(),
            ),
            PlanError::Infeasible => String::from_str("no complete plan exists"),
            PlanError::Overflow => String::from_str("cost or quantity overflow"),
        }
    }
}

} // verus!
