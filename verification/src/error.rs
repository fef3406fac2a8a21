//! The optimizer's error type. A column lookup that fails while a scan's
//! output schema is rebuilt is a user-surfaced error; the other variants mark
//! plans the optimizer refuses to rewrite.

use vstd::prelude::*;
use vstd::string::StringExecFns;

verus! {

/// Why an optimization pass aborted. The whole pass aborts on the first
/// error; there is no partial recovery.
#[derive(Debug)]
pub enum PlanError {
    /// A plan node asked for a column that its input schema does not hold.
    ColumnNotFound(String),
    /// The plan's depth exceeded the defensive recursion ceiling.
    PlanTooDeep,
    /// An internal invariant of plan construction was broken, for example a
    /// join column that is present on neither side.
    MalformedPlan,
}

impl PlanError {
    /// True when the error is a failed column lookup for the given name.
    pub open spec fn is_column_not_found(self, name: Seq<char>) -> bool {
        self matches PlanError::ColumnNotFound(n) && n@ == name
    }

    /// A human-readable description of the error.
    pub fn message(&self) -> String {
        match self {
            PlanError::ColumnNotFound(name) => {
                let mut m = String::from_str("column not found: ");
                m.append(name.as_str());
                m
            },
            PlanError::PlanTooDeep => String::from_str("plan recursion depth limit reached"),
            PlanError::MalformedPlan => String::from_str("malformed plan"),
        }
    }
}

} // verus!
