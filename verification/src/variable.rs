use vstd::prelude::*;

verus! {

/// An identity token for one variable of a problem.
///
/// A variable owns no mutable state of its own: domains and assignments are
/// kept by the search session and addressed by the index that
/// `Problem::add_variable` hands out.  The name only identifies the variable
/// to callers.
#[derive(Clone, Copy, Debug)]
pub struct Variable {
    pub name: &'static str,
}

impl Variable {
    /// Creates a variable identified by `name`.
    pub fn new(name: &'static str) -> (v: Variable)
        ensures
            v.name == name,
    {
        Variable { name }
    }

    /// A distinguished marker variable standing for "no variable".
    ///
    /// Callers should prefer `Option<Variable>` to express absence; the
    /// marker exists for code that needs a placeholder value.
    pub fn unassigned() -> (v: Variable)
        ensures
            v.name@ == "UNASSIGNED"@,
    {
        Variable { name: "UNASSIGNED" }
    }

    /// The name this variable was created with.
    pub fn name(&self) -> (n: &'static str)
        ensures
            n == self.name,
    {
        self.name
    }
}

} // verus!
