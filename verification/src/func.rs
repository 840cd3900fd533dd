//! The elementary functions that expressions can apply.

use vstd::prelude::*;

verus! {

/// The transcendental functions.
#[derive(Clone, Copy, Debug, PartialEq, Eq, Structural, Hash)]
pub enum Transient {
    Sin,
    Cos,
    Exp,
    Log,
}

/// The tag of a function application. The engine carries it through
/// unevaluated.
#[derive(Clone, Copy, Debug, PartialEq, Eq, Structural, Hash)]
pub enum Func {
    Transient(Transient),
}

impl Transient {
    /// The name under which the function is written.
    pub open spec fn spec_name(self) -> Seq<char> {
        match self {
            Transient::Sin => "sin"@,
            Transient::Cos => "cos"@,
            Transient::Exp => "exp"@,
            Transient::Log => "log"@,
        }
    }

    /// The name under which the function is written.
    pub fn name(self) -> (r: &'static str)
        ensures
            r@ == self.spec_name(),
    {
        match self {
            Transient::Sin => "sin",
            Transient::Cos => "cos",
            Transient::Exp => "exp",
            Transient::Log => "log",
        }
    }
}

impl Func {
    /// The name under which the function is written.
    pub open spec fn spec_name(self) -> Seq<char> {
        match self {
            Func::Transient(t) => t.spec_name(),
        }
    }

    /// The name under which the function is written.
    pub fn name(self) -> (r: &'static str)
        ensures
            r@ == self.spec_name(),
    {
        match self {
            Func::Transient(t) => t.name(),
        }
    }
}

} // verus!
