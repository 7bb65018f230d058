use crate::store::StoreError;
use vstd::prelude::*;

verus! {

/// A failure that ends a command, reported to the user by the caller.
#[derive(Debug, Clone, PartialEq, Eq)]
pub enum Failure {
    /// The user's answers could not be read.
    UserInput,
    /// The store refused an operation.
    Sql(StoreError),
    /// A bookmark file could not be read or parsed; the detail says why.
    Parser(String),
}

impl Failure {
    /// The heading under which the failure is reported.
    pub fn heading(&self) -> (r: &'static str)
        ensures
            self is UserInput ==> r@ == "User input error"@,
            self is Sql ==> r@ == "SQL Error"@,
            self is Parser ==> r@ == "Parser Error"@,
    {
        match self {
            Failure::UserInput => "User input error",
            Failure::Sql(_) => "SQL Error",
            Failure::Parser(_) => "Parser Error",
        }
    }
}

/// The failure for answers that could not be read from the user.
pub fn user_input_error() -> (r: Failure)
    ensures
        r == Failure::UserInput,
{
    Failure::UserInput
}

/// The failure for a store operation that did not go through.
pub fn sql_driver_error(error: StoreError) -> (r: Failure)
    ensures
        r == Failure::Sql(error),
{
    Failure::Sql(error)
}

/// The failure for a bookmark file that could not be read or parsed.
pub fn parser_error(detail: String) -> (r: Failure)
    ensures
        r matches Failure::Parser(d) && d@ == detail@,
{
    Failure::Parser(detail)
}

} // verus!
