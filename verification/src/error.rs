//! The ways in which a translation stops.

use vstd::prelude::*;
use vstd::string::StringExecFns;
use crate::text::join3;

verus! {

/// Why a translation stopped, as a mathematical value.
pub enum Fault {
    /// The input did not hold what the description names.
    Expected(Seq<char>),
    /// A `break` stood outside every loop.
    NoLoop,
    /// A character was asked for after the last one.
    End,
}

/// Why a translation stopped. Every one of them is final: nothing is retried, and the
/// lines written before it stay written.
#[derive(Debug, PartialEq, Eq)]
pub enum TranslateError {
    /// The input did not hold the token that the description names.
    UnexpectedToken(String),
    /// A `break` stood outside every loop.
    NoEnclosingLoop,
    /// A character was asked for after the last one.
    PrematureEnd,
}

impl View for TranslateError {
    type V = Fault;

    open spec fn view(&self) -> Fault {
        match self {
            TranslateError::UnexpectedToken(s) => Fault::Expected(s@),
            TranslateError::NoEnclosingLoop => Fault::NoLoop,
            TranslateError::PrematureEnd => Fault::End,
        }
    }
}

impl Fault {
    /// The sentence that reports the fault.
    pub open spec fn message(self) -> Seq<char> {
        match self {
            Fault::Expected(what) => what + " Expected"@,
            Fault::NoLoop => "No loop to break from"@,
            Fault::End => "premature end of input"@,
        }
    }
}

impl TranslateError {
    /// The sentence that reports the error.
    pub fn message(&self) -> (r: String)
        ensures
            r@ == self@.message(),
    {
        match self {
            TranslateError::UnexpectedToken(what) => {
                let r = join3("", what.as_str(), " Expected");
                proof {
                    reveal_strlit("");
                    assert(r@ =~= what@ + " Expected"@);
                }
                r
            },
            TranslateError::NoEnclosingLoop => String::from_str("No loop to break from"),
            TranslateError::PrematureEnd => String::from_str("premature end of input"),
        }
    }
}

/// The error of an input that does not hold `x`.
pub fn expected(x: &str) -> (e: TranslateError)
    ensures
        e@ == Fault::Expected(x@),
{
    TranslateError::UnexpectedToken(String::from_str(x))
}

/// Whether the result `r` reports the fault `fault`, or success where there is none.
pub open spec fn reports<T>(r: Result<T, TranslateError>, fault: Option<Fault>) -> bool {
    match r {
        Ok(_) => fault is None,
        Err(e) => fault == Some(e@),
    }
}

} // verus!
