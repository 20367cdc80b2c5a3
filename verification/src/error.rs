//! The error type that every fallible operation of this crate returns.
//!
//! Two kinds of failure reach the caller: `Config` for user-fixable problems
//! (a bad skill id, an unknown target, a missing root, an invalid ignore
//! pattern) and `Exec` for environment failures (I/O errors, disallowed file
//! types, malformed plan operations). Both carry a message and an optional
//! remediation hint.

use vstd::prelude::*;

verus! {

#[derive(Debug)]
pub enum AppError {
    Config { message: String, hint: Option<String> },
    Exec { message: String, hint: Option<String> },
}

pub type AppResult<T> = Result<T, AppError>;

impl AppError {
    /// The message carried by either variant.
    pub open spec fn spec_message(&self) -> Seq<char> {
        match self {
            AppError::Config { message, .. } => message@,
            AppError::Exec { message, .. } => message@,
        }
    }

    /// The hint carried by either variant, if any.
    pub open spec fn spec_hint(&self) -> Option<Seq<char>> {
        match self {
            AppError::Config { hint, .. } => match hint {
                Some(h) => Some(h@),
                None => None,
            },
            AppError::Exec { hint, .. } => match hint {
                Some(h) => Some(h@),
                None => None,
            },
        }
    }

    pub fn config(message: String, hint: Option<String>) -> (r: Self)
        ensures
            r == (AppError::Config { message, hint }),
    {
        AppError::Config { message, hint }
    }

    pub fn exec(message: String, hint: Option<String>) -> (r: Self)
        ensures
            r == (AppError::Exec { message, hint }),
    {
        AppError::Exec { message, hint }
    }

    pub fn message(&self) -> (r: &str)
        ensures
            r@ == self.spec_message(),
    {
        match self {
            AppError::Config { message, .. } => message.as_str(),
            AppError::Exec { message, .. } => message.as_str(),
        }
    }

    pub fn hint(&self) -> (r: Option<&str>)
        ensures
            r is Some <==> self.spec_hint() is Some,
            r is Some ==> r->0@ == self.spec_hint()->0,
    {
        match self {
            AppError::Config { hint, .. } => match hint {
                Some(h) => Some(h.as_str()),
                None => None,
            },
            AppError::Exec { hint, .. } => match hint {
                Some(h) => Some(h.as_str()),
                None => None,
            },
        }
    }
}

} // verus!
