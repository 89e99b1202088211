//! What can go wrong in the services, and what callers learn of it.
use crate::engine::error::StorageError;
use crate::services::types;
use vstd::prelude::*;
use vstd::string::StringExecFns;

verus! {

/// The body of a response to a request that failed.
#[derive(Debug)]
pub struct ErrorResponse {
    pub detail: String,
}

/// An error of the services.
#[derive(Debug)]
pub enum AppError {
    NotFound(u128),
    Validation(String),
    Conflict(String),
    Unauthorized,
    Embedding(String),
    Storage(StorageError),
    Serialization(String),
    Internal(String),
}

/// A text behind another.
fn joined(before: &str, behind: &str) -> (r: String)
    ensures
        r@ == before@ + behind@,
{
    let mut out = String::new();
    out.append(before);
    out.append(behind);
    assert(out@ =~= before@ + behind@);
    out
}

impl AppError {
    /// The wording of the error.
    pub open spec fn wording(self) -> Seq<char> {
        match self {
            AppError::NotFound(id) => "memory not found: "@ + types::id_text(id),
            AppError::Validation(m) => "validation error: "@ + m@,
            AppError::Conflict(m) => "conflict: "@ + m@,
            AppError::Unauthorized => "unauthorized"@,
            AppError::Embedding(m) => "embedding error: "@ + m@,
            AppError::Storage(e) => "storage error: "@ + e.wording(),
            AppError::Serialization(m) => "serialization error: "@ + m@,
            AppError::Internal(m) => "internal error: "@ + m@,
        }
    }

    /// The wording of the error.
    pub fn message(&self) -> (r: String)
        ensures
            r@ == self.wording(),
    {
        match self {
            AppError::NotFound(id) => {
                let id_text = types::id_to_text(*id);
                joined("memory not found: ", id_text.as_str())
            },
            AppError::Validation(m) => joined("validation error: ", m.as_str()),
            AppError::Conflict(m) => joined("conflict: ", m.as_str()),
            AppError::Unauthorized => "unauthorized".to_owned(),
            AppError::Embedding(m) => joined("embedding error: ", m.as_str()),
            AppError::Storage(e) => {
                let m = e.message();
                joined("storage error: ", m.as_str())
            },
            AppError::Serialization(m) => joined("serialization error: ", m.as_str()),
            AppError::Internal(m) => joined("internal error: ", m.as_str()),
        }
    }

    /// The status of a response to a request that failed so.
    pub open spec fn status_code(self) -> u16 {
        match self {
            AppError::NotFound(_) => 404,
            AppError::Validation(_) => 422,
            AppError::Conflict(_) => 409,
            AppError::Unauthorized => 401,
            _ => 500,
        }
    }

    /// The status of a response to a request that failed so.
    pub fn status(&self) -> (r: u16)
        ensures
            r == self.status_code(),
    {
        match self {
            AppError::NotFound(_) => 404,
            AppError::Validation(_) => 422,
            AppError::Conflict(_) => 409,
            AppError::Unauthorized => 401,
            AppError::Embedding(_) => 500,
            AppError::Storage(_) => 500,
            AppError::Serialization(_) => 500,
            AppError::Internal(_) => 500,
        }
    }

    /// What the caller learns: the wording of an error of the request, and nothing
    /// of an error inside.
    pub open spec fn told(self) -> Seq<char> {
        if self.status_code() >= 500 {
            "internal server error"@
        } else {
            self.wording()
        }
    }

    /// The body of a response to a request that failed so.
    pub fn response(&self) -> (r: ErrorResponse)
        ensures
            r.detail@ == self.told(),
    {
        let status: u16 = self.status();
        if status >= 500 {
            ErrorResponse { detail: "internal server error".to_owned() }
        } else {
            ErrorResponse { detail: self.message() }
        }
    }
}

impl From<StorageError> for AppError {
    fn from(e: StorageError) -> (r: Self) {
        AppError::Storage(e)
    }
}

impl vstd::std_specs::convert::FromSpecImpl<StorageError> for AppError {
    open spec fn obeys_from_spec() -> bool {
        true
    }

    open spec fn from_spec(e: StorageError) -> Self {
        AppError::Storage(e)
    }
}

/// Nothing of an error inside is told to the caller.
pub proof fn law_inner_errors_are_not_told(a: AppError, b: AppError)
    requires
        a.status_code() == 500,
        b.status_code() == 500,
    ensures
        a.told() == b.told(),
{
}

/// The status of a response says what went wrong: what was not found, what was not valid,
/// what was in conflict, who was not let in, and that all else went wrong inside.
pub proof fn law_status(id: u128, m: String, e: StorageError)
    ensures
        AppError::NotFound(id).status_code() == 404,
        AppError::Validation(m).status_code() == 422,
        AppError::Conflict(m).status_code() == 409,
        AppError::Unauthorized.status_code() == 401,
        AppError::Embedding(m).status_code() == 500,
        AppError::Storage(e).status_code() == 500,
        AppError::Serialization(m).status_code() == 500,
        AppError::Internal(m).status_code() == 500,
{
}

/// An error of the request is told to the caller in its own words, with the memory or
/// the message that it is about, and of an error inside nothing is told.
pub proof fn law_told(id: u128, m: String, e: StorageError)
    ensures
        AppError::NotFound(id).told() == "memory not found: "@ + types::id_text(id),
        AppError::Validation(m).told() == "validation error: "@ + m@,
        AppError::Conflict(m).told() == "conflict: "@ + m@,
        AppError::Unauthorized.told() == "unauthorized"@,
        AppError::Embedding(m).told() == "internal server error"@,
        AppError::Storage(e).told() == "internal server error"@,
        AppError::Serialization(m).told() == "internal server error"@,
        AppError::Internal(m).told() == "internal server error"@,
{
}

/// The wording of an error ends with what it is about.
pub proof fn law_wording(m: String, e: StorageError)
    ensures
        AppError::Embedding(m).wording() == "embedding error: "@ + m@,
        AppError::Storage(e).wording() == "storage error: "@ + e.wording(),
        AppError::Serialization(m).wording() == "serialization error: "@ + m@,
        AppError::Internal(m).wording() == "internal error: "@ + m@,
{
}

} // verus!
