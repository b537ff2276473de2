//! The error type of the management API and what each error answers.
use vstd::prelude::*;
use crate::names::push_str;

verus! {

broadcast use vstd::string::group_string_axioms;

/// Unified error type for all API handlers.
#[derive(Debug)]
pub enum ApiError {
    Unauthorized(String),
    NotFound(String),
    BadRequest(String),
    TooManyRequests(String),
    /// An internal failure, with its description (never shown to clients).
    Internal(String),
}

/// The HTTP status an error answers with.
pub open spec fn status_of(e: ApiError) -> u16 {
    match e {
        ApiError::Unauthorized(_) => 401,
        ApiError::NotFound(_) => 404,
        ApiError::BadRequest(_) => 400,
        ApiError::TooManyRequests(_) => 429,
        ApiError::Internal(_) => 500,
    }
}

/// The message a client sees: the error's own message, except for internal
/// errors, whose details are hidden.
pub open spec fn client_message(e: ApiError) -> Seq<char> {
    match e {
        ApiError::Unauthorized(m) => m@,
        ApiError::NotFound(m) => m@,
        ApiError::BadRequest(m) => m@,
        ApiError::TooManyRequests(m) => m@,
        ApiError::Internal(_) => "Internal server error"@,
    }
}

/// The error's display text: its kind and message, or the bare description
/// of an internal error.
pub open spec fn display_text(e: ApiError) -> Seq<char> {
    match e {
        ApiError::Unauthorized(m) => "Unauthorized: "@ + m@,
        ApiError::NotFound(m) => "Not found: "@ + m@,
        ApiError::BadRequest(m) => "Bad request: "@ + m@,
        ApiError::TooManyRequests(m) => "Too many requests: "@ + m@,
        ApiError::Internal(m) => m@,
    }
}

impl ApiError {
    /// The HTTP status this error answers with.
    pub fn status(&self) -> (s: u16)
        ensures
            s == status_of(*self),
    {
        match self {
            ApiError::Unauthorized(_) => 401,
            ApiError::NotFound(_) => 404,
            ApiError::BadRequest(_) => 400,
            ApiError::TooManyRequests(_) => 429,
            ApiError::Internal(_) => 500,
        }
    }

    /// The message of the JSON body `{"error": message}` the client receives.
    pub fn client_message(&self) -> (m: String)
        ensures
            m@ == client_message(*self),
    {
        match self {
            ApiError::Unauthorized(m) => m.clone(),
            ApiError::NotFound(m) => m.clone(),
            ApiError::BadRequest(m) => m.clone(),
            ApiError::TooManyRequests(m) => m.clone(),
            ApiError::Internal(_) => "Internal server error".to_owned(),
        }
    }

    /// The error's display text.
    pub fn to_string(&self) -> (t: String)
        ensures
            t@ == display_text(*self),
    {
        let mut t = String::new();
        match self {
            ApiError::Unauthorized(m) => {
                push_str(&mut t, "Unauthorized: ");
                push_str(&mut t, m.as_str());
            },
            ApiError::NotFound(m) => {
                push_str(&mut t, "Not found: ");
                push_str(&mut t, m.as_str());
            },
            ApiError::BadRequest(m) => {
                push_str(&mut t, "Bad request: ");
                push_str(&mut t, m.as_str());
            },
            ApiError::TooManyRequests(m) => {
                push_str(&mut t, "Too many requests: ");
                push_str(&mut t, m.as_str());
            },
            ApiError::Internal(m) => {
                push_str(&mut t, m.as_str());
            },
        }
        assert(t@ =~= display_text(*self));
        t
    }
}

/// Internal details never reach the client.
pub proof fn lemma_internal_details_hidden(detail: String)
    ensures
        client_message(ApiError::Internal(detail)) == "Internal server error"@,
        status_of(ApiError::Internal(detail)) == 500,
{
}

} // verus!
