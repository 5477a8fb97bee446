use crate::domain::model::{identity_error_text, IdentityError};
use crate::domain::ports::StoreError;
use vstd::prelude::*;
use vstd::string::*;

verus! {

/// HTTP API errors.
#[derive(Debug)]
pub enum ApiError {
    Unauthorized,
    Forbidden(String),
    NotFound,
    BadRequest(String),
    InternalError,
}

/// The HTTP status of each error.
pub open spec fn api_error_status(e: ApiError) -> u16 {
    match e {
        ApiError::Unauthorized => 401,
        ApiError::Forbidden(_) => 403,
        ApiError::NotFound => 404,
        ApiError::BadRequest(_) => 400,
        ApiError::InternalError => 500,
    }
}

/// The message carried in the `error` field of the response body.
pub open spec fn api_error_text(e: ApiError) -> Seq<char> {
    match e {
        ApiError::Unauthorized => "Unauthorized"@,
        ApiError::Forbidden(msg) => msg@,
        ApiError::NotFound => "Not found"@,
        ApiError::BadRequest(msg) => msg@,
        ApiError::InternalError => "Internal server error"@,
    }
}

impl ApiError {
    /// The HTTP status code of the response.
    pub fn status(&self) -> (r: u16)
        ensures
            r == api_error_status(*self),
    {
        match self {
            ApiError::Unauthorized => 401,
            ApiError::Forbidden(_) => 403,
            ApiError::NotFound => 404,
            ApiError::BadRequest(_) => 400,
            ApiError::InternalError => 500,
        }
    }

    /// The message of the response body.
    pub fn message(&self) -> (r: String)
        ensures
            r@ == api_error_text(*self),
    {
        match self {
            ApiError::Unauthorized => String::from_str("Unauthorized"),
            ApiError::Forbidden(msg) => msg.clone(),
            ApiError::NotFound => String::from_str("Not found"),
            ApiError::BadRequest(msg) => msg.clone(),
            ApiError::InternalError => String::from_str("Internal server error"),
        }
    }

    /// An invalid identity is a bad request, described by the identity
    /// error's message.
    pub fn from_identity_error(err: IdentityError) -> (r: Self)
        ensures
            r matches ApiError::BadRequest(msg) && msg@ == identity_error_text(err),
    {
        ApiError::BadRequest(err.to_string())
    }

    /// A refused identity is forbidden; every other store failure is an
    /// internal error.
    pub fn from_store_error(err: StoreError) -> (r: Self)
        ensures
            match err {
                StoreError::IdentityNotAllowed(id) => r matches ApiError::Forbidden(msg) && msg@
                    == "Identity not allowed: "@ + id@,
                _ => r == ApiError::InternalError,
            },
    {
        match err {
            StoreError::IdentityNotAllowed(id) => {
                let mut msg = String::from_str("Identity not allowed: ");
                msg.append(id.as_str());
                ApiError::Forbidden(msg)
            },
            _ => ApiError::InternalError,
        }
    }
}

} // verus!
