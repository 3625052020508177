use vstd::prelude::*;

verus! {

/// Why a request was turned down.
#[derive(Debug)]
pub enum ApiError {
    /// The credential is missing, malformed, expired or not genuine.
    Unauthorized,
    /// The caller is known but acts outside its own user or device.
    Forbidden,
    /// The request itself is unusable.
    BadRequest(String),
    /// The store or another backing service failed.
    Internal,
    /// The target legitimately does not exist.
    NotFound(String),
}

impl ApiError {
    /// The HTTP status that stands for each kind of failure.
    pub open spec fn status_of(self) -> u16 {
        match self {
            ApiError::Unauthorized => 401,
            ApiError::Forbidden => 403,
            ApiError::BadRequest(_) => 400,
            ApiError::Internal => 500,
            ApiError::NotFound(_) => 404,
        }
    }

    /// The text shown to the caller. It never says whether a target exists
    /// unless the failure is `NotFound` itself.
    pub open spec fn message_of(self) -> Seq<char> {
        match self {
            ApiError::Unauthorized => "unauthorized"@,
            ApiError::Forbidden => "forbidden"@,
            ApiError::BadRequest(s) => s@,
            ApiError::Internal => "internal"@,
            ApiError::NotFound(s) => s@,
        }
    }

    /// The HTTP status of this failure.
    pub fn status_code(&self) -> (code: u16)
        ensures
            code == self.status_of(),
    {
        match self {
            ApiError::Unauthorized => 401,
            ApiError::Forbidden => 403,
            ApiError::BadRequest(_) => 400,
            ApiError::Internal => 500,
            ApiError::NotFound(_) => 404,
        }
    }

    /// The text of this failure as the caller sees it.
    pub fn message(&self) -> (msg: String)
        ensures
            msg@ == self.message_of(),
    {
        match self {
            ApiError::Unauthorized => "unauthorized".to_string(),
            ApiError::Forbidden => "forbidden".to_string(),
            ApiError::BadRequest(s) => s.clone(),
            ApiError::Internal => "internal".to_string(),
            ApiError::NotFound(s) => s.clone(),
        }
    }
}

} // verus!
