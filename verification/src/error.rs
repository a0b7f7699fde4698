use vstd::prelude::*;

verus! {

/// Errors of the library, each with the HTTP status and the stable code that
/// the API reports for it.
#[derive(Debug)]
pub enum AppError {
    NotFound,
    Forbidden,
    Unauthorized,
    Conflict(String),
    Validation(String),
    RateLimited,
    CircularRef,
    Locked,
    Internal(String),
}

/// The mathematical value of an `AppError`: its variant and message.
pub enum ErrorV {
    NotFound,
    Forbidden,
    Unauthorized,
    Conflict(Seq<char>),
    Validation(Seq<char>),
    RateLimited,
    CircularRef,
    Locked,
    Internal(Seq<char>),
}

impl View for AppError {
    type V = ErrorV;

    open spec fn view(&self) -> ErrorV {
        match self {
            AppError::NotFound => ErrorV::NotFound,
            AppError::Forbidden => ErrorV::Forbidden,
            AppError::Unauthorized => ErrorV::Unauthorized,
            AppError::Conflict(m) => ErrorV::Conflict(m@),
            AppError::Validation(m) => ErrorV::Validation(m@),
            AppError::RateLimited => ErrorV::RateLimited,
            AppError::CircularRef => ErrorV::CircularRef,
            AppError::Locked => ErrorV::Locked,
            AppError::Internal(m) => ErrorV::Internal(m@),
        }
    }
}

pub type AppResult<T> = Result<T, AppError>;

/// A validation error carrying `msg`.
pub fn validation(msg: &str) -> (e: AppError)
    ensures
        e@ == ErrorV::Validation(msg@),
{
    AppError::Validation(msg.to_owned())
}

impl ErrorV {
    /// The HTTP status of an error.
    pub open spec fn status(self) -> u16 {
        match self {
            ErrorV::NotFound => 404,
            ErrorV::Forbidden => 403,
            ErrorV::Unauthorized => 401,
            ErrorV::Conflict(_) => 409,
            ErrorV::Validation(_) => 400,
            ErrorV::RateLimited => 429,
            ErrorV::CircularRef => 400,
            ErrorV::Locked => 423,
            ErrorV::Internal(_) => 500,
        }
    }
}

impl AppError {
    /// The HTTP status code for this error.
    pub fn status(&self) -> (s: u16)
        ensures
            s == self@.status(),
    {
        match self {
            AppError::NotFound => 404,
            AppError::Forbidden => 403,
            AppError::Unauthorized => 401,
            AppError::Conflict(_) => 409,
            AppError::Validation(_) => 400,
            AppError::RateLimited => 429,
            AppError::CircularRef => 400,
            AppError::Locked => 423,
            AppError::Internal(_) => 500,
        }
    }

    /// The stable machine-readable code for this error.
    pub fn code(&self) -> (c: &'static str)
        ensures
            c@ == match self@ {
                ErrorV::NotFound => "not_found"@,
                ErrorV::Forbidden => "forbidden"@,
                ErrorV::Unauthorized => "unauthorized"@,
                ErrorV::Conflict(_) => "conflict"@,
                ErrorV::Validation(_) => "validation"@,
                ErrorV::RateLimited => "rate_limited"@,
                ErrorV::CircularRef => "circular_ref"@,
                ErrorV::Locked => "locked"@,
                ErrorV::Internal(_) => "internal"@,
            },
    {
        match self {
            AppError::NotFound => "not_found",
            AppError::Forbidden => "forbidden",
            AppError::Unauthorized => "unauthorized",
            AppError::Conflict(_) => "conflict",
            AppError::Validation(_) => "validation",
            AppError::RateLimited => "rate_limited",
            AppError::CircularRef => "circular_ref",
            AppError::Locked => "locked",
            AppError::Internal(_) => "internal",
        }
    }
}

impl ErrorV {
    /// The text of an error, as it is written out.
    pub open spec fn text(self) -> Seq<char> {
        match self {
            ErrorV::NotFound => "not found"@,
            ErrorV::Forbidden => "forbidden"@,
            ErrorV::Unauthorized => "unauthorized"@,
            ErrorV::Conflict(m) => "conflict: "@ + m,
            ErrorV::Validation(m) => "validation: "@ + m,
            ErrorV::RateLimited => "rate limited"@,
            ErrorV::CircularRef => "circular collection reference"@,
            ErrorV::Locked => "locked"@,
            ErrorV::Internal(_) => "internal error"@,
        }
    }

    /// The message an API response carries: the bare message of a conflict
    /// or a validation error, nothing of an internal one, else the text.
    pub open spec fn response_message(self) -> Seq<char> {
        match self {
            ErrorV::Conflict(m) => m,
            ErrorV::Validation(m) => m,
            ErrorV::Internal(_) => "internal error"@,
            _ => self.text(),
        }
    }
}

impl AppError {
    /// The text of the error.
    pub fn message(&self) -> (m: String)
        ensures
            m@ == self@.text(),
    {
        match self {
            AppError::NotFound => "not found".to_owned(),
            AppError::Forbidden => "forbidden".to_owned(),
            AppError::Unauthorized => "unauthorized".to_owned(),
            AppError::Conflict(m) => {
                let mut t = "conflict: ".to_owned();
                t.append(m.as_str());
                t
            },
            AppError::Validation(m) => {
                let mut t = "validation: ".to_owned();
                t.append(m.as_str());
                t
            },
            AppError::RateLimited => "rate limited".to_owned(),
            AppError::CircularRef => "circular collection reference".to_owned(),
            AppError::Locked => "locked".to_owned(),
            AppError::Internal(_) => "internal error".to_owned(),
        }
    }

    /// The message of the error's API response.
    pub fn response_message(&self) -> (m: String)
        ensures
            m@ == self@.response_message(),
    {
        match self {
            AppError::Conflict(m) => m.clone(),
            AppError::Validation(m) => m.clone(),
            AppError::Internal(_) => "internal error".to_owned(),
            _ => self.message(),
        }
    }

    /// Whether the error is the server's fault (a 5xx status).
    pub fn is_server_error(&self) -> (b: bool)
        ensures
            b == (500 <= self@.status() < 600),
    {
        let s = self.status();
        500 <= s && s < 600
    }
}

} // verus!
