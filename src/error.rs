//! The error type returned across the command boundary.

use vstd::prelude::*;

verus! {

#[verifier::external_type_specification]
#[verifier::external_body]
pub struct ExAnyhowError(anyhow::Error);

#[verifier::external_type_specification]
#[verifier::external_body]
pub struct ExIoError(std::io::Error);

/// Application-level error: each variant is a failure domain and carries
/// a human-readable message.
#[derive(Debug)]
pub enum AppError {
    /// Database operations.
    Database(String),
    /// The packet capture engine.
    Capture(String),
    /// The rate limiter.
    RateLimiter(String),
    /// I/O and operating-system calls.
    Io(String),
    /// Invalid or missing user input.
    InvalidInput(String),
}

impl AppError {
    /// The variant's name.
    pub fn kind(&self) -> (r: &'static str)
        ensures
            r@ == match self {
                AppError::Database(_) => "Database"@,
                AppError::Capture(_) => "Capture"@,
                AppError::RateLimiter(_) => "RateLimiter"@,
                AppError::Io(_) => "Io"@,
                AppError::InvalidInput(_) => "InvalidInput"@,
            },
    {
        match self {
            AppError::Database(_) => "Database",
            AppError::Capture(_) => "Capture",
            AppError::RateLimiter(_) => "RateLimiter",
            AppError::Io(_) => "Io",
            AppError::InvalidInput(_) => "InvalidInput",
        }
    }

    /// The message the error displays.
    pub fn message(&self) -> (r: String)
        ensures
            r@ == match self {
                AppError::Database(m) => m@,
                AppError::Capture(m) => m@,
                AppError::RateLimiter(m) => m@,
                AppError::Io(m) => m@,
                AppError::InvalidInput(m) => m@,
            },
    {
        match self {
            AppError::Database(m) => m.clone(),
            AppError::Capture(m) => m.clone(),
            AppError::RateLimiter(m) => m.clone(),
            AppError::Io(m) => m.clone(),
            AppError::InvalidInput(m) => m.clone(),
        }
    }
}

/// Relies on the `Display` impl of `anyhow::Error`: its message.
#[verifier::external_body]
fn anyhow_message(e: &anyhow::Error) -> String {
    e.to_string()
}

/// Relies on the `Display` impl of `std::io::Error`: its message.
#[verifier::external_body]
fn io_message(e: &std::io::Error) -> String {
    e.to_string()
}

impl From<anyhow::Error> for AppError {
    /// Errors from the storage layer arrive as `anyhow` errors.
    fn from(err: anyhow::Error) -> AppError {
        AppError::Database(anyhow_message(&err))
    }
}

impl vstd::std_specs::convert::FromSpecImpl<anyhow::Error> for AppError {
    open spec fn obeys_from_spec() -> bool {
        false
    }

    open spec fn from_spec(v: anyhow::Error) -> AppError {
        arbitrary()
    }
}

impl From<std::io::Error> for AppError {
    fn from(err: std::io::Error) -> AppError {
        AppError::Io(io_message(&err))
    }
}

impl vstd::std_specs::convert::FromSpecImpl<std::io::Error> for AppError {
    open spec fn obeys_from_spec() -> bool {
        false
    }

    open spec fn from_spec(v: std::io::Error) -> AppError {
        arbitrary()
    }
}

} // verus!
