//! Errors raised by configuration checks.

use vstd::prelude::*;

verus! {

/// A configuration the library refuses, with the reason.
#[derive(Clone, Debug)]
pub enum TgaError {
    /// A configuration value is missing or malformed.
    ConfigError(String),
    /// A cross-field invariant of the configuration does not hold.
    ValidationError(String),
}

impl TgaError {
    /// The reason, as shown to the user.
    pub fn message(&self) -> (m: String)
        ensures
            m@ == match self {
                TgaError::ConfigError(s) => s@,
                TgaError::ValidationError(s) => s@,
            },
    {
        match self {
            TgaError::ConfigError(s) => s.clone(),
            TgaError::ValidationError(s) => s.clone(),
        }
    }
}

} // verus!
