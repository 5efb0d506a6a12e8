//! Error kinds surfaced by the engine.

use vstd::prelude::*;

verus! {

/// The caller-visible failure modes of the engine.
///
/// Cache-store failures are always recovered internally (a failed read falls
/// through to regeneration, a failed write still returns the generated bytes),
/// so `StorageDegraded` is only ever reported by the boundary layer, never by
/// the engine's own request path.
#[derive(Debug, Clone)]
pub enum AppError {
    /// The code-point request was malformed or empty.
    InvalidInput,
    /// No registered font has the given identity.
    FontNotFound(String),
    /// No candidate font (including fallbacks) covers any requested code
    /// point; carries the first requested code point as diagnostic context.
    CharacterNotFound(u32),
    /// Subsetting or transcoding failed for an otherwise covered request.
    EngineFailure,
    /// A cache read or write failed; recovered locally by recomputation.
    StorageDegraded,
}

impl AppError {
    /// A stable, generic description of the error kind, suitable for a
    /// caller-facing message that leaks no internal diagnostics.
    pub fn message(&self) -> (r: &'static str)
        ensures
            self is InvalidInput ==> r@ == "invalid code point request"@,
            self is FontNotFound ==> r@ == "font not found"@,
            self is CharacterNotFound ==> r@ == "character not found"@,
            self is EngineFailure ==> r@ == "font processing failed"@,
            self is StorageDegraded ==> r@ == "cache storage degraded"@,
    {
        match self {
            AppError::InvalidInput => "invalid code point request",
            AppError::FontNotFound(_) => "font not found",
            AppError::CharacterNotFound(_) => "character not found",
            AppError::EngineFailure => "font processing failed",
            AppError::StorageDegraded => "cache storage degraded",
        }
    }
}

} // verus!
