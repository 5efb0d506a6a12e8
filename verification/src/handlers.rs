//! The request shapes of the service boundary and their validation.
//!
//! The transport itself (routing, headers, status codes) lives outside the
//! library; what is validated here is the code-point request each query
//! carries: it must parse and must not be empty.

use vstd::prelude::*;

use crate::error::AppError;
use crate::utils::{codepoints_ok, lemma_split_commas_len, parse_codepoints, parsed_codepoints};

verus! {

/// The query of a font retrieval request: a font identity and the requested
/// characters as a comma-separated code-point list.
pub struct FontQuery {
    pub id: String,
    pub chars: String,
}

/// The query of a forced regeneration: an optional font identity and the
/// requested characters.
pub struct GenerateQuery {
    pub id: Option<String>,
    pub chars: String,
}

/// Validates the character list of a query: parses the comma-separated code
/// points and rejects a request that denotes none, exactly as the boundary
/// rejects malformed or empty requests.
pub fn parse_request_chars(chars: &str) -> (r: Result<Vec<u32>, AppError>)
    ensures
        match r {
            Ok(v) => codepoints_ok(chars@) && v@ == parsed_codepoints(chars@) && v@.len() > 0,
            Err(e) => e is InvalidInput && !codepoints_ok(chars@),
        },
{
    match parse_codepoints(chars) {
        Err(e) => Err(e),
        Ok(v) => {
            proof {
                lemma_split_commas_len(chars@);
            }
            if v.len() == 0 {
                // defensive: a parsed request always holds at least one token
                return Err(AppError::InvalidInput);
            }
            Ok(v)
        },
    }
}

} // verus!
