//! Validation of distinction IDs as they cross the document mapping layer.

use vstd::prelude::*;
use vstd::string::*;
use crate::error::{DeltaError, DeltaResult};
use crate::strings::chars_of;

verus! {

/// Whether `c` is an ASCII hexadecimal digit.
pub open spec fn is_id_char(c: char) -> bool {
    ('0' <= c && c <= '9') || ('a' <= c && c <= 'f') || ('A' <= c && c <= 'F')
}

/// Whether an ID has an accepted length: 64 bytes (a SHA-256 hex digest) or
/// one of the primordial IDs `"0"` and `"1"`.
pub open spec fn id_length_ok(id: &str) -> bool {
    id.len() == 64 || id@ == "0"@ || id@ == "1"@
}

/// Whether every character of `s` is accepted in an ID.
pub open spec fn all_id_chars(s: Seq<char>) -> bool {
    forall|i: int| 0 <= i < s.len() ==> is_id_char(#[trigger] s[i])
}

/// Whether `r` is the `InvalidData` error whose reason reads `reason`.
pub open spec fn is_invalid_data(r: DeltaResult<()>, reason: Seq<char>) -> bool {
    match r {
        Err(DeltaError::InvalidData { reason: text }) => text@ == reason,
        _ => false,
    }
}

/// Maps JSON documents to and from distinction structures.
#[derive(Debug)]
pub struct DocumentMapper;

impl DocumentMapper {
    /// Validate that a distinction ID matches the expected format: a SHA-256 hex
    /// string of 64 hex digits, or one of `"0"`/`"1"`. The length is checked first.
    pub fn validate_distinction_id(id: &str) -> (r: DeltaResult<()>)
        ensures
            r is Ok <==> (id_length_ok(id) && all_id_chars(id@)),
            !id_length_ok(id) ==> is_invalid_data(r, "Invalid distinction ID format: "@ + id@),
            id_length_ok(id) && !all_id_chars(id@)
                ==> is_invalid_data(r, "Distinction ID contains invalid characters: "@ + id@),
    {
        let is_zero = crate::strings::str_eq(id, "0");
        let is_one = crate::strings::str_eq(id, "1");
        if id.len() != 64 && !is_zero && !is_one {
            let mut reason = String::from_str("Invalid distinction ID format: ");
            reason.append(id);
            return Err(DeltaError::InvalidData { reason });
        }
        let cs = chars_of(id);
        let mut i: usize = 0;
        while i < cs.len()
            invariant
                cs@ == id@,
                id_length_ok(id),
                i <= cs@.len(),
                forall|j: int| 0 <= j < i ==> is_id_char(#[trigger] id@[j]),
            decreases cs@.len() - i,
        {
            let c = cs[i];
            if !(('0' <= c && c <= '9') || ('a' <= c && c <= 'f') || ('A' <= c && c <= 'F')) {
                let mut reason = String::from_str("Distinction ID contains invalid characters: ");
                reason.append(id);
                return Err(DeltaError::InvalidData { reason });
            }
            i = i + 1;
        }
        Ok(())
    }
}

} // verus!
