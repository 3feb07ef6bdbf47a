//! The logic behind the C interface: status codes, the sentinel encoding of
//! optional search settings, and which texts can cross as C strings.
use vstd::prelude::*;
use crate::text::chars_of;

verus! {

/// Status of a call through the C interface.
#[derive(Debug, Clone, Copy, PartialEq, Eq)]
pub enum RugstError {
    /// The call succeeded (`Ok` at the C interface).
    Success,
    NullPointer,
    InvalidUtf8,
    InternalError,
}

impl RugstError {
    /// The C value of the status.
    pub open spec fn code_spec(self) -> i32 {
        match self {
            RugstError::Success => 0,
            RugstError::NullPointer => 1,
            RugstError::InvalidUtf8 => 2,
            RugstError::InternalError => 3,
        }
    }

    /// The C value of the status: 0 for success, then 1, 2, 3.
    pub fn code(self) -> (res: i32)
        ensures
            res == self.code_spec(),
    {
        match self {
            RugstError::Success => 0,
            RugstError::NullPointer => 1,
            RugstError::InvalidUtf8 => 2,
            RugstError::InternalError => 3,
        }
    }
}

/// The rank offset `k` of reciprocal rank fusion when none is given.
pub const DEFAULT_RRF_K: u32 = 60;

/// The number of results returned when none is given.
pub const DEFAULT_TOP_K: usize = 5;

/// The candidate window given through C, where there is no `Option`: a
/// positive value limits the search to that many recent records, zero or a
/// negative value means no limit.
pub fn candidate_window_from(raw: i64) -> (res: Option<i64>)
    ensures
        res == (if raw > 0 {
            Some(raw)
        } else {
            None
        }),
{
    if raw > 0 {
        Some(raw)
    } else {
        None
    }
}

/// The RRF `k` given through C: zero (a zero-initialised options struct)
/// means the default.
pub fn rrf_k_from(raw: u32) -> (res: u32)
    ensures
        res == (if raw > 0 {
            raw
        } else {
            DEFAULT_RRF_K
        }),
{
    if raw > 0 {
        raw
    } else {
        DEFAULT_RRF_K
    }
}

/// A text can be handed out as a C string exactly when it holds no NUL
/// character (`CString::new` refuses the others; such results are skipped).
pub fn c_text_compatible(s: &str) -> (res: bool)
    ensures
        res == !s@.contains('\0'),
{
    let chars = chars_of(s);
    let mut i: usize = 0;
    while i < chars.len()
        invariant
            chars@ == s@,
            i <= chars@.len(),
            forall|k: int| 0 <= k < i ==> chars@[k] != '\0',
        decreases chars@.len() - i,
    {
        if chars[i] == '\0' {
            assert(s@[i as int] == '\0');
            return false;
        }
        i = i + 1;
    }
    true
}

}
