use vstd::prelude::*;

verus! {

/// Status codes visible at the RPC boundary.
#[allow(non_camel_case_types)]
#[derive(Clone, Copy, Debug, PartialEq, Eq, Structural)]
pub enum StatusCode {
    SUCCESS,
    DOUBLE_REGISTER,
    NO_BUFFER,
    INVALID_STORAGE,
    NO_REGISTER,
    NO_PARTITION,
    INTERNAL_ERROR,
    TIMEOUT,
    NO_BUFFER_FOR_HUGE_PARTITION,
}

impl StatusCode {
    /// The numeric code carried on the wire for this status.
    pub fn code(&self) -> (r: i32)
        ensures
            r == self.code_spec(),
    {
        match self {
            StatusCode::SUCCESS => 0,
            StatusCode::DOUBLE_REGISTER => 1,
            StatusCode::NO_BUFFER => 2,
            StatusCode::INVALID_STORAGE => 3,
            StatusCode::NO_REGISTER => 4,
            StatusCode::NO_PARTITION => 5,
            StatusCode::INTERNAL_ERROR => 6,
            StatusCode::TIMEOUT => 7,
            StatusCode::NO_BUFFER_FOR_HUGE_PARTITION => 8,
        }
    }

    pub open spec fn code_spec(&self) -> i32 {
        match self {
            StatusCode::SUCCESS => 0,
            StatusCode::DOUBLE_REGISTER => 1,
            StatusCode::NO_BUFFER => 2,
            StatusCode::INVALID_STORAGE => 3,
            StatusCode::NO_REGISTER => 4,
            StatusCode::NO_PARTITION => 5,
            StatusCode::INTERNAL_ERROR => 6,
            StatusCode::TIMEOUT => 7,
            StatusCode::NO_BUFFER_FOR_HUGE_PARTITION => 8,
        }
    }
}

} // verus!
