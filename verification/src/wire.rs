//! The values that cross the boundary to the kernel's completion ring.

use vstd::prelude::*;

verus! {

/// A failed operation, by the platform's error code.
#[derive(Clone, Copy, Debug, PartialEq, Eq, Structural)]
pub struct IoError {
    pub code: u32,
}

/// One request for a positioned read, as it is placed on the submission queue.
#[derive(Clone, Copy, Debug, PartialEq, Eq, Structural)]
pub struct Submission {
    /// The descriptor to read from.
    pub fd: i32,
    /// The address of the first byte of the destination.
    pub addr: usize,
    /// How many bytes to read at most.
    pub len: u32,
    /// The position in the file of the first byte to read.
    pub offset: u64,
    /// The token that the matching completion carries back.
    pub user_data: u64,
}

/// What one read asks for: the descriptor, the destination and the position.
#[derive(Clone, Copy, Debug, PartialEq, Eq, Structural)]
pub struct Request {
    /// The descriptor to read from.
    pub fd: i32,
    /// The address of the first byte of the destination.
    pub addr: usize,
    /// The length of the destination in bytes.
    pub len: usize,
    /// The position in the file of the first byte to read.
    pub offset: u64,
}

/// The length that a request for a destination of `len` bytes carries: the
/// request's length field has 32 bits and holds the low 32 bits of `len`.
pub open spec fn request_len(len: usize) -> u32 {
    (len as int % 0x1_0000_0000) as u32
}

/// The submission that carries `request` under `token`.
pub open spec fn submission_of(request: Request, token: u64) -> Submission {
    Submission {
        fd: request.fd,
        addr: request.addr,
        len: request_len(request.len),
        offset: request.offset,
        user_data: token,
    }
}

impl Request {
    /// Builds the submission that carries this request under `token`.
    pub fn submission(&self, token: u64) -> (submission: Submission)
        ensures
            submission == submission_of(*self, token),
    {
        let low: u64 = self.len as u64 % 0x1_0000_0000;
        Submission {
            fd: self.fd,
            addr: self.addr,
            len: low as u32,
            offset: self.offset,
            user_data: token,
        }
    }
}

/// One event of the completion queue.
#[derive(Clone, Copy, Debug, PartialEq, Eq, Structural)]
pub struct Completion {
    /// The token of the request that this event answers.
    pub user_data: u64,
    /// The byte count, or the negated error code.
    pub result: i32,
}

/// What a result code means: a byte count where it is not negative, else the
/// error whose code is its magnitude.
pub open spec fn outcome_of(result: i32) -> Result<usize, IoError> {
    if result < 0 {
        Err(IoError { code: (-(result as int)) as u32 })
    } else {
        Ok(result as usize)
    }
}

/// Reads a completion's result code.
pub fn read_outcome(result: i32) -> (outcome: Result<usize, IoError>)
    ensures
        outcome == outcome_of(result),
{
    if result < 0 {
        let magnitude: i64 = -(result as i64);
        Err(IoError { code: magnitude as u32 })
    } else {
        Ok(result as usize)
    }
}

} // verus!
