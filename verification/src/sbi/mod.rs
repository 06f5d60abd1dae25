use vstd::prelude::*;

verus! {

/// The errors that an SBI call reports.
#[derive(PartialEq, Eq, Structural, Clone, Copy, Debug)]
pub enum SbiError {
    Success,
    Failed,
    NotSupported,
    InvalidParam,
    Denied,
    InvalidAddress,
    AlreadyAvailable,
    AlreadyStarted,
    AlreadyStopped,
    SharedMemoryNotAvailable,
    Unknown(isize),
}

impl SbiError {
    /// The error that code `code` stands for: 0 down to -9 name the known errors, every other
    /// code is unknown.
    pub open spec fn of_code(code: isize) -> SbiError {
        if code == 0 {
            SbiError::Success
        } else if code == -1 {
            SbiError::Failed
        } else if code == -2 {
            SbiError::NotSupported
        } else if code == -3 {
            SbiError::InvalidParam
        } else if code == -4 {
            SbiError::Denied
        } else if code == -5 {
            SbiError::InvalidAddress
        } else if code == -6 {
            SbiError::AlreadyAvailable
        } else if code == -7 {
            SbiError::AlreadyStarted
        } else if code == -8 {
            SbiError::AlreadyStopped
        } else if code == -9 {
            SbiError::SharedMemoryNotAvailable
        } else {
            SbiError::Unknown(code)
        }
    }

    /// The error that code `code` stands for.
    pub fn from_code(code: isize) -> (r: SbiError)
        ensures
            r == Self::of_code(code),
    {
        match code {
            0 => SbiError::Success,
            -1 => SbiError::Failed,
            -2 => SbiError::NotSupported,
            -3 => SbiError::InvalidParam,
            -4 => SbiError::Denied,
            -5 => SbiError::InvalidAddress,
            -6 => SbiError::AlreadyAvailable,
            -7 => SbiError::AlreadyStarted,
            -8 => SbiError::AlreadyStopped,
            -9 => SbiError::SharedMemoryNotAvailable,
            c => SbiError::Unknown(c),
        }
    }
}

/// What an SBI call hands back: an error code and a value.
pub struct SbiRet {
    pub error: isize,
    pub value: usize,
}

impl SbiRet {
    /// The value where the code is success, else the error.
    pub fn into_result(self) -> (r: Result<usize, SbiError>)
        ensures
            self.error == 0 ==> r == Ok::<usize, SbiError>(self.value),
            self.error != 0 ==> r == Err::<usize, SbiError>(SbiError::of_code(self.error)),
    {
        let err = SbiError::from_code(self.error);
        match err {
            SbiError::Success => Ok(self.value),
            e => Err(e),
        }
    }
}

/// The arguments of an SBI call.
pub struct SbiArgs {
    pub a0: usize,
    pub a1: usize,
    pub a2: usize,
}

/// The arguments of a debug-console write of `len` bytes at address `addr`.
pub fn console_write_args(len: usize, addr: usize) -> (r: SbiArgs)
    ensures
        r.a0 == len,
        r.a1 == addr,
        r.a2 == 0,
{
    SbiArgs { a0: len, a1: addr, a2: 0 }
}

} // verus!
