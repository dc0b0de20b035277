use vstd::prelude::*;
use crate::posix::Errno;

verus! {

/// Why an ELF file could not be read.
#[derive(PartialEq, Debug)]
pub struct ElfParserError {
    errno: Errno,
    message: String,
}

impl ElfParserError {
    pub fn new(errno: Errno, message: String) -> (r: Self)
        ensures
            r.errno() == errno,
            r.message() == message@,
    {
        ElfParserError { errno, message }
    }

    pub closed spec fn errno(&self) -> Errno {
        self.errno
    }

    pub closed spec fn message(&self) -> Seq<char> {
        self.message@
    }
}

/// An `EINVAL` error with the given message.
pub(crate) fn invalid(message: &str) -> (r: ElfParserError)
    ensures
        r.errno() == Errno::EINVAL,
        r.message() == message@,
{
    ElfParserError::new(Errno::EINVAL, message.to_owned())
}

} // verus!
