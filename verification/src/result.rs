//! Errors of the library.
use vstd::prelude::*;

verus! {

#[verifier::external_type_specification]
#[verifier::external_body]
pub struct ExIoError(std::io::Error);

#[verifier::external_type_specification]
#[verifier::external_body]
pub struct ExJsonError(serde_json::Error);

#[verifier::external_type_specification]
#[verifier::external_body]
pub struct ExSymmetricCipherError(crypto::symmetriccipher::SymmetricCipherError);

/// What can go wrong in the library.
#[derive(Debug)]
pub enum LoomError {
    /// An I/O error, with the operating system's error code it carries, if any.
    IO(std::io::Error, Option<i32>),
    JSON(serde_json::Error),
    AES(crypto::symmetriccipher::SymmetricCipherError),
    /// A hash table has no slot left for a key.
    NoSpace,
    ToLarge,
}

/// Two errors are equal only when both are `NoSpace` or both are `ToLarge`;
/// errors that carry an outside error never compare equal, not even to themselves.
pub open spec fn same_error(a: &LoomError, b: &LoomError) -> bool {
    (a is NoSpace && b is NoSpace) || (a is ToLarge && b is ToLarge)
}

impl PartialEq for LoomError {
    fn eq(&self, other: &Self) -> (r: bool) {
        match (self, other) {
            (LoomError::NoSpace, LoomError::NoSpace) => true,
            (LoomError::ToLarge, LoomError::ToLarge) => true,
            _ => false,
        }
    }
}

impl vstd::std_specs::cmp::PartialEqSpecImpl for LoomError {
    open spec fn obeys_eq_spec() -> bool {
        true
    }

    open spec fn eq_spec(&self, other: &Self) -> bool {
        same_error(self, other)
    }
}

pub type Result<T> = core::result::Result<T, LoomError>;

/// `r` failed with `NoSpace`.
pub open spec fn is_no_space<T>(r: Result<T>) -> bool {
    r matches Err(e) && e is NoSpace
}

impl From<serde_json::Error> for LoomError {
    fn from(e: serde_json::Error) -> (r: LoomError) {
        LoomError::JSON(e)
    }
}

impl vstd::std_specs::convert::FromSpecImpl<serde_json::Error> for LoomError {
    open spec fn obeys_from_spec() -> bool {
        true
    }

    open spec fn from_spec(v: serde_json::Error) -> Self {
        LoomError::JSON(v)
    }
}

impl From<crypto::symmetriccipher::SymmetricCipherError> for LoomError {
    fn from(e: crypto::symmetriccipher::SymmetricCipherError) -> (r: LoomError) {
        LoomError::AES(e)
    }
}

impl vstd::std_specs::convert::FromSpecImpl<crypto::symmetriccipher::SymmetricCipherError> for LoomError {
    open spec fn obeys_from_spec() -> bool {
        true
    }

    open spec fn from_spec(v: crypto::symmetriccipher::SymmetricCipherError) -> Self {
        LoomError::AES(v)
    }
}

/// `std::io::Error::raw_os_error`: the operating system's error code that the
/// error carries, if it came from the operating system. Nothing is stated of the
/// code: it depends on how the error arose.
#[verifier::external_body]
fn raw_os_error(e: &std::io::Error) -> Option<i32> {
    e.raw_os_error()
}

impl LoomError {
    /// The library's error for an I/O error, with the operating system's code that
    /// `raw_os_error` reads from it.
    pub fn from_io(e: std::io::Error) -> (r: LoomError)
        ensures
            r matches LoomError::IO(inner, _) && inner == e,
    {
        let code = raw_os_error(&e);
        LoomError::IO(e, code)
    }
}

/// The operating-system code that `r` failed with: the code of an I/O error, and
/// `None` for success or any other error.
pub open spec fn os_code<T>(r: Result<T>) -> Option<i32> {
    match r {
        Err(LoomError::IO(_, c)) => c,
        _ => None,
    }
}

/// The operating system's error code behind a failed result, if it failed with an
/// I/O error that carries one.
pub fn get_os_err<T>(r: &Result<T>) -> (code: Option<i32>)
    ensures
        code == os_code(*r),
{
    match r {
        Err(LoomError::IO(_, c)) => *c,
        _ => None,
    }
}

/// The code the operating system gives when an operation would block and should
/// be tried again (`EAGAIN`).
pub const EAGAIN: i32 = 11;

/// Whether an operating-system error code asks for the operation to be tried again.
pub fn is_eagain(code: Option<i32>) -> (again: bool)
    ensures
        again == (code == Some(EAGAIN)),
{
    match code {
        Some(c) => c == EAGAIN,
        None => false,
    }
}

/// Whether an operation that gave `r` is to be tried again: it failed with an I/O
/// error whose operating-system code is `EAGAIN`.
pub fn should_retry<T>(r: &Result<T>) -> (again: bool)
    ensures
        again == (os_code(*r) == Some(EAGAIN)),
{
    is_eagain(get_os_err(r))
}

} // verus!
