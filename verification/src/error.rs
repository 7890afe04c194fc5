use vstd::prelude::*;
use vstd::string::*;

verus! {

/// To be used as error message when extracting stuff from arrays that should never fail.
pub const WRONG_OFFSET: &'static str = "Wrong buffer offset detected";

/// Possible errors that can occur while working with E57 files.
#[derive(Debug)]
pub enum Error {
    /// The file content is invalid and does not conform with the E57 format specification.
    Invalid { desc: String },
    /// Something went wrong while reading data, typically because the data is incomplete.
    Read { desc: String },
    /// Some feature or aspect of E57 that is not implemented by this library.
    NotImplemented { desc: String },
    /// An unexpected internal issue occurred.
    Internal { desc: String },
    /// Something went wrong while writing data.
    Write { desc: String },
}

/// Custom result type hardwired to use the error type of this crate.
pub type Result<T> = core::result::Result<T, Error>;

impl Error {
    /// The description carried by the error.
    pub open spec fn desc_view(&self) -> Seq<char> {
        match self {
            Error::Invalid { desc } => desc@,
            Error::Read { desc } => desc@,
            Error::NotImplemented { desc } => desc@,
            Error::Internal { desc } => desc@,
            Error::Write { desc } => desc@,
        }
    }

    /// Creates a new invalid file error.
    pub fn invalid<T>(desc: &str) -> (r: Result<T>)
        ensures
            r matches Err(e) && e is Invalid && e.desc_view() == desc@,
    {
        Err(Error::Invalid { desc: desc.to_owned() })
    }

    /// Creates a new unimplemented error.
    pub fn not_implemented<T>(desc: &str) -> (r: Result<T>)
        ensures
            r matches Err(e) && e is NotImplemented && e.desc_view() == desc@,
    {
        Err(Error::NotImplemented { desc: desc.to_owned() })
    }

    /// Creates a new internal error.
    pub fn internal<T>(desc: &str) -> (r: Result<T>)
        ensures
            r matches Err(e) && e is Internal && e.desc_view() == desc@,
    {
        Err(Error::Internal { desc: desc.to_owned() })
    }

    /// The prefix that the message of each kind of error starts with.
    pub open spec fn prefix_view(&self) -> Seq<char> {
        match self {
            Error::Invalid { .. } => "Invalid E57 file: "@,
            Error::Read { .. } => "Failed to read E57: "@,
            Error::NotImplemented { .. } => "Not implemented: "@,
            Error::Internal { .. } => "Internal error: "@,
            Error::Write { .. } => "Failed to write E57: "@,
        }
    }

    /// Human readable message of the error: a prefix for the kind of error followed by its description.
    pub fn message(&self) -> (m: String)
        ensures
            m@ == self.prefix_view() + self.desc_view(),
    {
        match self {
            Error::Invalid { desc } => String::from_str("Invalid E57 file: ").concat(desc.as_str()),
            Error::Read { desc } => String::from_str("Failed to read E57: ").concat(desc.as_str()),
            Error::NotImplemented { desc } => String::from_str("Not implemented: ").concat(
                desc.as_str(),
            ),
            Error::Internal { desc } => String::from_str("Internal error: ").concat(desc.as_str()),
            Error::Write { desc } => String::from_str("Failed to write E57: ").concat(
                desc.as_str(),
            ),
        }
    }
}

/// Helper trait for values that can be converted into a result of this crate.
pub trait Converter<T>: Sized {
    /// The value that a successful conversion hands out, if there is one.
    spec fn convertible(&self) -> Option<T>;

    /// Converts into a result, with a read error carrying `desc` where there is no value.
    fn read_err(self, desc: &str) -> (r: Result<T>)
        ensures
            match self.convertible() {
                Some(v) => r == Ok::<T, Error>(v),
                None => r matches Err(e) && e is Read && e.desc_view() == desc@,
            },
    ;

    /// Converts into a result, with an invalid file error carrying `desc` where there is no value.
    fn invalid_err(self, desc: &str) -> (r: Result<T>)
        ensures
            match self.convertible() {
                Some(v) => r == Ok::<T, Error>(v),
                None => r matches Err(e) && e is Invalid && e.desc_view() == desc@,
            },
    ;

    /// Converts into a result, with an internal error carrying `desc` where there is no value.
    fn internal_err(self, desc: &str) -> (r: Result<T>)
        ensures
            match self.convertible() {
                Some(v) => r == Ok::<T, Error>(v),
                None => r matches Err(e) && e is Internal && e.desc_view() == desc@,
            },
    ;
}

impl<T> Converter<T> for Option<T> {
    open spec fn convertible(&self) -> Option<T> {
        *self
    }

    fn read_err(self, desc: &str) -> (r: Result<T>) {
        match self {
            Some(ok) => Ok(ok),
            None => Err(Error::Read { desc: desc.to_owned() }),
        }
    }

    fn invalid_err(self, desc: &str) -> (r: Result<T>) {
        match self {
            Some(ok) => Ok(ok),
            None => Err(Error::Invalid { desc: desc.to_owned() }),
        }
    }

    fn internal_err(self, desc: &str) -> (r: Result<T>) {
        match self {
            Some(ok) => Ok(ok),
            None => Err(Error::Internal { desc: desc.to_owned() }),
        }
    }
}

} // verus!
