use vstd::prelude::*;
use crate::gmd::GmdError;
use crate::zip::ZipError;

verus! {

/// What went wrong with one key of a record.
pub enum KeyFault {
    Missing(Seq<char>),
    Invalid(Seq<char>, Seq<char>),
}

/// A required key that is absent, or a value that does not read as its type.
#[derive(Debug)]
pub enum KeyError {
    Missing { key: String },
    Invalid { key: String, val: String },
}

impl View for KeyError {
    type V = KeyFault;

    open spec fn view(&self) -> KeyFault {
        match self {
            KeyError::Missing { key } => KeyFault::Missing(key@),
            KeyError::Invalid { key, val } => KeyFault::Invalid(key@, val@),
        }
    }
}

/// The errors of the level-object and object-list codecs.
#[derive(Debug)]
pub enum Error {
    /// The object list has no header, or an empty one.
    MissingObjectHeader,
    /// The object's id is zero, which marks no object.
    InvalidObject,
    Gmd(GmdError),
    Key(KeyError),
    Io(std::io::Error),
    Base64(base64::DecodeError),
}

impl From<ZipError> for Error {
    fn from(e: ZipError) -> (r: Error) {
        match e {
            ZipError::Io(e) => Error::Io(e),
            ZipError::Base64(e) => Error::Base64(e),
        }
    }
}

impl vstd::std_specs::convert::FromSpecImpl<ZipError> for Error {
    open spec fn obeys_from_spec() -> bool {
        true
    }

    open spec fn from_spec(e: ZipError) -> Error {
        match e {
            ZipError::Io(e) => Error::Io(e),
            ZipError::Base64(e) => Error::Base64(e),
        }
    }
}

impl From<GmdError> for Error {
    fn from(e: GmdError) -> (r: Error) {
        Error::Gmd(e)
    }
}

impl vstd::std_specs::convert::FromSpecImpl<GmdError> for Error {
    open spec fn obeys_from_spec() -> bool {
        true
    }

    open spec fn from_spec(e: GmdError) -> Error {
        Error::Gmd(e)
    }
}

impl From<KeyError> for Error {
    fn from(e: KeyError) -> (r: Error) {
        Error::Key(e)
    }
}

impl vstd::std_specs::convert::FromSpecImpl<KeyError> for Error {
    open spec fn obeys_from_spec() -> bool {
        true
    }

    open spec fn from_spec(e: KeyError) -> Error {
        Error::Key(e)
    }
}

} // verus!
