//! The error type shared by the library.

use vstd::prelude::*;

verus! {

#[derive(Debug)]
pub enum SfmError {
    /// A failed read or write, with what the system said of it.
    Io(String),
    Parse { context: String, message: String },
    UnknownCameraModel(String),
    Other(String),
}

pub type Result<T> = std::result::Result<T, SfmError>;

impl SfmError {
    /// The text of the error.
    pub open spec fn text(&self) -> Seq<char> {
        match *self {
            SfmError::Io(detail) => "io error: "@ + detail@,
            SfmError::Parse { context, message } => "parse error at "@ + context@ + ": "@
                + message@,
            SfmError::UnknownCameraModel(name) => "unknown camera model: "@ + name@,
            SfmError::Other(message) => message@,
        }
    }

    /// The error as shown to the user.
    pub fn message(&self) -> (r: String)
        ensures
            r@ == self.text(),
    {
        match self {
            SfmError::Io(detail) => {
                let mut s = String::from_str("io error: ");
                s.append(detail.as_str());
                s
            },
            SfmError::Parse { context, message } => {
                let mut s = String::from_str("parse error at ");
                s.append(context.as_str());
                s.append(": ");
                s.append(message.as_str());
                s
            },
            SfmError::UnknownCameraModel(name) => {
                let mut s = String::from_str("unknown camera model: ");
                s.append(name.as_str());
                s
            },
            SfmError::Other(message) => message.clone(),
        }
    }
}

} // verus!
