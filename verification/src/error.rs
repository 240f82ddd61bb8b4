//! The error type shared by every module of the library.

use vstd::prelude::*;

verus! {

/// What went wrong, with a message for the person who reads it.
#[derive(Debug)]
pub enum TreeBoostError {
    /// The data handed in cannot be processed.
    Data(String),
    /// The configuration is not usable.
    Config(String),
    /// A stored value cannot be written or read back.
    Serialization(String),
    /// Training did not produce a model.
    Training(String),
}

/// The result of an operation that can fail with a [`TreeBoostError`].
pub type Result<T> = core::result::Result<T, TreeBoostError>;

impl TreeBoostError {
    /// The characters of the message.
    pub open spec fn text(self) -> Seq<char> {
        match self {
            TreeBoostError::Data(m) => m@,
            TreeBoostError::Config(m) => m@,
            TreeBoostError::Serialization(m) => m@,
            TreeBoostError::Training(m) => m@,
        }
    }

    /// This is a data error that reads `text`.
    pub open spec fn is_data(self, text: Seq<char>) -> bool {
        self is Data && self.text() == text
    }

    /// This is a configuration error that reads `text`.
    pub open spec fn is_config(self, text: Seq<char>) -> bool {
        self is Config && self.text() == text
    }

    /// This is a serialization error that reads `text`.
    pub open spec fn is_serialization(self, text: Seq<char>) -> bool {
        self is Serialization && self.text() == text
    }

    /// This is a training error that reads `text`.
    pub open spec fn is_training(self, text: Seq<char>) -> bool {
        self is Training && self.text() == text
    }

    /// The message.
    pub fn message(&self) -> (r: &str)
        ensures
            r@ == self.text(),
    {
        match self {
            TreeBoostError::Data(m) => m.as_str(),
            TreeBoostError::Config(m) => m.as_str(),
            TreeBoostError::Serialization(m) => m.as_str(),
            TreeBoostError::Training(m) => m.as_str(),
        }
    }
}

} // verus!
