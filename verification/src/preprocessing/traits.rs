//! Preprocessors that the user of the library defines.

use crate::error::{Result, TreeBoostError};
use crate::text::join2;
use vstd::prelude::*;

verus! {

/// The complaint about an operation that a preprocessor does not support.
pub open spec fn unsupported_text(type_id: Seq<char>, kind: Seq<char>) -> Seq<char> {
    type_id + (" does not support "@ + kind + " operations"@)
}

/// The error that complains about an operation that a preprocessor does not
/// support.
pub fn unsupported(type_id: &str, kind: &str) -> (r: TreeBoostError)
    ensures
        r.is_config(unsupported_text(type_id@, kind@)),
{
    let tail = crate::text::join3(" does not support ", kind, " operations");
    TreeBoostError::Config(join2(type_id, tail.as_str()))
}

/// A preprocessor that the user of the library defines. It can be stored: its
/// state is turned into bytes and back, and `type_id` says what it is.
pub trait PreprocessorTrait<V>: Sized {
    /// What kind of preprocessor this is; no two kinds have the same.
    fn type_id(&self) -> &'static str;

    /// Learns from a table of numbers, stored row by row. Without a definition
    /// of its own this is not supported.
    fn fit_numerical(&mut self, data: &[V], num_features: usize) -> (r: Result<()>)
        default_ensures
            *final(self) == *old(self),
            r is Err,
            exists|id: &'static str| #[trigger]
                call_ensures(<Self as PreprocessorTrait<V>>::type_id, (&*old(self),), id)
                    && r->Err_0.is_config(unsupported_text(id@, "numerical"@)),
    {
        Err(unsupported(self.type_id(), "numerical"))
    }

    /// Transforms a table of numbers in place. Without a definition of its own
    /// this is not supported.
    fn transform_numerical(&self, data: &mut [V], num_features: usize) -> (r: Result<()>)
        default_ensures
            final(data)@ == old(data)@,
            r is Err,
            exists|id: &'static str| #[trigger]
                call_ensures(<Self as PreprocessorTrait<V>>::type_id, (self,), id)
                    && r->Err_0.is_config(unsupported_text(id@, "numerical"@)),
    {
        Err(unsupported(self.type_id(), "numerical"))
    }

    /// Whether tables of numbers are supported.
    fn supports_numerical(&self) -> (r: bool)
        default_ensures
            !r,
    {
        false
    }

    /// Learns from a list of categories. Without a definition of its own this is
    /// not supported.
    fn fit_categorical(&mut self, categories: &[&str]) -> (r: Result<()>)
        default_ensures
            *final(self) == *old(self),
            r is Err,
            exists|id: &'static str| #[trigger]
                call_ensures(<Self as PreprocessorTrait<V>>::type_id, (&*old(self),), id)
                    && r->Err_0.is_config(unsupported_text(id@, "categorical"@)),
    {
        Err(unsupported(self.type_id(), "categorical"))
    }

    /// Turns a list of categories into numbers. Without a definition of its own
    /// this is not supported.
    fn transform_categorical(&self, categories: &[&str]) -> (r: Result<Vec<V>>)
        default_ensures
            r is Err,
            exists|id: &'static str| #[trigger]
                call_ensures(<Self as PreprocessorTrait<V>>::type_id, (self,), id)
                    && r->Err_0.is_config(unsupported_text(id@, "categorical"@)),
    {
        Err(unsupported(self.type_id(), "categorical"))
    }

    /// Whether categories are supported.
    fn supports_categorical(&self) -> (r: bool)
        default_ensures
            !r,
    {
        false
    }

    /// Whether the preprocessor has learnt what it needs.
    fn is_fitted(&self) -> bool;

    /// The state as bytes.
    fn serialize_state(&self) -> Result<Vec<u8>>;

    /// Takes over a state from bytes.
    fn deserialize_state(&mut self, data: &[u8]) -> Result<()>;
}

} // verus!
