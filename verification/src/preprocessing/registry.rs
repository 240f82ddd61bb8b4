//! The kinds of preprocessors that can be read back from storage.

use crate::error::{Result, TreeBoostError};
use crate::preprocessing::traits::PreprocessorTrait;
use crate::text::{join2, join3};
use crate::text_map::TextMap;
use vstd::prelude::*;

verus! {

/// Kinds of preprocessors by name, each with a function that makes one from a
/// stored state.
#[derive(Debug)]
pub struct Registry<C> {
    entries: TextMap<C>,
}

impl<C> View for Registry<C> {
    type V = Map<Seq<char>, C>;

    closed spec fn view(&self) -> Map<Seq<char>, C> {
        self.entries@
    }
}

impl<C> Registry<C> {
    /// A registry without entries.
    pub fn new() -> (r: Self)
        ensures
            r@ == Map::<Seq<char>, C>::empty(),
    {
        Registry { entries: TextMap::new() }
    }

    /// Enters a kind of preprocessor, in place of one of the same name. Returns
    /// whether there was one.
    pub fn register(&mut self, type_id: &str, constructor: C) -> (r: bool)
        ensures
            final(self)@ == old(self)@.insert(type_id@, constructor),
            r == old(self)@.contains_key(type_id@),
    {
        self.entries.insert(type_id, constructor)
    }
}

/// Enters the kind of preprocessor `T`, in place of one of the same name.
/// Returns whether there was one.
pub fn register_preprocessor<V, T: PreprocessorTrait<V> + Default, C>(
    registry: &mut Registry<C>,
    constructor: C,
) -> (r: bool)
    ensures
        exists|sample: T, id: &'static str|
            {
                &&& call_ensures(<T as Default>::default, (), sample)
                &&& #[trigger] call_ensures(
                    <T as PreprocessorTrait<V>>::type_id,
                    (&sample,),
                    id,
                )
                &&& final(registry)@ == old(registry)@.insert(id@, constructor)
                &&& r == old(registry)@.contains_key(id@)
            },
{
    let sample = T::default();
    let id = sample.type_id();
    let r = registry.register(id, constructor);
    assert(call_ensures(<T as PreprocessorTrait<V>>::type_id, (&sample,), id));
    r
}

/// Whether a kind of preprocessor has been entered.
pub fn is_registered<C>(registry: &Registry<C>, type_id: &str) -> (r: bool)
    ensures
        r == registry@.contains_key(type_id@),
{
    get_constructor(registry, type_id).is_some()
}

/// The names of all kinds of preprocessors that have been entered, sorted.
pub fn registered_types<C>(registry: &Registry<C>) -> (r: Vec<&str>)
    ensures
        crate::text::sorted_distinct(crate::text::words(r@)),
        forall|n: Seq<char>| #[trigger]
            crate::text::words(r@).contains(n) <==> registry@.contains_key(n),
{
    registry.entries.keys()
}

/// The function that makes a preprocessor of a kind, if it has been entered.
pub fn get_constructor<'a, C>(registry: &'a Registry<C>, type_id: &str) -> (r: Option<&'a C>)
    ensures
        match r {
            Some(c) => registry@.contains_key(type_id@) && *c == registry@[type_id@],
            None => !registry@.contains_key(type_id@),
        },
{
    registry.entries.get(type_id)
}

/// The text that the standard library's `Debug` gives for a list of strings.
pub uninterp spec fn debug_list(names: Seq<Seq<char>>) -> Seq<char>;

/// Writes a list of strings as the standard library's `Debug` does, through
/// `format!`: the text is determined by the strings.
#[verifier::external_body]
fn show_list(names: &[&str]) -> (r: String)
    ensures
        r@ == debug_list(crate::text::words(names@)),
{
    format!("{:?}", names)
}

/// The complaint about a kind of preprocessor that has not been entered.
pub open spec fn unknown_type_text(type_id: Seq<char>, listed: Seq<char>) -> Seq<char> {
    "Unknown preprocessor type: '"@ + type_id
        + "'. Did you call register_preprocessor::<YourType>() before loading this model? Registered types: "@
        + listed
}

/// What comes of making a preprocessor of a kind from a stored state.
pub open spec fn constructs<P, C: Fn(&[u8]) -> Result<P>>(
    entries: Map<Seq<char>, C>,
    type_id: Seq<char>,
    serialized_state: &[u8],
    r: Result<P>,
) -> bool {
    if entries.contains_key(type_id) {
        call_ensures(entries[type_id], (serialized_state,), r)
    } else {
        &&& r is Err
        &&& exists|names: Seq<Seq<char>>|
            {
                &&& crate::text::sorted_distinct(names)
                &&& forall|n: Seq<char>| #[trigger] names.contains(n) <==> entries.contains_key(n)
                &&& r->Err_0.is_serialization(
                    unknown_type_text(type_id, #[trigger] debug_list(names)),
                )
            }
    }
}

/// Makes a preprocessor of a kind from a stored state.
pub fn construct_preprocessor<P, C: Fn(&[u8]) -> Result<P>>(
    registry: &Registry<C>,
    type_id: &str,
    serialized_state: &[u8],
) -> (r: Result<P>)
    requires
        registry@.contains_key(type_id@) ==> call_requires(
            registry@[type_id@],
            (serialized_state,),
        ),
    ensures
        constructs(registry@, type_id@, serialized_state, r),
{
    match get_constructor(registry, type_id) {
        Some(constructor) => (*constructor)(serialized_state),
        None => {
            let names = registered_types(registry);
            let listed = show_list(names.as_slice());
            proof {
                let all = crate::text::words(names@);
                assert(listed@ == debug_list(all));
            }
            Err(
                TreeBoostError::Serialization(
                    join2(
                        join3(
                            "Unknown preprocessor type: '",
                            type_id,
                            "'. Did you call register_preprocessor::<YourType>() before loading this model? Registered types: ",
                        ).as_str(),
                        listed.as_str(),
                    ),
                ),
            )
        },
    }
}

} // verus!
