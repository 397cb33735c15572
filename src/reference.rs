//! Typed references from a media record to the feeds and posts it belongs to.
use std::marker::PhantomData;
use vstd::prelude::*;

verus! {

/// The feed kind of record, named here only as the target of references.
pub struct Feed {}

/// The post kind of record, named here only as the target of references.
pub struct Post {}

/// A typed, unresolved pointer to a record of kind `T`: the record's
/// identifier, with its kind carried in the type alone, so that a
/// `Reference<Feed>` never stands where a `Reference<Post>` is asked for.
pub struct Reference<T> {
    pub id: String,
    pub kind: PhantomData<T>,
}

impl<T> Reference<T> {
    /// A reference to the record with identifier `id`.
    pub fn new(id: String) -> (r: Self)
        ensures
            r.id == id,
    {
        Reference { id, kind: PhantomData }
    }

    /// The identifier of the referenced record.
    pub fn id(&self) -> (r: &str)
        ensures
            r@ == self.id@,
    {
        self.id.as_str()
    }
}

/// The JSON shape of a reference as it arrives.
#[derive(Debug)]
pub enum ReferenceInput {
    /// A bare identifier string.
    Id(String),
    /// An object: its `id` member when that is a string, and its JSON text.
    Object { id: Option<String>, raw: String },
    /// Any other JSON value, as its JSON text.
    Other(String),
}

/// A reference that names no identifier; holds the offending JSON text.
#[derive(Debug)]
pub struct ReferenceError {
    pub raw: String,
}

/// Reads a reference: a bare identifier string, or an object whose `id`
/// member is a string. Anything else is refused with its JSON text.
pub fn decode_reference<T>(input: ReferenceInput) -> (r: Result<Reference<T>, ReferenceError>)
    ensures
        match input {
            ReferenceInput::Id(s) => r matches Ok(x) && x.id == s,
            ReferenceInput::Object { id: Some(s), raw: _ } => r matches Ok(x) && x.id == s,
            ReferenceInput::Object { id: None, raw } => r matches Err(e) && e.raw == raw,
            ReferenceInput::Other(raw) => r matches Err(e) && e.raw == raw,
        },
{
    match input {
        ReferenceInput::Id(s) => Ok(Reference::new(s)),
        ReferenceInput::Object { id: Some(s), raw: _ } => Ok(Reference::new(s)),
        ReferenceInput::Object { id: None, raw } => Err(ReferenceError { raw }),
        ReferenceInput::Other(raw) => Err(ReferenceError { raw }),
    }
}

} // verus!
