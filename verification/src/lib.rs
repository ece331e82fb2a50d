use vstd::prelude::*;

pub mod cache;
pub mod query;

verus! {

/// Identifier of one page of the link graph: an opaque immutable string
/// token. Two identifiers name the same page exactly when their text is
/// equal character for character.
#[derive(Debug, Hash)]
pub struct WikiUrl(pub String);

impl View for WikiUrl {
    type V = Seq<char>;

    open spec fn view(&self) -> Seq<char> {
        self.0@
    }
}

impl DeepView for WikiUrl {
    type V = Seq<char>;

    open spec fn deep_view(&self) -> Seq<char> {
        self.0@
    }
}

impl Clone for WikiUrl {
    fn clone(&self) -> (r: Self)
        ensures
            r == *self,
    {
        WikiUrl(self.0.clone())
    }
}

impl PartialEq for WikiUrl {
    fn eq(&self, other: &Self) -> bool {
        self.0 == other.0
    }
}

impl Eq for WikiUrl {}

impl vstd::std_specs::cmp::PartialEqSpecImpl for WikiUrl {
    open spec fn obeys_eq_spec() -> bool {
        true
    }

    open spec fn eq_spec(&self, other: &WikiUrl) -> bool {
        self@ == other@
    }
}

/// Options of one path query as a caller hands them in: origin, target,
/// and an optional inclusive depth bound.
pub struct QueryOptions {
    pub from: String,
    pub to: String,
    pub depth: Option<u8>,
}

} // verus!
