use crate::order::{text_eq, contains_text, views};
use vstd::prelude::*;

verus! {

/// The reference catalogs that requests are checked against: the known
/// index types, the known data sources, and the pairs of a data source and
/// an index type that can be built from it.
pub struct Catalog {
    pub index_types: Vec<String>,
    pub data_sources: Vec<String>,
    pub compatibility: Vec<(String, String)>,
}

/// Which catalog check a request failed.
#[derive(Clone, Copy, Debug, PartialEq, Eq, Structural)]
pub enum ValidationKind {
    UnknownType,
    UnknownSource,
    IncompatiblePair,
}

/// A well-formed request that the catalogs refuse.
#[derive(Clone, Copy, Debug, PartialEq, Eq, Structural)]
pub struct ValidationError {
    pub kind: ValidationKind,
}

impl Catalog {
    pub open spec fn has_index_type(&self, t: Seq<char>) -> bool {
        views(self.index_types@).contains(t)
    }

    pub open spec fn has_data_source(&self, s: Seq<char>) -> bool {
        views(self.data_sources@).contains(s)
    }

    pub open spec fn has_pair(&self, s: Seq<char>, t: Seq<char>) -> bool {
        exists|i: int|
            0 <= i < self.compatibility@.len() && (#[trigger] self.compatibility@[i]).0@ == s
                && self.compatibility@[i].1@ == t
    }
}

/// Checks that `index_type` is a known index type.
pub fn validate_index_type(index_type: &str, catalog: &Catalog) -> (r: Result<(), ValidationError>)
    ensures
        r is Ok <==> catalog.has_index_type(index_type@),
        r matches Err(e) ==> e.kind == ValidationKind::UnknownType,
{
    if contains_text(&catalog.index_types, index_type) {
        Ok(())
    } else {
        Err(ValidationError { kind: ValidationKind::UnknownType })
    }
}

/// Checks that `data_source` is a known data source.
pub fn validate_data_source(data_source: &str, catalog: &Catalog) -> (r: Result<(), ValidationError>)
    ensures
        r is Ok <==> catalog.has_data_source(data_source@),
        r matches Err(e) ==> e.kind == ValidationKind::UnknownSource,
{
    if contains_text(&catalog.data_sources, data_source) {
        Ok(())
    } else {
        Err(ValidationError { kind: ValidationKind::UnknownSource })
    }
}

/// Checks that an index of type `index_type` can be built from `data_source`.
pub fn validate_data_source_with_index_type(
    data_source: &str,
    index_type: &str,
    catalog: &Catalog,
) -> (r: Result<(), ValidationError>)
    ensures
        r is Ok <==> catalog.has_pair(data_source@, index_type@),
        r matches Err(e) ==> e.kind == ValidationKind::IncompatiblePair,
{
    let mut i: usize = 0;
    while i < catalog.compatibility.len()
        invariant
            i <= catalog.compatibility@.len(),
            forall|k: int|
                0 <= k < i ==> !((#[trigger] catalog.compatibility@[k]).0@ == data_source@
                    && catalog.compatibility@[k].1@ == index_type@),
        decreases catalog.compatibility@.len() - i,
    {
        let pair = &catalog.compatibility[i];
        if text_eq(pair.0.as_str(), data_source) && text_eq(pair.1.as_str(), index_type) {
            return Ok(());
        }
        i = i + 1;
    }
    Err(ValidationError { kind: ValidationKind::IncompatiblePair })
}

} // verus!
