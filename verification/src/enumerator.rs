//! The seam between the catalog and the host: a font enumerator that either
//! asks the system's font source or, where there is none to ask, lists nothing.

use crate::catalog::{is_catalog, is_catalog_of, FontCatalog};
use font_kit::error::SelectionError;
use font_kit::source::SystemSource;
use vstd::prelude::*;

verus! {

/// font-kit's handle on the system's font database. Nothing of what it holds
/// is visible here.
#[verifier::external_type_specification]
#[verifier::external_body]
pub struct ExSystemSource(SystemSource);

/// font-kit's reason for a failed lookup. Nothing of what it holds is visible
/// here: a failed query is folded into an empty catalog whatever the reason.
#[verifier::external_type_specification]
#[verifier::external_body]
pub struct ExSelectionError(SelectionError);

/// `SystemSource::new` of font-kit opens the system's font database. Nothing
/// is claimed of the handle it returns.
pub assume_specification[ SystemSource::new ]() -> (source: SystemSource)
;

/// `SystemSource::all_families` of font-kit asks the system for the names of
/// its font families. What comes back depends on the fonts installed, so
/// nothing is claimed of it: neither that the query succeeds, nor that the
/// names are sorted or free of repeats.
pub assume_specification[ SystemSource::all_families ](source: &SystemSource) -> (outcome: Result<
    Vec<String>,
    SelectionError,
>)
;

/// How font families are enumerated on a platform.
#[derive(Clone, Copy, Debug, PartialEq, Eq, Structural)]
pub enum FontEnumerator {
    /// The system has a font source that can be asked.
    Native,
    /// The platform has no usable font source: nothing is listed.
    Unsupported,
}

/// The names that a query outcome stands for: those reported, or none where
/// the query failed.
pub open spec fn reported_names(outcome: Result<Vec<String>, SelectionError>) -> Seq<Seq<char>> {
    match outcome {
        Ok(families) => families.deep_view(),
        Err(_) => Seq::empty(),
    }
}

/// Turns the outcome of a font query into a catalog. A failed query counts as
/// one that reported no family; it is never passed on as an error.
pub fn catalog_from_query(outcome: Result<Vec<String>, SelectionError>) -> (catalog: FontCatalog)
    ensures
        is_catalog_of(catalog@, reported_names(outcome)),
        catalog@.no_duplicates(),
        outcome is Err ==> catalog@.len() == 0,
{
    match outcome {
        Ok(families) => FontCatalog::from_families(families),
        Err(_) => FontCatalog::new(),
    }
}

impl FontEnumerator {
    /// Lists the font families of the host as a catalog: each name once, in
    /// ascending order. On an unsupported platform the catalog is empty and no
    /// font source is asked. Otherwise it holds what the system's font source
    /// reports at the time of the call, and is empty where the query fails.
    pub fn list_font_families(self) -> (catalog: FontCatalog)
        ensures
            is_catalog(catalog@),
            catalog@.no_duplicates(),
            self is Unsupported ==> catalog@.len() == 0,
    {
        match self {
            FontEnumerator::Native => {
                let source = SystemSource::new();
                catalog_from_query(source.all_families())
            },
            FontEnumerator::Unsupported => FontCatalog::new(),
        }
    }
}

} // verus!
