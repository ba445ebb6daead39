//! Backend operations of a desktop shell: a greeting formatter and a catalog
//! of the font families installed on the host.

pub mod catalog;
pub mod code_points;
pub mod enumerator;
pub mod greeting;
pub mod order;

pub use catalog::FontCatalog;
pub use enumerator::{catalog_from_query, FontEnumerator};
pub use greeting::greet;
pub use order::{compare_names, NameOrder};
