//! Finds where a value, or a key, occurs inside a JSON document.
//!
//! [`find_paths`] walks a [`Value`] and returns, written out, the path to each
//! place where the target stands: `["store"]["books"][0]["title"]`.

pub mod laws;
pub mod path;
pub mod search;
pub mod value;

pub use path::{JsonPath, Step};
pub use search::{find_paths, SearchError, SearchType};
pub use value::{Scalar, Tree, Value};
