//! A generic associative container with separate-chaining hash map
//! semantics: key-value storage with insert, lookup, containment check and
//! removal, plus unordered iteration over the stored pairs.
//!
//! Keys implement [`MapKey`], which supplies an equality test and a
//! deterministic hash; values are unconstrained. The abstract value of a
//! [`HashMap`] is a `vstd` `Map` from key views to values, and every public
//! operation is specified against that map.

mod key;
mod map;
mod table;

pub use key::MapKey;
pub use map::HashMap;
pub use map::HashMapIter;
