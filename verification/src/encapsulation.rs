//! Access to a value that a wrapper type keeps private.

use vstd::prelude::*;

verus! {

/// Implemented by wrapper types that keep one value of type `T` private and
/// expose it only through these three accessors.
pub trait Encapsulates<T> {
    /// A shared borrow of the encapsulated value.
    fn encapsulated_get(&self) -> &T;

    /// An exclusive borrow of the encapsulated value.
    fn encapsulated_get_mut(&mut self) -> &mut T;

    /// Replaces the encapsulated value.
    fn encapsulated_set(&mut self, value: T);
}

} // verus!
