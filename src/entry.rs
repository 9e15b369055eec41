//! A stored value with its expiry.

use vstd::prelude::*;
use crate::expiry::Expiry;

verus! {

/// A value stored under a key, with its expiry.
#[derive(Clone, Debug, PartialEq, Eq)]
pub struct Entry {
    pub value: String,
    pub expiration: Expiry,
}

impl Entry {
    /// An entry of a value and its expiry.
    pub fn new(value: String, expiration: Expiry) -> (r: Entry)
        ensures
            r.value@ == value@,
            r.expiration == expiration,
    {
        Entry { value, expiration }
    }

    /// The entry's expiry.
    pub fn expiration(&self) -> (r: &Expiry)
        ensures
            *r == self.expiration,
    {
        &self.expiration
    }

    /// The entry's value.
    pub fn value(&self) -> (r: &String)
        ensures
            r@ == self.value@,
    {
        &self.value
    }

    /// The entry's value, to change in place.
    pub fn value_mut(&mut self) -> (r: &mut String)
        ensures
            *r == old(self).value,
            final(self).value == *final(r),
            final(self).expiration == old(self).expiration,
    {
        &mut self.value
    }
}

} // verus!
