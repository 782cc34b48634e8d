//! The capability contract a key type fulfils, and a ready-made key type.

use crate::slot_map_key_data::SlotMapKeyData;
use vstd::prelude::*;

verus! {

/// Contract for any type used as a slot map key: it is built from an
/// application payload (the "pointer") together with the map-managed
/// coordinate-and-generation triple, and it hands that triple back for
/// lookups.
pub trait SlotMapKey<P>: Sized {
    /// The coordinate-and-generation triple embedded in this key.
    spec fn spec_key_data(&self) -> SlotMapKeyData;

    /// The application payload embedded in this key.
    spec fn spec_pointer(&self) -> P;

    /// Hand back the embedded triple, for the map to resolve.
    fn get_slot_map_key_data(&self) -> (r: &SlotMapKeyData)
        ensures
            *r == self.spec_key_data(),
    ;

    /// Build a key from a payload and the triple the map assigned.
    fn from_parts(pointer: P, key_data: SlotMapKeyData) -> (r: Self)
        ensures
            r.spec_key_data() == key_data,
            r.spec_pointer() == pointer,
    ;
}

/// A minimal key type: a payload of any type paired with the map-managed
/// triple.  Define a richer key type wherever the payload should carry more
/// structure; this one satisfies the contract with no frills.
pub struct BasicKey<P> {
    /// The application payload travelling with the key.
    pub pointer: P,
    slot_key: SlotMapKeyData,
}

impl<P> BasicKey<P> {
    /// The embedded coordinate-and-generation triple.
    pub fn key_data(&self) -> (r: &SlotMapKeyData)
        ensures
            *r == self.spec_key_data(),
    {
        &self.slot_key
    }
}

impl<P> SlotMapKey<P> for BasicKey<P> {
    closed spec fn spec_key_data(&self) -> SlotMapKeyData {
        self.slot_key
    }

    closed spec fn spec_pointer(&self) -> P {
        self.pointer
    }

    fn get_slot_map_key_data(&self) -> (r: &SlotMapKeyData) {
        &self.slot_key
    }

    fn from_parts(pointer: P, key_data: SlotMapKeyData) -> (r: Self) {
        BasicKey { pointer, slot_key: key_data }
    }
}

} // verus!
