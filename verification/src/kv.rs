//! The record that the log stores and the index holds.

use crate::lex::{compare_keys, key_order, KeyOrder};
use std::cmp::Ordering;
use vstd::prelude::*;
use vstd::std_specs::cmp::{PartialEqSpecImpl, PartialOrdSpecImpl};

verus! {

/// One key with its value, both opaque byte strings. Records compare by
/// their keys alone: two records are equal if their keys are, and one comes
/// before another if its key does, byte by byte.
#[derive(Clone, Debug)]
pub struct KvPair {
    pub key: Vec<u8>,
    pub value: Vec<u8>,
}

impl View for KvPair {
    type V = (Seq<u8>, Seq<u8>);

    open spec fn view(&self) -> (Seq<u8>, Seq<u8>) {
        (self.key@, self.value@)
    }
}

impl KvPair {
    /// Builds the record that maps `key` to `value`.
    pub fn new(key: Vec<u8>, value: Vec<u8>) -> (kv: KvPair)
        ensures
            kv.key == key,
            kv.value == value,
            kv@ == (key@, value@),
    {
        KvPair { key, value }
    }
}

/// The order of the standard library that stands for `order`.
pub open spec fn std_order(order: KeyOrder) -> Ordering {
    match order {
        KeyOrder::Less => Ordering::Less,
        KeyOrder::Equal => Ordering::Equal,
        KeyOrder::Greater => Ordering::Greater,
    }
}

impl PartialEq for KvPair {
    fn eq(&self, other: &KvPair) -> (r: bool) {
        match compare_keys(self.key.as_slice(), other.key.as_slice()) {
            KeyOrder::Equal => true,
            _ => false,
        }
    }
}

impl PartialEqSpecImpl for KvPair {
    open spec fn obeys_eq_spec() -> bool {
        true
    }

    open spec fn eq_spec(&self, other: &KvPair) -> bool {
        self.key@ == other.key@
    }
}

impl Eq for KvPair {

}

impl PartialOrd for KvPair {
    fn partial_cmp(&self, other: &KvPair) -> (r: Option<Ordering>) {
        match compare_keys(self.key.as_slice(), other.key.as_slice()) {
            KeyOrder::Less => Some(Ordering::Less),
            KeyOrder::Equal => Some(Ordering::Equal),
            KeyOrder::Greater => Some(Ordering::Greater),
        }
    }
}

impl PartialOrdSpecImpl for KvPair {
    open spec fn obeys_partial_cmp_spec() -> bool {
        true
    }

    open spec fn partial_cmp_spec(&self, other: &KvPair) -> Option<Ordering> {
        Some(std_order(key_order(self.key@, other.key@)))
    }
}

} // verus!
