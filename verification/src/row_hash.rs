//! Input rows: a key and the bytes whose digest the tree will keep.

use vstd::prelude::*;

use crate::token::Token;

verus! {

/// One row handed to the tree: the tree retains only the digest the row's
/// value induces at the leaf owning its key.
pub struct RowHash<T> {
    pub key: T,
    pub value: Vec<u8>,
}

impl<T> RowHash<T> {
    pub fn new(key: T, value: Vec<u8>) -> (r: Self)
        ensures
            r.key == key,
            r.value == value,
    {
        RowHash { key, value }
    }
}

/// The rows as the contracts see them: key scalar and value bytes.
pub open spec fn rowhash_views<T: Token>(rows: Seq<RowHash<T>>) -> Seq<(u64, Seq<u8>)> {
    rows.map_values(|row: RowHash<T>| (row.key.spec_value(), row.value@))
}

} // verus!
