//! Page and link payloads as plain records.

use vstd::prelude::*;

use crate::data::{flag_set, FLAG_IN_PARENS, FLAG_IN_STRUCTURE};

verus! {

/// What a page carries besides its place in the graph.
pub struct PageInfo {
    pub id: u32,
    pub title: String,
    pub length: u32,
    pub redirect: bool,
}

/// What a link carries besides its target.
#[derive(Debug, Clone, Copy, PartialEq, Eq, Structural)]
pub struct LinkInfo {
    pub start: u32,
    pub len: u32,
    pub flags: u8,
}

impl LinkInfo {
    pub fn in_parens(self) -> (r: bool)
        ensures
            r == flag_set(self.flags, FLAG_IN_PARENS),
    {
        self.flags & FLAG_IN_PARENS != 0
    }

    pub fn in_structure(self) -> (r: bool)
        ensures
            r == flag_set(self.flags, FLAG_IN_STRUCTURE),
    {
        self.flags & FLAG_IN_STRUCTURE != 0
    }
}

} // verus!
