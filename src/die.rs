//! One compilation unit's debugging information entries, held as plain
//! values: what the resolver and the function extractor read of each entry.

use vstd::prelude::*;

verus! {

pub const TAG_ARRAY_TYPE: u16 = 0x01;
pub const TAG_ENUMERATION_TYPE: u16 = 0x04;
pub const TAG_FORMAL_PARAMETER: u16 = 0x05;
pub const TAG_MEMBER: u16 = 0x0d;
pub const TAG_POINTER_TYPE: u16 = 0x0f;
pub const TAG_STRUCTURE_TYPE: u16 = 0x13;
pub const TAG_SUBROUTINE_TYPE: u16 = 0x15;
pub const TAG_TYPEDEF: u16 = 0x16;
pub const TAG_UNION_TYPE: u16 = 0x17;
pub const TAG_UNSPECIFIED_PARAMETERS: u16 = 0x18;
pub const TAG_SUBRANGE_TYPE: u16 = 0x21;
pub const TAG_BASE_TYPE: u16 = 0x24;
pub const TAG_CONST_TYPE: u16 = 0x26;
pub const TAG_ENUMERATOR: u16 = 0x28;
pub const TAG_SUBPROGRAM: u16 = 0x2e;
pub const TAG_VOLATILE_TYPE: u16 = 0x35;

/// One debugging information entry. References to other entries are
/// offsets within the same unit. A string attribute that is absent, or whose
/// bytes are not UTF-8, is `None`.
#[derive(Clone, Debug)]
pub struct Die {
    pub offset: u64,
    pub tag: u16,
    /// printable name of the tag, used for tags that are not modelled
    pub tag_name: String,
    pub name: Option<String>,
    pub linkage_name: Option<String>,
    pub byte_size: Option<u64>,
    pub type_ref: Option<u64>,
    pub declaration: bool,
    pub artificial: bool,
    pub member_location: Option<u64>,
    pub const_value: Option<i64>,
    pub count: Option<u64>,
    pub upper_bound: Option<u64>,
    pub specification: Option<u64>,
    pub abstract_origin: Option<u64>,
    /// offsets of the direct children, in order
    pub children: Vec<u64>,
}

/// The entries of one compilation unit, in depth-first order.
#[derive(Clone, Debug)]
pub struct DieTable {
    pub dies: Vec<Die>,
}

impl DieTable {
    /// Index of the first entry at `offset`.
    #[verifier::opaque]
    pub open spec fn first_at(self, offset: u64) -> Option<int> {
        if exists|i: int| 0 <= i < self.dies@.len() && #[trigger] self.dies@[i].offset == offset {
            Some(
                choose|i: int|
                    #![trigger self.dies@[i]]
                    0 <= i < self.dies@.len() && self.dies@[i].offset == offset && forall|j: int|
                        0 <= j < i ==> #[trigger] self.dies@[j].offset != offset,
            )
        } else {
            None
        }
    }

    /// The first entry at `offset`, if any.
    pub open spec fn die_at(self, offset: u64) -> Option<Die> {
        match self.first_at(offset) {
            Some(i) => Some(self.dies@[i]),
            None => None,
        }
    }

    /// Index of the first entry at `offset`, if the unit has one.
    pub fn entry_at(&self, offset: u64) -> (r: Option<usize>)
        ensures
            match r {
                Some(i) => i < self.dies@.len() && self.dies@[i as int].offset == offset
                    && self.first_at(offset) == Some(i as int),
                None => self.first_at(offset) is None,
            },
    {
        reveal(DieTable::first_at);
        let mut i: usize = 0;
        while i < self.dies.len()
            invariant
                i <= self.dies@.len(),
                forall|j: int| 0 <= j < i ==> #[trigger] self.dies@[j].offset != offset,
            decreases self.dies@.len() - i,
        {
            if self.dies[i].offset == offset {
                proof {
                    reveal(DieTable::first_at);
                    let k = choose|k: int|
                        #![trigger self.dies@[k]]
                        0 <= k < self.dies@.len() && self.dies@[k].offset == offset && forall|j: int|
                            0 <= j < k ==> #[trigger] self.dies@[j].offset != offset;
                    assert(k == i as int) by {
                        if k < i {
                            assert(self.dies@[k].offset != offset);
                        } else if k > i {
                            assert(self.dies@[i as int].offset != offset);
                        }
                    }
                }
                return Some(i);
            }
            i = i + 1;
        }
        None
    }
}

/// The children of an entry, each looked up in the unit.
pub open spec fn child_dies(unit: DieTable, d: Die) -> Seq<Option<Die>> {
    d.children@.map_values(|o: u64| unit.die_at(o))
}

pub open spec fn is_tag(c: Option<Die>, tag: u16) -> bool {
    c is Some && c->Some_0.tag == tag
}

} // verus!
