//! Page-table entry and table descriptions: the bit tests on an entry's
//! raw value and the address arithmetic that walks to the next level.
//! Reading the table that an entry points to is a physical-memory access
//! and stays outside this library; callers get the next level's physical
//! address instead.

use vstd::prelude::*;

use core::marker::PhantomData;

verus! {

pub const PAGE_SIZE: usize = 4096;

/// The low twelve bits of an entry hold its attributes; the rest of the
/// value is the physical address of the next level.
pub const ATTR_MASK: u64 = 0xFFF;

/// Attribute sets for mapping a page: not present, an ordinary writable
/// kernel mapping, or a writable uncached mapping for device memory.
#[derive(Debug, Clone, Copy)]
pub enum PageAttr {
    NotPresent,
    ReadWriteKernel,
    ReadWriteIo,
}

impl PageAttr {
    pub open spec fn spec_bits(&self) -> u64 {
        match self {
            PageAttr::NotPresent => 0,
            // present | writable
            PageAttr::ReadWriteKernel => 0x3,
            // present | writable | write-through | cache-disable
            PageAttr::ReadWriteIo => 0x1B,
        }
    }

    pub fn bits(&self) -> (r: u64)
        ensures
            r == self.spec_bits(),
    {
        match self {
            PageAttr::NotPresent => 0,
            PageAttr::ReadWriteKernel => 0x3,
            PageAttr::ReadWriteIo => 0x1B,
        }
    }
}

/// How a virtual address turned out to be mapped: by a page of one of the
/// three supported sizes, with the physical address it maps to.
#[derive(Debug, PartialEq, Eq, Structural)]
pub enum TranslationResult {
    PageMapped4K { phys: u64 },
    PageMapped2M { phys: u64 },
    PageMapped1G { phys: u64 },
}

/// One entry of a page table at level `LEVEL`, whose address bits shift by
/// `SHIFT`; `NEXT` is the type the entry points to.
pub struct Entry<const LEVEL: usize, const SHIFT: usize, NEXT> {
    value: u64,
    next_type: PhantomData<NEXT>,
}

impl<const LEVEL: usize, const SHIFT: usize, NEXT> Entry<LEVEL, SHIFT, NEXT> {
    pub closed spec fn spec_value(&self) -> u64 {
        self.value
    }

    pub fn new(value: u64) -> (r: Self)
        ensures
            r.spec_value() == value,
    {
        Entry { value, next_type: PhantomData }
    }

    pub fn read_value(&self) -> (r: u64)
        ensures
            r == self.spec_value(),
    {
        self.value
    }

    pub open spec fn spec_is_present(&self) -> bool {
        self.spec_value() & 1 != 0
    }

    pub fn is_present(&self) -> (r: bool)
        ensures
            r == self.spec_is_present(),
    {
        (self.read_value() & 1) != 0
    }

    pub open spec fn spec_is_writable(&self) -> bool {
        self.spec_value() & 2 != 0
    }

    pub fn is_writable(&self) -> (r: bool)
        ensures
            r == self.spec_is_writable(),
    {
        (self.read_value() & 2) != 0
    }

    pub open spec fn spec_is_user(&self) -> bool {
        self.spec_value() & 4 != 0
    }

    pub fn is_user(&self) -> (r: bool)
        ensures
            r == self.spec_is_user(),
    {
        (self.read_value() & 4) != 0
    }

    /// The physical address of the table this entry points to, if present:
    /// the entry's value with its attribute bits cleared.
    pub fn table_addr(&self) -> (r: Option<u64>)
        ensures
            r == (if self.spec_is_present() {
                Some(self.spec_value() & !ATTR_MASK)
            } else {
                None::<u64>
            }),
    {
        if self.is_present() {
            Some(self.read_value() & !ATTR_MASK)
        } else {
            None
        }
    }
}

/// A page table: 512 entries of one level.
pub struct Table<const LEVEL: usize, const SHIFT: usize, NEXT> {
    entry: [Entry<LEVEL, SHIFT, NEXT>; 512],
}

impl<const LEVEL: usize, const SHIFT: usize, NEXT> Table<LEVEL, SHIFT, NEXT> {
    pub closed spec fn entries(&self) -> Seq<Entry<LEVEL, SHIFT, NEXT>> {
        self.entry@
    }

    pub fn new(entries: [Entry<LEVEL, SHIFT, NEXT>; 512]) -> (r: Self)
        ensures
            r.entries() == entries@,
    {
        Table { entry: entries }
    }

    /// The entry under `index`, if the index is valid.
    pub fn get(&self, index: usize) -> (r: Option<&Entry<LEVEL, SHIFT, NEXT>>)
        ensures
            r matches Some(e) ==> index < 512 && *e == self.entries()[index as int],
            r is None <==> index >= 512,
    {
        if index < 512 {
            Some(&self.entry[index])
        } else {
            None
        }
    }

    /// The physical address of the next-level table under `index`, if the
    /// index is valid and its entry is present.
    pub fn next_level(&self, index: usize) -> (r: Option<u64>)
        ensures
            r == (if index < 512 && self.entries()[index as int].spec_is_present() {
                Some(self.entries()[index as int].spec_value() & !ATTR_MASK)
            } else {
                None::<u64>
            }),
    {
        if index < 512 {
            self.entry[index].table_addr()
        } else {
            None
        }
    }
}

pub type PT = Table<1, 12, [u8; PAGE_SIZE]>;

pub type PD = Table<2, 21, PT>;

pub type PDPT = Table<3, 30, PD>;

pub type PML4 = Table<4, 39, PDPT>;

} // verus!
