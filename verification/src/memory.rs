//! Regions of memory, as the sections of an object file lay them out.

use crate::text::{hex_address, hex_address_text};
use vstd::prelude::*;

verus! {

/// A named range of addresses: `size` bytes from `start`.
#[derive(Debug)]
pub struct MemoryRegion {
    pub name: String,
    pub start: u64,
    pub size: u64,
    pub align: u64,
}

/// A region as a mathematical value.
pub struct RegionModel {
    pub name: Seq<char>,
    pub start: u64,
    pub size: u64,
    pub align: u64,
}

impl View for MemoryRegion {
    type V = RegionModel;

    open spec fn view(&self) -> RegionModel {
        RegionModel { name: self.name@, start: self.start, size: self.size, align: self.align }
    }
}

/// The part of a region between `low` and `high`: from the larger of the
/// region's start and `low` up to, not including, the smaller of its end and
/// `high`; `None` where nothing is left.
pub open spec fn clipped(r: RegionModel, low: u64, high: u64) -> Option<RegionModel> {
    let start = if r.start >= low {
        r.start as int
    } else {
        low as int
    };
    let end = if r.start + r.size <= high {
        r.start + r.size
    } else {
        high as int
    };
    if start < end {
        Some(RegionModel { name: r.name, start: start as u64, size: (end - start) as u64, align: r.align })
    } else {
        None
    }
}

/// A region as it is reported: its name, and its start, size and alignment
/// as `0x` and digits of base sixteen.
#[derive(Debug)]
pub struct RegionReport {
    pub name: String,
    pub start: String,
    pub size: String,
    pub align: String,
}

impl MemoryRegion {
    /// The region as it is reported.
    pub fn to_json(&self) -> (r: RegionReport)
        ensures
            r.name@ == self.name@,
            r.start@ == hex_address(self.start),
            r.size@ == hex_address(self.size),
            r.align@ == hex_address(self.align),
    {
        RegionReport {
            name: self.name.clone(),
            start: hex_address_text(self.start),
            size: hex_address_text(self.size),
            align: hex_address_text(self.align),
        }
    }

    /// A region.
    pub fn new(name: String, start: u64, size: u64, align: u64) -> (r: Self)
        ensures
            r@ == (RegionModel { name: name@, start, size, align }),
    {
        MemoryRegion { name, start, size, align }
    }

    /// Whether the region holds `addr`.
    pub fn contains(&self, addr: u64) -> (r: bool)
        ensures
            r == (self.start <= addr < self.start + self.size),
    {
        addr >= self.start && addr - self.start < self.size
    }

    /// The first address behind the region.
    pub fn end(&self) -> (r: u64)
        requires
            self.start + self.size <= u64::MAX,
        ensures
            r == self.start + self.size,
    {
        self.start + self.size
    }

    /// The first address behind the region, or `None` where that is more
    /// than an address can hold.
    pub fn checked_end(&self) -> (r: Option<u64>)
        ensures
            r == if self.start + self.size <= u64::MAX {
                Some((self.start + self.size) as u64)
            } else {
                None
            },
    {
        self.start.checked_add(self.size)
    }

    /// The part of the region between `low_addr` and `high_addr`.
    pub fn clip_region(&self, low_addr: u64, high_addr: u64) -> (r: Option<MemoryRegion>)
        ensures
            match r {
                Some(c) => clipped(self@, low_addr, high_addr) == Some(c@),
                None => clipped(self@, low_addr, high_addr) is None,
            },
    {
        let new_start: u64 = if self.start >= low_addr {
            self.start
        } else {
            low_addr
        };
        let new_end: u64 = match self.start.checked_add(self.size) {
            Some(end) => if end <= high_addr {
                end
            } else {
                high_addr
            },
            None => high_addr,
        };
        if new_start < new_end {
            Some(MemoryRegion::new(self.name.clone(), new_start, new_end - new_start, self.align))
        } else {
            None
        }
    }
}

} // verus!
