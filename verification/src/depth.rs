//! Bits per pixel of a tile, ordered from the shallowest to the deepest.

use core::cmp::Ordering;
use vstd::prelude::*;
use vstd::std_specs::cmp::PartialOrdSpecImpl;

verus! {

/// The three tile depths of the console.
#[derive(Debug, Clone, Copy, PartialEq, Eq, Structural, Ord, Hash)]
pub enum BitsPerPixel {
    Two,
    Four,
    Eight,
}

impl BitsPerPixel {
    /// Number of bit planes of a tile, which is the number of bits of a pixel.
    pub open spec fn bits(self) -> nat {
        match self {
            BitsPerPixel::Two => 2,
            BitsPerPixel::Four => 4,
            BitsPerPixel::Eight => 8,
        }
    }

    /// Number of bytes of one packed tile: one byte per row and plane.
    pub open spec fn tile_len(self) -> nat {
        8 * self.bits()
    }

    pub fn plane_count(self) -> (n: usize)
        ensures
            n == self.bits(),
    {
        match self {
            BitsPerPixel::Two => 2,
            BitsPerPixel::Four => 4,
            BitsPerPixel::Eight => 8,
        }
    }

    pub fn tile_size(self) -> (n: usize)
        ensures
            n == self.tile_len(),
    {
        match self {
            BitsPerPixel::Two => 16,
            BitsPerPixel::Four => 32,
            BitsPerPixel::Eight => 64,
        }
    }
}

impl PartialOrd for BitsPerPixel {
    fn partial_cmp(&self, other: &Self) -> (r: Option<Ordering>) {
        let a: usize = self.plane_count();
        let b: usize = other.plane_count();
        if a < b {
            Some(Ordering::Less)
        } else if a == b {
            Some(Ordering::Equal)
        } else {
            Some(Ordering::Greater)
        }
    }
}

impl PartialOrdSpecImpl for BitsPerPixel {
    open spec fn obeys_partial_cmp_spec() -> bool {
        true
    }

    open spec fn partial_cmp_spec(&self, other: &Self) -> Option<Ordering> {
        if self.bits() < other.bits() {
            Some(Ordering::Less)
        } else if self.bits() == other.bits() {
            Some(Ordering::Equal)
        } else {
            Some(Ordering::Greater)
        }
    }
}

} // verus!
