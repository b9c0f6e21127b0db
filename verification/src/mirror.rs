//! Mirroring of a block: the four ways in which the console can draw one
//! stored tile.

use vstd::prelude::*;

verus! {

/// How a tile is turned over when it is drawn. The order of the variants is
/// the order in which a new block is held against the known tiles.
#[derive(Debug, Clone, Copy, PartialEq, Eq, Structural, Hash)]
pub enum Mirror {
    /// Drawn as stored.
    Plain,
    /// Left and right exchanged.
    Horizontal,
    /// Top and bottom exchanged.
    Vertical,
    /// Both exchanged: turned by half a circle.
    Both,
}

impl Mirror {
    /// The two flag bits of a tilemap entry: bit 0 for horizontal, bit 1
    /// for vertical.
    pub open spec fn code(self) -> int {
        match self {
            Mirror::Plain => 0,
            Mirror::Horizontal => 1,
            Mirror::Vertical => 2,
            Mirror::Both => 3,
        }
    }

    /// The mirroring with the given flag bits.
    pub open spec fn of_code(code: int) -> Mirror {
        if code == 0 {
            Mirror::Plain
        } else if code == 1 {
            Mirror::Horizontal
        } else if code == 2 {
            Mirror::Vertical
        } else {
            Mirror::Both
        }
    }

    /// Columns are exchanged: column `x` shows what column `7 - x` holds.
    pub open spec fn flips_columns(self) -> bool {
        self == Mirror::Horizontal || self == Mirror::Both
    }

    /// Rows are exchanged: row `y` shows what row `7 - y` holds.
    pub open spec fn flips_rows(self) -> bool {
        self == Mirror::Vertical || self == Mirror::Both
    }

    /// The mirroring that does what `self` and `other` do one after the
    /// other, in either order.
    pub open spec fn combined(self, other: Mirror) -> Mirror {
        Mirror::of_code(
            (if self.flips_columns() != other.flips_columns() {
                1int
            } else {
                0int
            }) + (if self.flips_rows() != other.flips_rows() {
                2int
            } else {
                0int
            }),
        )
    }

    pub fn bits(self) -> (code: u8)
        ensures
            code == self.code(),
    {
        match self {
            Mirror::Plain => 0,
            Mirror::Horizontal => 1,
            Mirror::Vertical => 2,
            Mirror::Both => 3,
        }
    }

    /// What a column number is combined with by exclusive or: 7 where
    /// columns are exchanged, else 0.
    pub fn column_mask(self) -> (mask: usize)
        ensures
            mask == (if self.flips_columns() {
                7int
            } else {
                0int
            }),
    {
        match self {
            Mirror::Horizontal | Mirror::Both => 7,
            _ => 0,
        }
    }

    /// What a row number is combined with by exclusive or: 7 where rows are
    /// exchanged, else 0.
    pub fn row_mask(self) -> (mask: usize)
        ensures
            mask == (if self.flips_rows() {
                7int
            } else {
                0int
            }),
    {
        match self {
            Mirror::Vertical | Mirror::Both => 7,
            _ => 0,
        }
    }
}

/// Where pixel `i` of a mirrored block comes from in the block itself.
pub open spec fn source_pixel(i: int, mirror: Mirror) -> int {
    8 * (if mirror.flips_rows() {
        7 - i / 8
    } else {
        i / 8
    }) + (if mirror.flips_columns() {
        7 - i % 8
    } else {
        i % 8
    })
}

/// The block as it looks under the given mirroring.
pub open spec fn mirrored(block: Seq<u8>, mirror: Mirror) -> Seq<u8> {
    Seq::new(64, |i: int| block[source_pixel(i, mirror)])
}

/// Drawn plain, a block is itself.
pub proof fn lemma_mirrored_plain(block: Seq<u8>)
    requires
        block.len() == 64,
    ensures
        mirrored(block, Mirror::Plain) == block,
{
    assert(mirrored(block, Mirror::Plain) =~= block);
}

/// Two mirrorings one after the other are one mirroring: the one that
/// exchanges what exactly one of the two exchanges.
pub proof fn lemma_mirrored_twice(block: Seq<u8>, first: Mirror, second: Mirror)
    requires
        block.len() == 64,
    ensures
        mirrored(mirrored(block, first), second) == mirrored(block, first.combined(second)),
{
    let both = first.combined(second);
    assert forall|i: int| 0 <= i < 64 implies mirrored(mirrored(block, first), second)[i]
        == mirrored(block, both)[i] by {
        let j = source_pixel(i, second);
        assert(0 <= j < 64);
        assert(source_pixel(j, first) == source_pixel(i, both));
    }
    assert(mirrored(mirrored(block, first), second) =~= mirrored(block, both));
}

/// Any mirroring done twice gives the block back.
pub proof fn lemma_mirrored_back(block: Seq<u8>, mirror: Mirror)
    requires
        block.len() == 64,
    ensures
        mirrored(mirrored(block, mirror), mirror) == block,
{
    lemma_mirrored_twice(block, mirror, mirror);
    lemma_mirrored_plain(block);
}

/// A mirroring done twice cancels: what stays of three mirrorings of
/// which two are the same is the third.
pub proof fn lemma_combined_cancels(done: Mirror, other: Mirror)
    ensures
        done.combined(done.combined(other)) == other,
        done.combined(done) == Mirror::Plain,
        Mirror::Plain.combined(other) == other,
        other.combined(Mirror::Plain) == other,
        done.combined(other) == other.combined(done),
{
}

} // verus!
