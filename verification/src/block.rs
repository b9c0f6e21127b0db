//! Blocks: the 8×8 squares of pixels that an image is cut into, and the
//! depth that each one needs.
//!
//! A block is a sequence of 64 palette indices, row by row, the top row
//! first and each row from left to right.

use crate::depth::BitsPerPixel;
use vstd::prelude::*;

verus! {

/// The block whose top-left pixel lies at column `8 * bx`, row `8 * by` of
/// an image of the given width, stored row by row in `pixels`.
pub open spec fn block_at(pixels: Seq<u8>, width: int, bx: int, by: int) -> Seq<u8> {
    Seq::new(64, |i: int| pixels[(8 * by + i / 8) * width + 8 * bx + i % 8])
}

/// The blocks of an image in raster order: the top row of blocks first,
/// each row from left to right.
pub open spec fn blocks_of(pixels: Seq<u8>, width: int, height: int) -> Seq<Seq<u8>> {
    Seq::new(
        ((width / 8) * (height / 8)) as nat,
        |n: int| block_at(pixels, width, n % (width / 8), n / (width / 8)),
    )
}

/// All pixels of the block lie in one run of `group` values that starts at
/// a multiple of `group`: they differ only in the bits below it.
pub open spec fn shares_group(block: Seq<u8>, group: int) -> bool {
    forall|i: int|
        0 <= i < block.len() ==> (#[trigger] block[i]) as int / group == block[0] as int / group
}

/// The least depth that keeps every pixel of the block apart, given the
/// bits that all of them share.
pub open spec fn block_depth(block: Seq<u8>) -> BitsPerPixel {
    if shares_group(block, 4) {
        BitsPerPixel::Two
    } else if shares_group(block, 16) {
        BitsPerPixel::Four
    } else {
        BitsPerPixel::Eight
    }
}

/// Every block of the sequence keeps within one run of `group` values.
pub open spec fn all_share_group(blocks: Seq<Seq<u8>>, group: int) -> bool {
    forall|n: int| 0 <= n < blocks.len() ==> shares_group(#[trigger] blocks[n], group)
}

/// The least depth that serves every block: the deepest that any one of
/// them needs, and `Two` where there is no block at all.
pub open spec fn required_depth(blocks: Seq<Seq<u8>>) -> BitsPerPixel {
    if all_share_group(blocks, 4) {
        BitsPerPixel::Two
    } else if all_share_group(blocks, 16) {
        BitsPerPixel::Four
    } else {
        BitsPerPixel::Eight
    }
}

/// The depth that one block needs, found from its least and greatest pixel.
pub fn depth_of_block(block: &[u8]) -> (depth: BitsPerPixel)
    requires
        block@.len() == 64,
    ensures
        depth == block_depth(block@),
{
    let mut min_index: u8 = 255;
    let mut max_index: u8 = 0;
    for i in 0..64usize
        invariant
            block@.len() == 64,
            forall|j: int| 0 <= j < i ==> min_index <= #[trigger] block@[j] <= max_index,
            i > 0 ==> exists|j: int| 0 <= j < i && block@[j] == min_index,
            i > 0 ==> exists|j: int| 0 <= j < i && block@[j] == max_index,
            i == 0 ==> min_index == 255 && max_index == 0,
    {
        let pixel: u8 = block[i];
        if pixel > max_index {
            max_index = pixel;
        }
        if pixel < min_index {
            min_index = pixel;
        }
    }
    let ghost lo: int = choose|j: int| 0 <= j < 64 && block@[j] == min_index;
    let ghost hi: int = choose|j: int| 0 <= j < 64 && block@[j] == max_index;
    assert((max_index & !3u8) == (min_index & !3u8) <==> max_index / 4 == min_index / 4)
        by (bit_vector);
    assert((max_index & !15u8) == (min_index & !15u8) <==> max_index / 16 == min_index / 16)
        by (bit_vector);
    proof {
        let first = block@[0];
        assert(min_index <= first <= max_index);
        if max_index / 4 == min_index / 4 {
            assert(shares_group(block@, 4));
        } else {
            assert(block@[lo] as int / 4 != block@[hi] as int / 4);
        }
        if max_index / 16 == min_index / 16 {
            assert(shares_group(block@, 16));
        } else {
            assert(block@[lo] as int / 16 != block@[hi] as int / 16);
        }
    }
    if (max_index & !3) == (min_index & !3) {
        BitsPerPixel::Two
    } else if (max_index & !15) == (min_index & !15) {
        BitsPerPixel::Four
    } else {
        BitsPerPixel::Eight
    }
}

/// The palette that a block is drawn with at the given depth: what the
/// top-left pixel holds above the bits that the depth keeps. At eight bits
/// per pixel there is one palette, number 0.
pub open spec fn palette_select(block: Seq<u8>, depth: BitsPerPixel) -> u8 {
    match depth {
        BitsPerPixel::Two => block[0] / 4,
        BitsPerPixel::Four => block[0] / 16,
        BitsPerPixel::Eight => 0,
    }
}

/// The palette number of a block at the given depth.
pub fn select_palette(block: &[u8], depth: BitsPerPixel) -> (palette: u8)
    requires
        block@.len() == 64,
    ensures
        palette == palette_select(block@, depth),
{
    let first: u8 = block[0];
    assert(first >> 2 == first / 4 && first >> 4 == first / 16) by (bit_vector);
    match depth {
        BitsPerPixel::Two => first >> 2,
        BitsPerPixel::Four => first >> 4,
        BitsPerPixel::Eight => 0,
    }
}

/// The depth keeps the pixels of the block apart: with a palette of 4 or
/// 16 colours, all pixels lie in one run of that many values; with 256
/// colours there is nothing to ask.
pub open spec fn serves(depth: BitsPerPixel, block: Seq<u8>) -> bool {
    match depth {
        BitsPerPixel::Two => shares_group(block, 4),
        BitsPerPixel::Four => shares_group(block, 16),
        BitsPerPixel::Eight => true,
    }
}

/// The first pixel value of a palette: what the pixels of a tile drawn
/// with that palette are counted from.
pub open spec fn palette_start(palette: u8, depth: BitsPerPixel) -> int {
    match depth {
        BitsPerPixel::Two => 4 * palette,
        BitsPerPixel::Four => 16 * palette,
        BitsPerPixel::Eight => 0,
    }
}

/// A depth serves a block exactly when it is at least the depth that the
/// block needs.
pub proof fn lemma_depth_serves_block(block: Seq<u8>, depth: BitsPerPixel)
    ensures
        serves(depth, block) <==> block_depth(block).bits() <= depth.bits(),
{
    if shares_group(block, 4) {
        lemma_narrow_group_is_wide(block);
    }
}

/// A depth serves every block of an image exactly when it is at least the
/// depth that the image needs.
pub proof fn lemma_depth_serves_blocks(blocks: Seq<Seq<u8>>, depth: BitsPerPixel)
    ensures
        (forall|n: int| 0 <= n < blocks.len() ==> serves(depth, #[trigger] blocks[n]))
            <==> required_depth(blocks).bits() <= depth.bits(),
{
    lemma_required_depth_is_greatest(blocks);
    if required_depth(blocks).bits() <= depth.bits() {
        assert forall|n: int| 0 <= n < blocks.len() implies serves(depth, #[trigger] blocks[n]) by {
            lemma_depth_serves_block(blocks[n], depth);
        }
    } else {
        let n = choose|n: int|
            0 <= n < blocks.len() && block_depth(#[trigger] blocks[n]) == required_depth(blocks);
        lemma_depth_serves_block(blocks[n], depth);
    }
}

/// The deeper of two depths.
pub open spec fn deeper(a: BitsPerPixel, b: BitsPerPixel) -> BitsPerPixel {
    if a.bits() < b.bits() {
        b
    } else {
        a
    }
}

/// A block that keeps within a run of 4 values keeps within one of 16.
pub proof fn lemma_narrow_group_is_wide(block: Seq<u8>)
    requires
        shares_group(block, 4),
    ensures
        shares_group(block, 16),
{
    assert forall|i: int| 0 <= i < block.len() implies (#[trigger] block[i]) as int / 16
        == block[0] as int / 16 by {
        assert(block[i] as int / 4 == block[0] as int / 4);
    }
}

/// One more block raises the depth that is needed to the depth of that
/// block, where that is deeper, and leaves it else.
pub proof fn lemma_required_depth_push(blocks: Seq<Seq<u8>>, block: Seq<u8>)
    ensures
        required_depth(blocks.push(block)) == deeper(required_depth(blocks), block_depth(block)),
{
    let longer = blocks.push(block);
    assert forall|group: int| group == 4 || group == 16 implies (#[trigger] all_share_group(
        longer,
        group,
    ) <==> all_share_group(blocks, group) && shares_group(block, group)) by {
        if all_share_group(longer, group) {
            assert(longer[blocks.len() as int] == block);
            assert forall|n: int| 0 <= n < blocks.len() implies shares_group(
                #[trigger] blocks[n],
                group,
            ) by {
                assert(longer[n] == blocks[n]);
            }
        }
        if all_share_group(blocks, group) && shares_group(block, group) {
            assert forall|n: int| 0 <= n < longer.len() implies shares_group(
                #[trigger] longer[n],
                group,
            ) by {
                if n < blocks.len() {
                    assert(longer[n] == blocks[n]);
                }
            }
        }
    }
    if all_share_group(blocks, 4) {
        assert forall|n: int| 0 <= n < blocks.len() implies shares_group(
            #[trigger] blocks[n],
            16,
        ) by {
            lemma_narrow_group_is_wide(blocks[n]);
        }
    }
    if shares_group(block, 4) {
        lemma_narrow_group_is_wide(block);
    }
}

/// The depth that is needed is at least the depth of every block, and
/// where it is more than two bits, some block needs exactly that depth.
pub proof fn lemma_required_depth_is_greatest(blocks: Seq<Seq<u8>>)
    ensures
        forall|n: int|
            0 <= n < blocks.len() ==> block_depth(#[trigger] blocks[n]).bits() <= required_depth(
                blocks,
            ).bits(),
        required_depth(blocks) != BitsPerPixel::Two ==> exists|n: int|
            0 <= n < blocks.len() && block_depth(#[trigger] blocks[n]) == required_depth(blocks),
{
    let needed = required_depth(blocks);
    assert forall|n: int| 0 <= n < blocks.len() implies block_depth(#[trigger] blocks[n]).bits()
        <= needed.bits() by {
        if all_share_group(blocks, 4) {
            assert(shares_group(blocks[n], 4));
        } else if all_share_group(blocks, 16) {
            assert(shares_group(blocks[n], 16));
        }
    }
    if needed == BitsPerPixel::Four {
        let n = choose|n: int| 0 <= n < blocks.len() && !shares_group(#[trigger] blocks[n], 4);
        assert(shares_group(blocks[n], 16));
        assert(block_depth(blocks[n]) == needed);
    }
    if needed == BitsPerPixel::Eight {
        let n = choose|n: int| 0 <= n < blocks.len() && !shares_group(#[trigger] blocks[n], 16);
        if shares_group(blocks[n], 4) {
            lemma_narrow_group_is_wide(blocks[n]);
        }
        assert(block_depth(blocks[n]) == needed);
    }
}

/// Where every pixel of every block shares its six high bits with the
/// other pixels of its block, two bits per pixel are enough.
pub proof fn lemma_narrow_blocks_need_two_bits(blocks: Seq<Seq<u8>>)
    requires
        forall|n: int, i: int, j: int|
            0 <= n < blocks.len() && 0 <= i < blocks[n].len() && 0 <= j < blocks[n].len()
                ==> (#[trigger] blocks[n][i]) as int / 4 == (#[trigger] blocks[n][j]) as int / 4,
    ensures
        required_depth(blocks) == BitsPerPixel::Two,
{
    assert forall|n: int| 0 <= n < blocks.len() implies shares_group(#[trigger] blocks[n], 4) by {
        let block = blocks[n];
        assert forall|i: int| 0 <= i < block.len() implies (#[trigger] block[i]) as int / 4
            == block[0] as int / 4 by {
            assert(blocks[n][i] as int / 4 == blocks[n][0] as int / 4);
        }
    }
}

} // verus!
