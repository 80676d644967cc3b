use vstd::prelude::*;

use crate::error::BlockError;

verus! {

/// The mathematical content of a block: its coordinate space and its two
/// inclusive bounds.
pub struct BlockView {
    pub chrom: Seq<char>,
    pub start: u64,
    pub end: u64,
}

/// A genomic block: a contiguous stretch `start..=end` of one coordinate
/// space (chromosome or contig).
#[derive(Clone, Debug)]
pub struct Block {
    pub chrom: String,
    pub start: u64,
    pub end: u64,
}

impl View for Block {
    type V = BlockView;

    open spec fn view(&self) -> BlockView {
        BlockView { chrom: self.chrom@, start: self.start, end: self.end }
    }
}

impl Block {
    /// A block is well formed when its end lies after its start.
    pub open spec fn wf(&self) -> bool {
        self.start < self.end
    }

    /// Creates a block; one whose end does not lie after its start is refused.
    pub fn new(chrom: String, start: u64, end: u64) -> (r: Result<Block, BlockError>)
        ensures
            end <= start ==> r == Err::<Block, BlockError>(BlockError::DegenerateBlock),
            start < end ==> r == Ok::<Block, BlockError>(Block { chrom, start, end }),
    {
        if end <= start {
            Err(BlockError::DegenerateBlock)
        } else {
            Ok(Block { chrom, start, end })
        }
    }
}

/// A field-by-field copy of a block.
pub(crate) fn copy_block(b: &Block) -> (r: Block)
    ensures
        r == *b,
{
    Block { chrom: b.chrom.clone(), start: b.start, end: b.end }
}

/// The gap between two blocks. Blocks of different coordinate spaces have no
/// numeric gap: they are incomparable, and count as infinitely far apart.
#[derive(Clone, Copy, Debug, PartialEq, Eq, Structural)]
pub enum Distance {
    Finite(u64),
    Incomparable,
}

/// The distance from the end of `a` to the start of `b`; two blocks of one
/// space where `a` ends after `b` starts are out of order.
pub open spec fn distance_between(a: BlockView, b: BlockView) -> Result<Distance, BlockError> {
    if a.chrom != b.chrom {
        Ok(Distance::Incomparable)
    } else if a.end > b.start {
        Err(BlockError::InvariantViolation)
    } else {
        Ok(Distance::Finite((b.start - a.end) as u64))
    }
}

/// Whether `b` lies at least `d` past the end of `a`; blocks of different
/// spaces always do.
pub open spec fn far_enough(a: BlockView, b: BlockView, d: u64) -> bool {
    a.chrom != b.chrom || b.start - a.end >= d
}

/// Distance between the end of the first block and the start of the second.
pub fn block_distance(blocks: (Block, Block)) -> (r: Result<Distance, BlockError>)
    ensures
        r == distance_between(blocks.0@, blocks.1@),
{
    if blocks.0.chrom != blocks.1.chrom {
        Ok(Distance::Incomparable)
    } else if blocks.0.end > blocks.1.start {
        Err(BlockError::InvariantViolation)
    } else {
        Ok(Distance::Finite(blocks.1.start - blocks.0.end))
    }
}

/// Blocks of different coordinate spaces are incomparable, and therefore
/// satisfy every finite distance threshold.
pub proof fn lemma_cross_space_always_far(a: BlockView, b: BlockView, d: u64)
    requires
        a.chrom != b.chrom,
    ensures
        distance_between(a, b) == Ok::<Distance, BlockError>(Distance::Incomparable),
        far_enough(a, b, d),
{
}

} // verus!
