use vstd::prelude::*;

use crate::block::Block;
use crate::error::BlockError;

verus! {

/// A block length is usable when it is positive and fits the platform's
/// index width.
pub open spec fn valid_block_length(len: u64) -> bool {
    0 < len && len <= usize::MAX
}

/// Whether a block of `len` positions starting at `off` lies within a region
/// that ends at `end`: the offset lies before `end`, and the block's last
/// position `off + len - 1` does not pass `end`.
pub open spec fn block_fits(end: int, len: int, off: int) -> bool {
    off < end && off + len - 1 <= end
}

/// `starts` tiles the region `start..end` with blocks of `len` positions:
/// the k-th start is `start + k * len`, every block fits, and the block after
/// the last one would not.
pub open spec fn is_tiling(start: int, end: int, len: int, starts: Seq<u64>) -> bool {
    &&& forall|k: int| 0 <= k < starts.len() ==> #[trigger] starts[k] == start + k * len
    &&& forall|k: int| 0 <= k < starts.len() ==> block_fits(end, len, #[trigger] starts[k] as int)
    &&& !block_fits(end, len, start + starts.len() * len)
}

/// Rerunning the block generator on the same inputs gives the same starts:
/// there is only one tiling of a region by blocks of a given length.
pub proof fn lemma_blockstarts_deterministic(
    start: u64,
    end: u64,
    len: u64,
    a: Seq<u64>,
    b: Seq<u64>,
)
    requires
        valid_block_length(len),
        is_tiling(start as int, end as int, len as int, a),
        is_tiling(start as int, end as int, len as int, b),
    ensures
        a == b,
{
    if a.len() < b.len() {
        assert(b[a.len() as int] == start + a.len() * len);
    }
    if b.len() < a.len() {
        assert(a[b.len() as int] == start + b.len() * len);
    }
    assert(a =~= b);
}

/// The blocks of a tiling: the first starts at the region's start, each
/// next one starts `len` after the one before it, and none ends past the
/// region's end.
pub proof fn lemma_tiling_shape(start: u64, end: u64, len: u64, starts: Seq<u64>)
    requires
        valid_block_length(len),
        is_tiling(start as int, end as int, len as int, starts),
    ensures
        starts.len() > 0 ==> starts[0] == start,
        forall|k: int| 0 <= k < starts.len() - 1 ==> #[trigger] starts[k + 1] == starts[k] + len,
        forall|k: int| 0 <= k < starts.len() ==> #[trigger] starts[k] + len - 1 <= end,
{
    if starts.len() > 0 {
        assert(starts[0] == start + 0 * len);
        assert(0 * len == 0) by (nonlinear_arith);
    }
    assert forall|k: int| 0 <= k < starts.len() - 1 implies #[trigger] starts[k + 1] == starts[k]
        + len by {
        assert(starts[k] == start + k * len);
        assert(starts[k + 1] == start + (k + 1) * len);
        assert((k + 1) * len == k * len + len) by (nonlinear_arith);
    }
    assert forall|k: int| 0 <= k < starts.len() implies #[trigger] starts[k] + len - 1 <= end by {
        assert(block_fits(end as int, len as int, starts[k] as int));
    }
}

/// A genomic region, with the starts and ends of the blocks that tile it.
pub struct Region {
    pub chrom: String,
    pub start: u64,
    pub end: u64,
    pub blockstarts: Vec<u64>,
    pub blockends: Vec<u64>,
}

impl Region {
    /// Start offsets of the blocks of `blocklen` positions that tile
    /// `start..end` from its start, without a trailing partial block.
    pub fn get_blockstarts(start: u64, end: u64, blocklen: u64) -> (r: Result<Vec<u64>, BlockError>)
        ensures
            !valid_block_length(blocklen) ==> r == Err::<Vec<u64>, BlockError>(
                BlockError::InvalidBlockLength,
            ),
            valid_block_length(blocklen) ==> (r matches Ok(v) && is_tiling(
                start as int,
                end as int,
                blocklen as int,
                v@,
            )),
    {
        if blocklen == 0 || blocklen as u128 > usize::MAX as u128 {
            return Err(BlockError::InvalidBlockLength);
        }
        let mut starts: Vec<u64> = Vec::new();
        let mut cur: u64 = start;
        let mut fits: bool = cur < end && blocklen - 1 <= end - cur;
        assert(start + 0 * blocklen == start) by (nonlinear_arith);
        while fits
            invariant
                0 < blocklen,
                fits ==> cur as int == start + starts@.len() * blocklen,
                fits ==> block_fits(end as int, blocklen as int, cur as int),
                !fits ==> !block_fits(end as int, blocklen as int, start + starts@.len() * blocklen),
                forall|k: int|
                    0 <= k < starts@.len() ==> #[trigger] starts@[k] == start + k * blocklen,
                forall|k: int|
                    0 <= k < starts@.len() ==> block_fits(
                        end as int,
                        blocklen as int,
                        #[trigger] starts@[k] as int,
                    ),
            decreases
                if fits {
                    end - cur + 1
                } else {
                    0
                },
        {
            let ghost n = starts@.len();
            starts.push(cur);
            assert(start + (n + 1) * blocklen == start + n * blocklen + blocklen) by (nonlinear_arith);
            if end - cur < blocklen {
                fits = false;
            } else {
                cur = cur + blocklen;
                fits = cur < end && blocklen - 1 <= end - cur;
            }
        }
        Ok(starts)
    }

    /// Creates a region and the blocks that tile it. A block length that is
    /// not usable is refused first, as a configuration error; then an end
    /// that does not lie after the start, as a malformed region.
    pub fn new(chrom: String, start: u64, end: u64, blocklen: u64) -> (r: Result<Region, BlockError>)
        ensures
            !valid_block_length(blocklen) ==> r == Err::<Region, BlockError>(
                BlockError::InvalidBlockLength,
            ),
            valid_block_length(blocklen) && end <= start ==> r == Err::<Region, BlockError>(
                BlockError::MalformedRegion,
            ),
            valid_block_length(blocklen) && start < end ==> (r matches Ok(reg) && {
                &&& reg.chrom == chrom
                &&& reg.start == start
                &&& reg.end == end
                &&& is_tiling(start as int, end as int, blocklen as int, reg.blockstarts@)
                &&& reg.blockends@.len() == reg.blockstarts@.len()
                &&& forall|k: int|
                    0 <= k < reg.blockends@.len() ==> #[trigger] reg.blockends@[k]
                        == reg.blockstarts@[k] + blocklen - 1
            }),
    {
        let blockstarts = match Self::get_blockstarts(start, end, blocklen) {
            Ok(v) => v,
            Err(e) => return Err(e),
        };
        if end <= start {
            return Err(BlockError::MalformedRegion);
        }
        let mut blockends: Vec<u64> = Vec::new();
        let mut i: usize = 0;
        while i < blockstarts.len()
            invariant
                0 < blocklen,
                i <= blockstarts@.len(),
                blockends@.len() == i,
                forall|k: int|
                    0 <= k < blockstarts@.len() ==> block_fits(
                        end as int,
                        blocklen as int,
                        #[trigger] blockstarts@[k] as int,
                    ),
                forall|k: int|
                    0 <= k < i ==> #[trigger] blockends@[k] == blockstarts@[k] + blocklen - 1,
            decreases blockstarts@.len() - i,
        {
            assert(block_fits(end as int, blocklen as int, blockstarts@[i as int] as int));
            blockends.push(blockstarts[i] + (blocklen - 1));
            i = i + 1;
        }
        Ok(Region { chrom, start, end, blockstarts, blockends })
    }

    /// The region's blocks, pairing each start with the end at the same
    /// position. A pair whose end does not lie after its start is refused.
    pub fn to_blocks(self) -> (r: Result<Vec<Block>, BlockError>)
        ensures
            ({
                let n = if self.blockstarts@.len() <= self.blockends@.len() {
                    self.blockstarts@.len()
                } else {
                    self.blockends@.len()
                };
                &&& (exists|k: int| 0 <= k < n && self.blockends@[k] <= self.blockstarts@[k])
                    ==> r == Err::<Vec<Block>, BlockError>(BlockError::DegenerateBlock)
                &&& (forall|k: int| 0 <= k < n ==> self.blockstarts@[k] < self.blockends@[k])
                    ==> (r matches Ok(v) && v@.len() == n && forall|k: int|
                    0 <= k < n ==> #[trigger] v@[k] == (Block {
                        chrom: self.chrom,
                        start: self.blockstarts@[k],
                        end: self.blockends@[k],
                    }))
            }),
    {
        let n: usize = if self.blockstarts.len() <= self.blockends.len() {
            self.blockstarts.len()
        } else {
            self.blockends.len()
        };
        let mut blocks: Vec<Block> = Vec::new();
        let mut i: usize = 0;
        while i < n
            invariant
                n <= self.blockstarts@.len(),
                n <= self.blockends@.len(),
                i <= n,
                blocks@.len() == i,
                forall|k: int| 0 <= k < i ==> self.blockstarts@[k] < self.blockends@[k],
                forall|k: int|
                    0 <= k < i ==> #[trigger] blocks@[k] == (Block {
                        chrom: self.chrom,
                        start: self.blockstarts@[k],
                        end: self.blockends@[k],
                    }),
            decreases n - i,
        {
            match Block::new(self.chrom.clone(), self.blockstarts[i], self.blockends[i]) {
                Ok(b) => blocks.push(b),
                Err(e) => return Err(e),
            }
            i = i + 1;
        }
        Ok(blocks)
    }
}

} // verus!
