use vstd::prelude::*;

use crate::block::{block_distance, copy_block, distance_between, far_enough, Block, BlockView, Distance};
use crate::error::BlockError;

verus! {

/// The views of a sequence of blocks.
pub open spec fn views(s: Seq<Block>) -> Seq<BlockView> {
    s.map_values(|b: Block| b@)
}

/// Indices that the greedy sweep keeps, given the current anchor `a` and the
/// next candidate `i`: a candidate far enough from the anchor closes the
/// anchor and becomes the new one; a candidate too close is skipped; the last
/// anchor is kept when the candidates run out.
pub open spec fn picks(s: Seq<BlockView>, d: u64, a: int, i: int) -> Seq<int>
    decreases s.len() - i,
{
    if i >= s.len() {
        seq![a]
    } else if far_enough(s[a], s[i], d) {
        seq![a] + picks(s, d, i, i + 1)
    } else {
        picks(s, d, a, i + 1)
    }
}

/// The blocks that the filter keeps from `s` with threshold `d`.
pub open spec fn filtered(s: Seq<BlockView>, d: u64) -> Seq<BlockView> {
    if s.len() == 0 {
        Seq::empty()
    } else {
        picks(s, d, 0, 1).map_values(|k: int| s[k])
    }
}

/// Within each coordinate space, blocks come in strictly increasing start
/// order, and each ends no later than any later block of its space starts.
pub open spec fn ordered(s: Seq<BlockView>) -> bool {
    forall|i: int, j: int|
        0 <= i < j < s.len() && (#[trigger] s[i]).chrom == (#[trigger] s[j]).chrom ==> s[i].start
            < s[j].start && s[i].end <= s[j].start
}

/// Whether the blocks of `s` before position `j` are ordered within each
/// space.
spec fn ordered_before(s: Seq<BlockView>, j: int) -> bool {
    forall|i: int, k: int|
        0 <= i < k < j && (#[trigger] s[i]).chrom == (#[trigger] s[k]).chrom ==> s[i].start
            < s[k].start && s[i].end <= s[k].start
}

/// `lasts` holds, for each space met before position `j`, the position of
/// its last block there.
spec fn last_of_each_space(s: Seq<BlockView>, j: int, lasts: Seq<usize>) -> bool {
    &&& forall|t: int| 0 <= t < lasts.len() ==> #[trigger] lasts[t] < j
    &&& forall|t: int, k: int|
        #![trigger lasts[t], s[k]]
        0 <= t < lasts.len() && lasts[t] < k < j ==> s[k].chrom != s[lasts[t] as int].chrom
    &&& forall|t: int, u: int|
        0 <= t < u < lasts.len() ==> s[#[trigger] lasts[t] as int].chrom != s[
            #[trigger] lasts[u] as int].chrom
    &&& forall|i: int|
        0 <= i < j ==> exists|t: int|
            0 <= t < lasts.len() && s[#[trigger] lasts[t] as int].chrom == (#[trigger] s[i]).chrom
}

/// Whether the blocks are ordered within each space: each block is compared
/// with the last earlier block of its own space.
fn is_ordered(blocks: &Vec<Block>) -> (r: bool)
    ensures
        r == ordered(views(blocks@)),
{
    let ghost s = views(blocks@);
    let mut lasts: Vec<usize> = Vec::new();
    let mut j: usize = 0;
    while j < blocks.len()
        invariant
            s == views(blocks@),
            s.len() == blocks@.len(),
            j <= s.len(),
            ordered_before(s, j as int),
            last_of_each_space(s, j as int, lasts@),
        decreases s.len() - j,
    {
        assert(s[j as int] == blocks@[j as int]@);
        let mut t: usize = 0;
        let mut found: bool = false;
        while t < lasts.len() && !found
            invariant
                s == views(blocks@),
                s.len() == blocks@.len(),
                j < s.len(),
                last_of_each_space(s, j as int, lasts@),
                t <= lasts@.len(),
                found ==> 0 < t && s[lasts@[t - 1] as int].chrom == s[j as int].chrom,
                forall|u: int|
                    0 <= u < t && !(found && u == t - 1) ==> s[#[trigger] lasts@[u] as int].chrom
                        != s[j as int].chrom,
            decreases lasts@.len() - t,
        {
            let l = lasts[t];
            assert(s[l as int] == blocks@[l as int]@);
            if blocks[l].chrom == blocks[j].chrom {
                found = true;
            }
            t = t + 1;
        }
        if found {
            let ti = t - 1;
            let l = lasts[ti];
            assert(s[l as int] == blocks@[l as int]@);
            if !(blocks[l].start < blocks[j].start && blocks[l].end <= blocks[j].start) {
                assert(!ordered(s)) by {
                    assert(l < j);
                    assert(s[l as int].chrom == s[j as int].chrom);
                }
                return false;
            }
            proof {
                let li = l as int;
                assert forall|i: int, k: int|
                    0 <= i < k < j + 1 && (#[trigger] s[i]).chrom == (#[trigger] s[k]).chrom
                        implies s[i].start < s[k].start && s[i].end <= s[k].start by {
                    if k == j as int && i != li {
                        assert(i < li) by {
                            if i > li {
                                assert(s[i].chrom != s[lasts@[ti as int] as int].chrom);
                            }
                        }
                        assert(s[i].start < s[li].start && s[i].end <= s[li].start);
                    }
                }
            }
            let ghost old_lasts = lasts@;
            lasts.set(ti, j);
            proof {
                let ji = j as int;
                assert forall|u: int, k: int|
                    #![trigger lasts@[u], s[k]]
                    0 <= u < lasts@.len() && lasts@[u] < k < ji + 1 implies s[k].chrom
                        != s[lasts@[u] as int].chrom by {
                    if u != ti as int {
                        assert(old_lasts[u] == lasts@[u]);
                        if k == ji {
                            assert(s[old_lasts[u] as int].chrom != s[old_lasts[ti as int] as int].chrom);
                        }
                    }
                }
                assert forall|u: int, v: int|
                    0 <= u < v < lasts@.len() implies s[#[trigger] lasts@[u] as int].chrom != s[
                    #[trigger] lasts@[v] as int].chrom by {
                    assert(s[old_lasts[u] as int].chrom != s[old_lasts[v] as int].chrom);
                }
                assert forall|i: int| 0 <= i < ji + 1 implies exists|w: int|
                    0 <= w < lasts@.len() && s[#[trigger] lasts@[w] as int].chrom == (
                    #[trigger] s[i]).chrom by {
                    if i == ji {
                        assert(s[lasts@[ti as int] as int].chrom == s[i].chrom);
                    } else {
                        let w = choose|w: int|
                            0 <= w < old_lasts.len() && s[#[trigger] old_lasts[w] as int].chrom
                                == s[i].chrom;
                        if w == ti as int {
                            assert(s[lasts@[ti as int] as int].chrom == s[i].chrom);
                        } else {
                            assert(s[lasts@[w] as int].chrom == s[i].chrom);
                        }
                    }
                }
            }
        } else {
            proof {
                let ji = j as int;
                assert forall|i: int, k: int|
                    0 <= i < k < ji + 1 && (#[trigger] s[i]).chrom == (#[trigger] s[k]).chrom
                        implies s[i].start < s[k].start && s[i].end <= s[k].start by {
                    if k == ji {
                        let w = choose|w: int|
                            0 <= w < lasts@.len() && s[#[trigger] lasts@[w] as int].chrom
                                == s[i].chrom;
                        assert(s[lasts@[w] as int].chrom != s[ji].chrom);
                    }
                }
            }
            let ghost old_lasts = lasts@;
            lasts.push(j);
            proof {
                let ji = j as int;
                let n = old_lasts.len() as int;
                assert(lasts@[n] == j);
                assert forall|u: int, k: int|
                    #![trigger lasts@[u], s[k]]
                    0 <= u < lasts@.len() && lasts@[u] < k < ji + 1 implies s[k].chrom
                        != s[lasts@[u] as int].chrom by {
                    if u < n {
                        assert(old_lasts[u] == lasts@[u]);
                    }
                }
                assert forall|u: int, v: int|
                    0 <= u < v < lasts@.len() implies s[#[trigger] lasts@[u] as int].chrom != s[
                    #[trigger] lasts@[v] as int].chrom by {
                    assert(old_lasts[u] == lasts@[u]);
                    if v < n {
                        assert(old_lasts[v] == lasts@[v]);
                    }
                }
                assert forall|i: int| 0 <= i < ji + 1 implies exists|w: int|
                    0 <= w < lasts@.len() && s[#[trigger] lasts@[w] as int].chrom == (
                    #[trigger] s[i]).chrom by {
                    if i == ji {
                        assert(s[lasts@[n] as int].chrom == s[i].chrom);
                    } else {
                        let w = choose|w: int|
                            0 <= w < old_lasts.len() && s[#[trigger] old_lasts[w] as int].chrom
                                == s[i].chrom;
                        assert(s[lasts@[w] as int].chrom == s[i].chrom);
                    }
                }
            }
        }
        j = j + 1;
    }
    true
}

/// All blocks lie in one coordinate space.
pub open spec fn one_space(s: Seq<BlockView>) -> bool {
    forall|i: int, j: int| 0 <= i < s.len() && 0 <= j < s.len() ==> (#[trigger] s[i]).chrom == (
    #[trigger] s[j]).chrom
}

/// Every block ends after it starts.
pub open spec fn all_wf(s: Seq<BlockView>) -> bool {
    forall|i: int| 0 <= i < s.len() ==> (#[trigger] s[i]).start < s[i].end
}

/// `o` picks blocks of `s` in increasing order, each far enough from the one
/// before it.
pub open spec fn is_spaced_selection(s: Seq<BlockView>, d: u64, o: Seq<int>) -> bool {
    &&& forall|k: int| 0 <= k < o.len() ==> 0 <= #[trigger] o[k] < s.len()
    &&& forall|k: int| 0 <= k < o.len() - 1 ==> #[trigger] o[k] < o[k + 1]
    &&& forall|k: int| 0 <= k < o.len() - 1 ==> far_enough(s[#[trigger] o[k]], s[o[k + 1]], d)
}

proof fn lemma_picks_spaced(s: Seq<BlockView>, d: u64, a: int, i: int)
    requires
        0 <= a < i <= s.len(),
    ensures
        picks(s, d, a, i).len() >= 1,
        picks(s, d, a, i)[0] == a,
        forall|k: int| 1 <= k < picks(s, d, a, i).len() ==> #[trigger] picks(s, d, a, i)[k] >= i,
        is_spaced_selection(s, d, picks(s, d, a, i)),
    decreases s.len() - i,
{
    if i < s.len() {
        if far_enough(s[a], s[i], d) {
            lemma_picks_spaced(s, d, i, i + 1);
            let rest = picks(s, d, i, i + 1);
            let p = seq![a] + rest;
            assert(p == picks(s, d, a, i));
            assert forall|k: int| 0 <= k < p.len() - 1 implies far_enough(
                s[#[trigger] p[k]],
                s[p[k + 1]],
                d,
            ) by {
                if k > 0 {
                    assert(p[k] == rest[k - 1]);
                    assert(p[k + 1] == rest[k]);
                }
            }
            assert forall|k: int| 0 <= k < p.len() - 1 implies #[trigger] p[k] < p[k + 1] by {
                if k > 0 {
                    assert(p[k] == rest[k - 1]);
                    assert(p[k + 1] == rest[k]);
                }
            }
            assert forall|k: int| 0 <= k < p.len() implies 0 <= #[trigger] p[k] < s.len() by {
                if k > 0 {
                    assert(p[k] == rest[k - 1]);
                }
            }
            assert forall|k: int| 1 <= k < p.len() implies #[trigger] p[k] >= i by {
                assert(p[k] == rest[k - 1]);
            }
        } else {
            lemma_picks_spaced(s, d, a, i + 1);
        }
    }
}

/// Every two consecutive blocks that the filter keeps lie at least the
/// threshold apart, or in different coordinate spaces.
pub proof fn lemma_filtered_spaced(s: Seq<BlockView>, d: u64)
    ensures
        forall|k: int|
            0 <= k < filtered(s, d).len() - 1 ==> far_enough(
                #[trigger] filtered(s, d)[k],
                filtered(s, d)[k + 1],
                d,
            ),
{
    if s.len() > 0 {
        lemma_picks_spaced(s, d, 0, 1);
        let p = picks(s, d, 0, 1);
        assert forall|k: int| 0 <= k < filtered(s, d).len() - 1 implies far_enough(
            #[trigger] filtered(s, d)[k],
            filtered(s, d)[k + 1],
            d,
        ) by {
            assert(far_enough(s[p[k]], s[p[k + 1]], d));
        }
    }
}

proof fn lemma_far_from_earlier(s: Seq<BlockView>, d: u64, a: int, x: int, y: int)
    requires
        one_space(s),
        ordered(s),
        all_wf(s),
        0 <= a <= x < y < s.len(),
        far_enough(s[x], s[y], d),
    ensures
        far_enough(s[a], s[y], d),
{
    if a < x {
        assert(s[a].chrom == s[x].chrom);
        assert(s[a].end <= s[x].start);
        assert(s[x].start < s[x].end);
    }
    assert(s[a].chrom == s[y].chrom);
}

proof fn lemma_picks_dominate(s: Seq<BlockView>, d: u64, a: int, i: int, o: Seq<int>)
    requires
        one_space(s),
        ordered(s),
        all_wf(s),
        0 <= a < i <= s.len(),
        forall|k: int| a < k < i ==> !far_enough(s[a], #[trigger] s[k], d),
        is_spaced_selection(s, d, o),
        o.len() > 0 ==> o[0] >= a,
    ensures
        o.len() <= picks(s, d, a, i).len(),
    decreases s.len() - i,
{
    lemma_picks_spaced(s, d, a, i);
    if o.len() >= 2 {
        assert(o[0] < o[1]);
        assert(far_enough(s[o[0]], s[o[1]], d));
        lemma_far_from_earlier(s, d, a, o[0], o[1]);
        if i >= s.len() {
            assert(!far_enough(s[a], s[o[1]], d));
        } else if far_enough(s[a], s[i], d) {
            let rest = o.drop_first();
            assert(o[1] >= i) by {
                if o[1] < i {
                    assert(!far_enough(s[a], s[o[1]], d));
                }
            }
            assert forall|k: int| 0 <= k < rest.len() - 1 implies far_enough(
                s[#[trigger] rest[k]],
                s[rest[k + 1]],
                d,
            ) by {
                assert(rest[k] == o[k + 1]);
                assert(rest[k + 1] == o[k + 2]);
            }
            assert forall|k: int| 0 <= k < rest.len() - 1 implies #[trigger] rest[k] < rest[k
                + 1] by {
                assert(rest[k] == o[k + 1]);
                assert(rest[k + 1] == o[k + 2]);
            }
            assert forall|k: int| 0 <= k < rest.len() implies 0 <= #[trigger] rest[k]
                < s.len() by {
                assert(rest[k] == o[k + 1]);
            }
            lemma_picks_dominate(s, d, i, i + 1, rest);
        } else {
            lemma_picks_dominate(s, d, a, i + 1, o);
        }
    }
}

/// On blocks of one coordinate space, sorted and not overlapping, no spaced
/// selection keeps more blocks than the filter does.
pub proof fn lemma_filtered_maximal(s: Seq<BlockView>, d: u64, o: Seq<int>)
    requires
        one_space(s),
        ordered(s),
        all_wf(s),
        is_spaced_selection(s, d, o),
    ensures
        o.len() <= filtered(s, d).len(),
{
    if s.len() == 0 {
        if o.len() > 0 {
            assert(0 <= o[0] < s.len());
        }
    } else {
        if o.len() > 0 {
            assert(0 <= o[0]);
        }
        lemma_picks_dominate(s, d, 0, 1, o);
    }
}

/// Greedily keeps, from blocks sorted by start, the earliest block and then
/// each next block that lies at least `min_dist` past the last one kept.
/// Input whose blocks of one space overlap or are not in increasing start
/// order is refused before any block is kept.
pub fn filter_min_dist(blocks: Vec<Block>, min_dist: u64) -> (r: Result<Vec<Block>, BlockError>)
    ensures
        !ordered(views(blocks@)) ==> r == Err::<Vec<Block>, BlockError>(
            BlockError::InvariantViolation,
        ),
        ordered(views(blocks@)) ==> (r matches Ok(v) && views(v@) == filtered(
            views(blocks@),
            min_dist,
        )),
{
    let ghost s = views(blocks@);
    if !is_ordered(&blocks) {
        return Err(BlockError::InvariantViolation);
    }
    let mut filtered: Vec<Block> = Vec::new();
    if blocks.len() == 0 {
        assert(views(filtered@) =~= Seq::<BlockView>::empty());
        return Ok(filtered);
    }
    let ghost mut acc: Seq<int> = Seq::empty();
    let mut current_idx: usize = 0;
    let mut compare_idx: usize = 1;
    assert(picks(s, min_dist, 0, 1) =~= acc + picks(s, min_dist, 0, 1));
    assert(views(filtered@) =~= acc.map_values(|k: int| s[k]));
    while compare_idx < blocks.len()
        invariant
            s == views(blocks@),
            s.len() == blocks@.len(),
            current_idx < compare_idx <= blocks@.len(),
            picks(s, min_dist, 0, 1) == acc + picks(s, min_dist, current_idx as int, compare_idx as int),
            views(filtered@) == acc.map_values(|k: int| s[k]),
            ordered(s),
        decreases blocks@.len() - compare_idx,
    {
        assert(s[current_idx as int] == blocks@[current_idx as int]@);
        assert(s[compare_idx as int] == blocks@[compare_idx as int]@);
        assert(distance_between(s[current_idx as int], s[compare_idx as int]) is Ok);
        let anchor = copy_block(&blocks[current_idx]);
        let candidate = copy_block(&blocks[compare_idx]);
        let far = match block_distance((anchor, candidate)) {
            Ok(Distance::Finite(x)) => x >= min_dist,
            Ok(Distance::Incomparable) => true,
            Err(e) => {
                return Err(e);
            },
        };
        assert(s[current_idx as int] == blocks@[current_idx as int]@);
        assert(s[compare_idx as int] == blocks@[compare_idx as int]@);
        if far {
            let ghost old_filtered = filtered@;
            filtered.push(copy_block(&blocks[current_idx]));
            proof {
                let ci = current_idx as int;
                let rest = picks(s, min_dist, compare_idx as int, compare_idx + 1);
                assert(picks(s, min_dist, ci, compare_idx as int) == seq![ci] + rest);
                assert(acc + (seq![ci] + rest) =~= acc.push(ci) + rest);
                assert(views(filtered@) =~= views(old_filtered).push(s[ci]));
                assert(acc.push(ci).map_values(|k: int| s[k]) =~= acc.map_values(|k: int| s[k]).push(
                    s[ci],
                ));
                acc = acc.push(ci);
            }
            current_idx = compare_idx;
            compare_idx = compare_idx + 1;
        } else {
            compare_idx = compare_idx + 1;
        }
    }
    let ghost old_filtered = filtered@;
    filtered.push(copy_block(&blocks[current_idx]));
    proof {
        let ci = current_idx as int;
        assert(picks(s, min_dist, ci, compare_idx as int) == seq![ci]);
        assert(acc + seq![ci] =~= acc.push(ci));
        assert(s[ci] == blocks@[ci]@);
        assert(views(filtered@) =~= views(old_filtered).push(s[ci]));
        assert(acc.push(ci).map_values(|k: int| s[k]) =~= acc.map_values(|k: int| s[k]).push(s[ci]));
    }
    Ok(filtered)
}

} // verus!
