//! Bookkeeping of motion matching: which trajectory windows are compared,
//! which matches are kept, and which one wins.
use vstd::prelude::*;

use crate::motion_data::chunk::ChunkOffsets;
use crate::motion_data::chunk::ChunkIterator;
use crate::motion_data::trajectory_data::{chunks_at_least, TrajectoryData};

verus! {

/// A candidate trajectory found in the motion data.
///
/// `distance_rank` orders candidates by their distance to the trajectory
/// being matched: a smaller rank means a nearer trajectory.
#[derive(Clone, Copy, Debug, PartialEq, Eq)]
pub struct MatchTrajectory {
    /// Rank of the distance to the trajectory being compared to.
    pub distance_rank: u32,
    /// Index pointing to the chunk that holds this trajectory.
    pub chunk_index: usize,
    /// Offset index into the chunk that holds this trajectory.
    pub chunk_offset: usize,
}

/// Insert `m` into `s` after every trailing element whose rank is not
/// larger than that of `m` (one step of a stable insertion sort).
pub open spec fn insert_by_rank(s: Seq<MatchTrajectory>, m: MatchTrajectory) -> Seq<MatchTrajectory>
    decreases s.len(),
{
    if s.len() == 0 {
        seq![m]
    } else if s.last().distance_rank <= m.distance_rank {
        s.push(m)
    } else {
        insert_by_rank(s.drop_last(), m).push(s.last())
    }
}

/// Position at which [`insert_by_rank`] places `m`.
pub open spec fn insert_position(s: Seq<MatchTrajectory>, m: MatchTrajectory) -> int
    decreases s.len(),
{
    if s.len() == 0 {
        0
    } else if s.last().distance_rank <= m.distance_rank {
        s.len() as int
    } else {
        insert_position(s.drop_last(), m)
    }
}

/// `s` stably sorted by rank: equal ranks keep their relative order.
pub open spec fn rank_sorted(s: Seq<MatchTrajectory>) -> Seq<MatchTrajectory>
    decreases s.len(),
{
    if s.len() == 0 {
        s
    } else {
        insert_by_rank(rank_sorted(s.drop_last()), s.last())
    }
}

/// The ranks never decrease along `s`.
pub open spec fn is_rank_sorted(s: Seq<MatchTrajectory>) -> bool {
    forall|i: int, j: int|
        0 <= i <= j < s.len() ==> #[trigger] s[i].distance_rank <= #[trigger] s[j].distance_rank
}

/// One step of keeping at most `max_count` matches: push while there is
/// room, otherwise replace the last match if the candidate is nearer.
pub open spec fn keep_nearest_step(
    s: Seq<MatchTrajectory>,
    candidate: MatchTrajectory,
    max_count: usize,
) -> Seq<MatchTrajectory> {
    if s.len() < max_count {
        s.push(candidate)
    } else if s.len() > 0 && candidate.distance_rank < s.last().distance_rank {
        s.drop_last().push(candidate)
    } else {
        s
    }
}

/// Matches kept after offering every candidate of `candidates` in order,
/// sorting after each step.
pub open spec fn nearest_of(candidates: Seq<MatchTrajectory>, max_count: usize) -> Seq<MatchTrajectory>
    decreases candidates.len(),
{
    if candidates.len() == 0 {
        candidates
    } else {
        rank_sorted(
            keep_nearest_step(
                nearest_of(candidates.drop_last(), max_count),
                candidates.last(),
                max_count,
            ),
        )
    }
}

/// [`insert_by_rank`] inserts at [`insert_position`]: the element just
/// before that position ranks no higher than `m`, every element after it
/// ranks higher.
proof fn lemma_insert_by_rank_position(s: Seq<MatchTrajectory>, m: MatchTrajectory)
    ensures
        0 <= insert_position(s, m) <= s.len(),
        insert_by_rank(s, m) == s.insert(insert_position(s, m), m),
        insert_position(s, m) > 0 ==> s[insert_position(s, m) - 1].distance_rank
            <= m.distance_rank,
        forall|k: int|
            insert_position(s, m) <= k < s.len() ==> #[trigger] s[k].distance_rank
                > m.distance_rank,
    decreases s.len(),
{
    if s.len() == 0 {
        assert(s.insert(0, m) =~= seq![m]);
    } else if s.last().distance_rank <= m.distance_rank {
        assert(s.insert(s.len() as int, m) =~= s.push(m));
    } else {
        let t = s.drop_last();
        lemma_insert_by_rank_position(t, m);
        let p = insert_position(t, m);
        assert(t.insert(p, m).push(s.last()) =~= s.insert(p, m));
        assert forall|k: int| p <= k < s.len() implies #[trigger] s[k].distance_rank
            > m.distance_rank by {
            if k < t.len() {
                assert(s[k] == t[k]);
            }
        }
    }
}

/// Inserting at any point that splits `s` into "not larger" and "larger"
/// ranks is what [`insert_by_rank`] does.
proof fn lemma_insert_by_rank_at(s: Seq<MatchTrajectory>, m: MatchTrajectory, j: int)
    requires
        0 <= j <= s.len(),
        j > 0 ==> s[j - 1].distance_rank <= m.distance_rank,
        forall|k: int| j <= k < s.len() ==> #[trigger] s[k].distance_rank > m.distance_rank,
    ensures
        insert_by_rank(s, m) == s.insert(j, m),
        insert_position(s, m) == j,
    decreases s.len(),
{
    if s.len() == 0 {
        assert(s.insert(0, m) =~= seq![m]);
    } else if s.last().distance_rank <= m.distance_rank {
        assert(j == s.len());
        assert(s.insert(s.len() as int, m) =~= s.push(m));
    } else {
        let t = s.drop_last();
        assert(j < s.len());
        assert forall|k: int| j <= k < t.len() implies #[trigger] t[k].distance_rank
            > m.distance_rank by {
            assert(t[k] == s[k]);
        }
        lemma_insert_by_rank_at(t, m, j);
        assert(t.insert(j, m).push(s.last()) =~= s.insert(j, m));
    }
}

/// Inserting into a sorted sequence keeps it sorted, and everything before
/// the insert position ranks no higher than the inserted match.
proof fn lemma_insert_keeps_sorted(s: Seq<MatchTrajectory>, m: MatchTrajectory)
    requires
        is_rank_sorted(s),
    ensures
        is_rank_sorted(insert_by_rank(s, m)),
        insert_by_rank(s, m).len() == s.len() + 1,
        forall|k: int|
            0 <= k < insert_position(s, m) ==> #[trigger] s[k].distance_rank <= m.distance_rank,
{
    lemma_insert_by_rank_position(s, m);
    let p = insert_position(s, m);
    let r = s.insert(p, m);
    assert forall|k: int| 0 <= k < p implies #[trigger] s[k].distance_rank
        <= m.distance_rank by {
        assert(s[k].distance_rank <= s[p - 1].distance_rank);
    }
    assert forall|i: int, j: int| 0 <= i <= j < r.len() implies #[trigger] r[i].distance_rank
        <= #[trigger] r[j].distance_rank by {
        if i < p {
            assert(r[i] == s[i]);
            if j < p {
                assert(r[j] == s[j]);
            } else if j > p {
                assert(r[j] == s[j - 1]);
            }
        } else if i == p {
            if j > p {
                assert(r[j] == s[j - 1]);
            }
        } else {
            assert(r[i] == s[i - 1]);
            assert(r[j] == s[j - 1]);
        }
    }
}

/// Inserting adds exactly the inserted match to the multiset of matches.
proof fn lemma_insert_multiset(s: Seq<MatchTrajectory>, m: MatchTrajectory)
    ensures
        insert_by_rank(s, m).to_multiset() == s.to_multiset().insert(m),
    decreases s.len(),
{
    broadcast use vstd::seq_lib::group_to_multiset_ensures;

    if s.len() == 0 {
        assert(seq![m] =~= Seq::<MatchTrajectory>::empty().push(m));
    } else if s.last().distance_rank <= m.distance_rank {
    } else {
        let t = s.drop_last();
        lemma_insert_multiset(t, m);
        assert(t.push(s.last()) =~= s);
        assert(insert_by_rank(s, m).to_multiset() =~= s.to_multiset().insert(m));
    }
}

/// Sorting by rank yields a sorted permutation of the matches.
pub proof fn lemma_rank_sorted(s: Seq<MatchTrajectory>)
    ensures
        is_rank_sorted(rank_sorted(s)),
        rank_sorted(s).len() == s.len(),
        rank_sorted(s).to_multiset() == s.to_multiset(),
    decreases s.len(),
{
    broadcast use vstd::seq_lib::group_to_multiset_ensures;

    if s.len() > 0 {
        let t = s.drop_last();
        lemma_rank_sorted(t);
        lemma_insert_keeps_sorted(rank_sorted(t), s.last());
        lemma_insert_multiset(rank_sorted(t), s.last());
        assert(t.push(s.last()) =~= s);
    }
}

/// Sorting an already sorted sequence leaves it as it is.
pub proof fn lemma_rank_sorted_of_sorted(s: Seq<MatchTrajectory>)
    requires
        is_rank_sorted(s),
    ensures
        rank_sorted(s) == s,
    decreases s.len(),
{
    if s.len() > 0 {
        let t = s.drop_last();
        assert(is_rank_sorted(t)) by {
            assert forall|i: int, j: int| 0 <= i <= j < t.len() implies #[trigger] t[i].distance_rank
                <= #[trigger] t[j].distance_rank by {
                assert(t[i] == s[i] && t[j] == s[j]);
            }
        }
        lemma_rank_sorted_of_sorted(t);
        if t.len() > 0 {
            assert(t.last() == s[s.len() - 2]);
        }
        assert(t.push(s.last()) =~= s);
    }
}

/// Sort the matches by rank; matches of equal rank keep their order.
pub fn sort_matches(matches: &mut Vec<MatchTrajectory>)
    ensures
        final(matches)@ == rank_sorted(old(matches)@),
        is_rank_sorted(final(matches)@),
        final(matches)@.to_multiset() == old(matches)@.to_multiset(),
{
    let n = matches.len();
    let mut sorted: Vec<MatchTrajectory> = Vec::new();
    let mut i: usize = 0;
    while i < n
        invariant
            n == matches@.len(),
            i <= n,
            sorted@ == rank_sorted(matches@.take(i as int)),
            is_rank_sorted(sorted@),
        decreases n - i,
    {
        let m = matches[i];
        let mut pos = sorted.len();
        while pos > 0 && sorted[pos - 1].distance_rank > m.distance_rank
            invariant
                pos <= sorted@.len(),
                forall|k: int| pos <= k < sorted@.len() ==> #[trigger] sorted@[k].distance_rank
                    > m.distance_rank,
            decreases pos,
        {
            pos = pos - 1;
        }
        proof {
            lemma_insert_by_rank_at(sorted@, m, pos as int);
            lemma_insert_keeps_sorted(sorted@, m);
            assert(matches@.take(i + 1).drop_last() =~= matches@.take(i as int));
        }
        sorted.insert(pos, m);
        i = i + 1;
    }
    proof {
        assert(matches@.take(n as int) =~= matches@);
        lemma_rank_sorted(matches@);
    }
    *matches = sorted;
}

/// Offer a candidate to a list of at most `max_count` nearest matches: it
/// is pushed while there is room, otherwise it replaces the last match when
/// it is nearer; the list is then sorted so that the farthest match is last.
pub fn push_nearest(nearest: &mut Vec<MatchTrajectory>, candidate: MatchTrajectory, max_count: usize)
    ensures
        final(nearest)@ == rank_sorted(keep_nearest_step(old(nearest)@, candidate, max_count)),
        is_rank_sorted(final(nearest)@),
        old(nearest)@.len() <= max_count ==> final(nearest)@.len() <= max_count,
{
    let len = nearest.len();
    if len < max_count {
        nearest.push(candidate);
    } else if len > 0 && candidate.distance_rank < nearest[len - 1].distance_rank {
        nearest.pop();
        nearest.push(candidate);
    }
    sort_matches(nearest);
    proof {
        lemma_rank_sorted(keep_nearest_step(old(nearest)@, candidate, max_count));
    }
}

/// The candidates whose rank is at most `threshold_rank`, in their order.
pub open spec fn within_threshold(candidates: Seq<MatchTrajectory>, threshold_rank: u32) -> Seq<
    MatchTrajectory,
>
    decreases candidates.len(),
{
    if candidates.len() == 0 {
        candidates
    } else if candidates.last().distance_rank <= threshold_rank {
        within_threshold(candidates.drop_last(), threshold_rank).push(candidates.last())
    } else {
        within_threshold(candidates.drop_last(), threshold_rank)
    }
}

/// The candidates kept by the threshold are exactly those whose rank is at
/// most the threshold, wherever they stand, in their order.
pub proof fn lemma_within_threshold_is_filter(candidates: Seq<MatchTrajectory>, threshold_rank: u32)
    ensures
        within_threshold(candidates, threshold_rank) == candidates.filter(
            |m: MatchTrajectory| m.distance_rank <= threshold_rank,
        ),
    decreases candidates.len(),
{
    reveal(Seq::filter);
    if candidates.len() > 0 {
        lemma_within_threshold_is_filter(candidates.drop_last(), threshold_rank);
    }
}

/// Offer every candidate in order to an empty list of at most `max_count`
/// nearest matches (see [`push_nearest`]).
pub fn keep_nearest(candidates: &[MatchTrajectory], max_count: usize) -> (kept: Vec<MatchTrajectory>)
    ensures
        kept@ == nearest_of(candidates@, max_count),
        kept@ == rank_sorted(candidates@).take(
            if candidates@.len() < max_count {
                candidates@.len() as int
            } else {
                max_count as int
            },
        ),
{
    let mut kept: Vec<MatchTrajectory> = Vec::new();
    let mut i: usize = 0;
    while i < candidates.len()
        invariant
            i <= candidates@.len(),
            kept@ == nearest_of(candidates@.take(i as int), max_count),
        decreases candidates@.len() - i,
    {
        proof {
            let next = candidates@.take(i + 1);
            assert(next.drop_last() =~= candidates@.take(i as int));
            assert(next.last() == candidates@[i as int]);
        }
        push_nearest(&mut kept, candidates[i], max_count);
        i = i + 1;
    }
    proof {
        assert(candidates@.take(i as int) =~= candidates@);
        lemma_nearest_of_is_sorted_prefix(candidates@, max_count);
    }
    kept
}

/// The nearest matches among the candidates whose rank is at most
/// `threshold_rank`: the candidates beyond the threshold are skipped, the
/// others offered in order to a list of at most `max_count` matches.
pub fn nearest_within(candidates: &[MatchTrajectory], threshold_rank: u32, max_count: usize) -> (kept:
    Vec<MatchTrajectory>)
    ensures
        kept@ == nearest_of(within_threshold(candidates@, threshold_rank), max_count),
        kept@ == nearest_of(
            candidates@.filter(|m: MatchTrajectory| m.distance_rank <= threshold_rank),
            max_count,
        ),
        ({
            let within = within_threshold(candidates@, threshold_rank);
            kept@ == rank_sorted(within).take(
                if within.len() < max_count {
                    within.len() as int
                } else {
                    max_count as int
                },
            )
        }),
{
    let mut kept: Vec<MatchTrajectory> = Vec::new();
    let mut i: usize = 0;
    while i < candidates.len()
        invariant
            i <= candidates@.len(),
            kept@ == nearest_of(within_threshold(candidates@.take(i as int), threshold_rank), max_count),
        decreases candidates@.len() - i,
    {
        let ghost before = within_threshold(candidates@.take(i as int), threshold_rank);
        proof {
            let next = candidates@.take(i + 1);
            assert(next.drop_last() =~= candidates@.take(i as int));
            assert(next.last() == candidates@[i as int]);
        }
        if candidates[i].distance_rank <= threshold_rank {
            proof {
                let after = before.push(candidates@[i as int]);
                assert(after.drop_last() =~= before);
            }
            push_nearest(&mut kept, candidates[i], max_count);
        }
        i = i + 1;
    }
    proof {
        assert(candidates@.take(i as int) =~= candidates@);
        lemma_nearest_of_is_sorted_prefix(within_threshold(candidates@, threshold_rank), max_count);
        lemma_within_threshold_is_filter(candidates@, threshold_rank);
    }
    kept
}

/// The kept matches are always the nearest ones: offering candidates one by
/// one with [`push_nearest`] keeps the first `max_count` of all candidates
/// stably sorted by rank.
pub proof fn lemma_nearest_of_is_sorted_prefix(candidates: Seq<MatchTrajectory>, max_count: usize)
    ensures
        nearest_of(candidates, max_count) == rank_sorted(candidates).take(
            if candidates.len() < max_count {
                candidates.len() as int
            } else {
                max_count as int
            },
        ),
    decreases candidates.len(),
{
    lemma_rank_sorted(candidates);
    if candidates.len() == 0 {
        assert(rank_sorted(candidates).take(0) =~= candidates);
    } else {
        let prev = candidates.drop_last();
        let m = candidates.last();
        lemma_nearest_of_is_sorted_prefix(prev, max_count);
        lemma_rank_sorted(prev);
        let t = rank_sorted(prev);
        let n = prev.len();
        let kept = nearest_of(prev, max_count);
        // rank_sorted(candidates) == insert_by_rank(t, m)
        assert(rank_sorted(candidates) == insert_by_rank(t, m));
        lemma_insert_by_rank_position(t, m);
        lemma_insert_keeps_sorted(t, m);
        let p = insert_position(t, m);
        if n < max_count {
            assert(kept =~= t);
            assert(keep_nearest_step(kept, m, max_count) == t.push(m));
            assert(rank_sorted(t.push(m)) == insert_by_rank(rank_sorted(t), m)) by {
                assert(t.push(m).drop_last() =~= t);
            }
            lemma_rank_sorted_of_sorted(t);
            assert(insert_by_rank(t, m).take((n + 1) as int) =~= insert_by_rank(t, m));
        } else if max_count == 0 {
            assert(kept =~= Seq::<MatchTrajectory>::empty());
            assert(keep_nearest_step(kept, m, max_count) =~= kept);
            assert(insert_by_rank(t, m).take(0) =~= kept);
        } else {
            let k = max_count as int;
            assert(kept =~= t.take(k));
            assert(kept.len() == k);
            if m.distance_rank < kept.last().distance_rank {
                let head = t.take(k - 1);
                assert(kept.drop_last() =~= head);
                assert(keep_nearest_step(kept, m, max_count) == head.push(m));
                assert(head.push(m).drop_last() =~= head);
                assert(is_rank_sorted(head)) by {
                    assert forall|i: int, j: int| 0 <= i <= j < head.len() implies #[trigger] head[i].distance_rank
                        <= #[trigger] head[j].distance_rank by {
                        assert(head[i] == t[i] && head[j] == t[j]);
                    }
                }
                lemma_rank_sorted_of_sorted(head);
                // m goes strictly before position k - 1 of t
                assert(p <= k - 1) by {
                    if p > k - 1 {
                        assert(t[k - 1].distance_rank <= m.distance_rank);
                    }
                }
                assert forall|q: int| p <= q < head.len() implies #[trigger] head[q].distance_rank
                    > m.distance_rank by {
                    assert(head[q] == t[q]);
                }
                if p > 0 {
                    assert(head[p - 1] == t[p - 1]);
                }
                lemma_insert_by_rank_at(head, m, p);
                assert(insert_by_rank(t, m).take(k) =~= head.insert(p, m));
            } else {
                assert(keep_nearest_step(kept, m, max_count) == kept);
                assert(is_rank_sorted(kept)) by {
                    assert forall|i: int, j: int| 0 <= i <= j < kept.len() implies #[trigger] kept[i].distance_rank
                        <= #[trigger] kept[j].distance_rank by {
                        assert(kept[i] == t[i] && kept[j] == t[j]);
                    }
                }
                lemma_rank_sorted_of_sorted(kept);
                assert(p >= k) by {
                    if p < k {
                        assert(t[p].distance_rank > m.distance_rank);
                        assert(t[p].distance_rank <= t[k - 1].distance_rank);
                        assert(kept.last() == t[k - 1]);
                    }
                }
                assert(insert_by_rank(t, m).take(k) =~= kept);
            }
        }
    }
}


/// Number of items in the `chunk`-th chunk.
pub open spec fn chunk_len(offsets: ChunkOffsets, chunk: int) -> int {
    offsets.spec_chunk(chunk).1 - offsets.spec_chunk(chunk).0
}

/// The windows `(chunk, offset)` of `num_segments + 1` consecutive points
/// inside one chunk, by increasing offset.
pub open spec fn chunk_windows(offsets: ChunkOffsets, num_segments: usize, chunk: int) -> Seq<
    (usize, usize),
> {
    Seq::new(
        (chunk_len(offsets, chunk) - num_segments) as nat,
        |o: int| (chunk as usize, o as usize),
    )
}

/// The windows of the first `n` chunks, chunk by chunk.
pub open spec fn windows_upto(offsets: ChunkOffsets, num_segments: usize, n: int) -> Seq<
    (usize, usize),
>
    decreases n,
{
    if n <= 0 {
        Seq::empty()
    } else {
        windows_upto(offsets, num_segments, n - 1) + chunk_windows(offsets, num_segments, n - 1)
    }
}

/// Every trajectory window that the motion data holds, as pairs of chunk
/// index and offset into the chunk: a window of a chunk of `len` points
/// starts at each offset below `len - num_segments`. Every chunk must hold
/// at least `num_segments` points.
pub fn trajectory_windows(offsets: &ChunkOffsets, num_segments: usize) -> (windows: Vec<(usize, usize)>)
    requires
        offsets.wf(),
        chunks_at_least(*offsets, num_segments),
    ensures
        windows@ == windows_upto(*offsets, num_segments, offsets.spec_num_chunks() as int),
{
    let num_chunks = offsets.num_chunks();
    let mut windows: Vec<(usize, usize)> = Vec::new();
    let mut chunk_index: usize = 0;
    while chunk_index < num_chunks
        invariant
            offsets.wf(),
            chunks_at_least(*offsets, num_segments),
            num_chunks == offsets.spec_num_chunks(),
            chunk_index <= num_chunks,
            windows@ == windows_upto(*offsets, num_segments, chunk_index as int),
        decreases num_chunks - chunk_index,
    {
        let (start, end) = offsets.get_chunk_unchecked(chunk_index);
        assert(offsets.spec_chunk(chunk_index as int).1 - offsets.spec_chunk(chunk_index as int).0
            >= num_segments);
        let num_trajectories = end - start - num_segments;
        let ghost before = windows@;
        let mut chunk_offset: usize = 0;
        while chunk_offset < num_trajectories
            invariant
                chunk_offset <= num_trajectories,
                num_trajectories == chunk_len(*offsets, chunk_index as int) - num_segments,
                windows@ == before + chunk_windows(*offsets, num_segments, chunk_index as int).take(
                    chunk_offset as int,
                ),
            decreases num_trajectories - chunk_offset,
        {
            windows.push((chunk_index, chunk_offset));
            chunk_offset = chunk_offset + 1;
            assert(windows@ =~= before + chunk_windows(*offsets, num_segments, chunk_index as int).take(
                chunk_offset as int,
            ));
        }
        assert(chunk_windows(*offsets, num_segments, chunk_index as int).take(
            num_trajectories as int,
        ) =~= chunk_windows(*offsets, num_segments, chunk_index as int));
        chunk_index = chunk_index + 1;
    }
    windows
}

proof fn lemma_windows_upto_len(offsets: ChunkOffsets, num_segments: usize, n: int)
    requires
        offsets.wf(),
        chunks_at_least(offsets, num_segments),
        0 <= n <= offsets.spec_num_chunks(),
    ensures
        windows_upto(offsets, num_segments, n).len() == windows_upto(offsets, num_segments, n - 1).len()
            + (if n > 0 { chunk_len(offsets, n - 1) - num_segments } else { 0 }),
        forall|k: int|
            0 <= k < windows_upto(offsets, num_segments, n).len() ==> {
                let w = #[trigger] windows_upto(offsets, num_segments, n)[k];
                &&& w.0 < n
                &&& w.1 + num_segments < chunk_len(offsets, w.0 as int)
            },
    decreases n,
{
    if n > 0 {
        lemma_windows_upto_len(offsets, num_segments, n - 1);
        let prev = windows_upto(offsets, num_segments, n - 1);
        let cw = chunk_windows(offsets, num_segments, n - 1);
        assert(chunk_len(offsets, n - 1) >= num_segments);
        assert forall|k: int| 0 <= k < windows_upto(offsets, num_segments, n).len() implies {
            let w = #[trigger] windows_upto(offsets, num_segments, n)[k];
            &&& w.0 < n
            &&& w.1 + num_segments < chunk_len(offsets, w.0 as int)
        } by {
            if k >= prev.len() {
                assert(windows_upto(offsets, num_segments, n)[k] == cw[k - prev.len()]);
            } else {
                assert(windows_upto(offsets, num_segments, n)[k] == prev[k]);
            }
        }
    }
}

/// Every listed window lies inside its chunk: its chunk exists and the
/// window's `num_segments + 1` points end no later than the chunk does.
pub proof fn lemma_windows_inside_chunks(offsets: ChunkOffsets, num_segments: usize)
    requires
        offsets.wf(),
        chunks_at_least(offsets, num_segments),
    ensures
        forall|k: int|
            0 <= k < windows_upto(offsets, num_segments, offsets.spec_num_chunks() as int).len()
                ==> {
                let w = #[trigger] windows_upto(
                    offsets,
                    num_segments,
                    offsets.spec_num_chunks() as int,
                )[k];
                &&& w.0 < offsets.spec_num_chunks()
                &&& w.1 + num_segments + 1 <= chunk_len(offsets, w.0 as int)
            },
{
    lemma_windows_upto_len(offsets, num_segments, offsets.spec_num_chunks() as int);
}

/// Every window that fits inside a chunk is listed.
pub proof fn lemma_windows_complete(
    offsets: ChunkOffsets,
    num_segments: usize,
    chunk: usize,
    offset: usize,
)
    requires
        offsets.wf(),
        chunks_at_least(offsets, num_segments),
        chunk < offsets.spec_num_chunks(),
        offset + num_segments < chunk_len(offsets, chunk as int),
    ensures
        windows_upto(offsets, num_segments, offsets.spec_num_chunks() as int).contains(
            (chunk, offset),
        ),
{
    lemma_windows_contain(offsets, num_segments, offsets.spec_num_chunks() as int, chunk, offset);
}

proof fn lemma_windows_contain(
    offsets: ChunkOffsets,
    num_segments: usize,
    n: int,
    chunk: usize,
    offset: usize,
)
    requires
        offsets.wf(),
        chunks_at_least(offsets, num_segments),
        chunk < n <= offsets.spec_num_chunks(),
        offset + num_segments < chunk_len(offsets, chunk as int),
    ensures
        windows_upto(offsets, num_segments, n).contains((chunk, offset)),
    decreases n,
{
    let prev = windows_upto(offsets, num_segments, n - 1);
    let cw = chunk_windows(offsets, num_segments, n - 1);
    if chunk == n - 1 {
        assert(windows_upto(offsets, num_segments, n)[prev.len() + offset] == (chunk, offset));
    } else {
        lemma_windows_contain(offsets, num_segments, n - 1, chunk, offset);
        let k = choose|k: int| 0 <= k < prev.len() && prev[k] == (chunk, offset);
        assert(windows_upto(offsets, num_segments, n)[k] == (chunk, offset));
    }
}

/// Trajectory data whose chunks hold more points than a trajectory has
/// segments can be searched window by window, and every chunk of it offers
/// at least one window.
pub proof fn lemma_trajectory_data_windows<P, I>(data: TrajectoryData<P, I>, num_segments: usize)
    requires
        data.wf(),
        num_segments < data.spec_config().point_len,
    ensures
        chunks_at_least(data.spec_offsets(), num_segments),
        forall|chunk: int|
            0 <= chunk < data.spec_offsets().spec_num_chunks() ==> #[trigger] chunk_windows(
                data.spec_offsets(),
                num_segments,
                chunk,
            ).len() >= 1,
{
    assert forall|chunk: int| 0 <= chunk < data.spec_offsets().spec_num_chunks() implies #[trigger] chunk_windows(
        data.spec_offsets(),
        num_segments,
        chunk,
    ).len() >= 1 by {
        assert(data.spec_offsets().spec_chunk(chunk).1 - data.spec_offsets().spec_chunk(chunk).0
            >= data.spec_config().point_len);
    }
    assert forall|i: int| 0 <= i < data.spec_offsets().spec_num_chunks() implies #[trigger] data.spec_offsets().spec_chunk(i).1
        - data.spec_offsets().spec_chunk(i).0 >= num_segments by {
        assert(data.spec_offsets().spec_chunk(i).1 - data.spec_offsets().spec_chunk(i).0
            >= data.spec_config().point_len);
    }
}

/// `a - b`, or `0` when `b` is larger.
pub open spec fn saturating_sub(a: usize, b: usize) -> usize {
    if a >= b {
        (a - b) as usize
    } else {
        0
    }
}

/// Where the prediction part of a playing trajectory continues in the data
/// chunk it is taken from: at `chunk_offset` when `num_points` points remain
/// there, at the start of the chunk when the chunk is loopable, and `None`
/// (a new match is needed) otherwise or when the chunk does not exist.
pub open spec fn spec_prediction_window(
    data_chunk_len: Option<usize>,
    loopable: Option<bool>,
    chunk_offset: usize,
    num_points: usize,
) -> Option<usize> {
    match (data_chunk_len, loopable) {
        (Some(len), Some(lp)) => if saturating_sub(len, chunk_offset) >= num_points {
            Some(chunk_offset)
        } else if lp {
            Some(0)
        } else {
            None
        },
        _ => None,
    }
}

/// What the start of the prediction window is, stated on its own: for an
/// existing chunk of `len` points, the window stays at `chunk_offset`
/// whenever `num_points` points remain from there, loopable or not; only
/// when fewer remain does a loopable chunk restart at `0` and another chunk
/// give `None`; a missing chunk gives `None`.
pub open spec fn prediction_window_law(
    data_chunk_len: Option<usize>,
    loopable: Option<bool>,
    chunk_offset: usize,
    num_points: usize,
    start: Option<usize>,
) -> bool {
    match (data_chunk_len, loopable) {
        (Some(len), Some(lp)) => {
            let enough = num_points == 0 || chunk_offset + num_points <= len;
            &&& enough ==> start == Some(chunk_offset)
            &&& !enough && lp ==> start == Some(0usize)
            &&& !enough && !lp ==> start is None
        },
        _ => start is None,
    }
}

/// The prediction window obeys [`prediction_window_law`].
pub proof fn lemma_prediction_window(
    data_chunk_len: Option<usize>,
    loopable: Option<bool>,
    chunk_offset: usize,
    num_points: usize,
)
    ensures
        prediction_window_law(
            data_chunk_len,
            loopable,
            chunk_offset,
            num_points,
            spec_prediction_window(data_chunk_len, loopable, chunk_offset, num_points),
        ),
{
}

/// Start of the data window that the prediction trajectory is compared to
/// (see [`spec_prediction_window`]); the chosen window must lie inside the
/// chunk.
pub fn prediction_window(
    data_chunk_len: Option<usize>,
    loopable: Option<bool>,
    chunk_offset: usize,
    num_points: usize,
) -> (start: Option<usize>)
    requires
        match (
            data_chunk_len,
            spec_prediction_window(data_chunk_len, loopable, chunk_offset, num_points),
        ) {
            (Some(len), Some(s)) => s + num_points <= len,
            _ => true,
        },
    ensures
        start == spec_prediction_window(data_chunk_len, loopable, chunk_offset, num_points),
        prediction_window_law(data_chunk_len, loopable, chunk_offset, num_points, start),
        match (start, data_chunk_len) {
            (Some(s), Some(len)) => s + num_points <= len,
            (Some(_), None) => false,
            _ => true,
        },
{
    proof {
        lemma_prediction_window(data_chunk_len, loopable, chunk_offset, num_points);
    }
    match (data_chunk_len, loopable) {
        (Some(len), Some(lp)) => {
            let remaining = len.saturating_sub(chunk_offset);
            if remaining >= num_points {
                Some(chunk_offset)
            } else if lp {
                Some(0)
            } else {
                None
            }
        },
        _ => None,
    }
}

/// Index and rank of the first strictly smallest rank among the first `n`
/// ranks that is below `initial`; `(0, initial)` when there is none.
pub open spec fn best_index_upto(ranks: Seq<u32>, initial: u32, n: int) -> (int, u32)
    decreases n,
{
    if n <= 0 {
        (0, initial)
    } else {
        let (b, r) = best_index_upto(ranks, initial, n - 1);
        if ranks[n - 1] < r {
            (n - 1, ranks[n - 1])
        } else {
            (b, r)
        }
    }
}

/// Index of the best pose among the matched trajectories: the first one
/// with the smallest pose distance rank below `initial_rank`, or `0` when
/// none is below it.
pub fn best_pose_index(ranks: &[u32], initial_rank: u32) -> (best: usize)
    ensures
        best == best_index_upto(ranks@, initial_rank, ranks@.len() as int).0,
{
    let mut best: usize = 0;
    let mut smallest = initial_rank;
    let mut i: usize = 0;
    while i < ranks.len()
        invariant
            i <= ranks@.len(),
            (best as int, smallest) == best_index_upto(ranks@, initial_rank, i as int),
        decreases ranks@.len() - i,
    {
        if ranks[i] < smallest {
            smallest = ranks[i];
            best = i;
        }
        i = i + 1;
    }
    best
}

/// The best index is the first minimum: no rank is smaller, all earlier
/// ranks are larger, and when no rank is below `initial` the index is `0`.
pub proof fn lemma_best_index(ranks: Seq<u32>, initial: u32, n: int)
    requires
        0 <= n <= ranks.len(),
    ensures
        ({
            let (b, r) = best_index_upto(ranks, initial, n);
            &&& r <= initial
            &&& forall|k: int| 0 <= k < n ==> r <= #[trigger] ranks[k]
            &&& r < initial ==> 0 <= b < n && ranks[b] == r && forall|k: int|
                0 <= k < b ==> #[trigger] ranks[k] > r
            &&& r == initial ==> b == 0
        }),
    decreases n,
{
    if n > 0 {
        lemma_best_index(ranks, initial, n - 1);
    }
}

/// Indices `i < n` whose cluster is `cluster`, in increasing order.
pub open spec fn cluster_members_upto(membership: Seq<usize>, cluster: usize, n: int) -> Seq<usize>
    decreases n,
{
    if n <= 0 {
        Seq::empty()
    } else if membership[n - 1] == cluster {
        cluster_members_upto(membership, cluster, n - 1).push((n - 1) as usize)
    } else {
        cluster_members_upto(membership, cluster, n - 1)
    }
}

/// Group item indices by the cluster each item belongs to; every cluster id
/// must be below `num_clusters`. Each group lists, once each and in
/// increasing order, exactly the items of its cluster.
pub fn group_by_cluster(membership: &[usize], num_clusters: usize) -> (groups: Vec<Vec<usize>>)
    requires
        forall|i: int| 0 <= i < membership@.len() ==> #[trigger] membership@[i] < num_clusters,
    ensures
        groups@.len() == num_clusters,
        forall|c: int, a: int, b: int|
            0 <= c < num_clusters && 0 <= a < b < groups@[c]@.len() ==> #[trigger] groups@[c]@[a]
                < #[trigger] groups@[c]@[b],
        forall|c: int, k: int|
            0 <= c < num_clusters && 0 <= k < groups@[c]@.len() ==> {
                let j = #[trigger] groups@[c]@[k];
                &&& j < membership@.len()
                &&& membership@[j as int] == c
            },
        forall|c: int, j: int|
            0 <= c < num_clusters && 0 <= j < membership@.len() && #[trigger] membership@[j] == c
                ==> (#[trigger] groups@[c])@.contains(j as usize),
        forall|c: int|
            0 <= c < num_clusters ==> (#[trigger] groups@[c])@ == cluster_members_upto(
                membership@,
                c as usize,
                membership@.len() as int,
            ),
{
    let mut groups: Vec<Vec<usize>> = Vec::new();
    let mut c: usize = 0;
    while c < num_clusters
        invariant
            c <= num_clusters,
            groups@.len() == c,
            forall|k: int| 0 <= k < c ==> (#[trigger] groups@[k])@ == Seq::<usize>::empty(),
        decreases num_clusters - c,
    {
        groups.push(Vec::new());
        c = c + 1;
    }
    let n = membership.len();
    let mut i: usize = 0;
    while i < n
        invariant
            n == membership@.len(),
            i <= n,
            forall|j: int| 0 <= j < membership@.len() ==> #[trigger] membership@[j] < num_clusters,
            groups@.len() == num_clusters,
            forall|k: int|
                0 <= k < num_clusters ==> (#[trigger] groups@[k])@ == cluster_members_upto(
                    membership@,
                    k as usize,
                    i as int,
                ),
        decreases n - i,
    {
        let cluster = membership[i];
        groups[cluster].push(i);
        proof {
            assert forall|k: int| 0 <= k < num_clusters implies (#[trigger] groups@[k])@
                == cluster_members_upto(membership@, k as usize, (i + 1) as int) by {
                if k != cluster {
                }
            }
        }
        i = i + 1;
    }
    proof {
        assert forall|c: int| 0 <= c < num_clusters implies {
            let g = (#[trigger] groups@[c])@;
            &&& forall|a: int, b: int| 0 <= a < b < g.len() ==> g[a] < g[b]
            &&& forall|k: int| 0 <= k < g.len() ==> g[k] < membership@.len() && membership@[g[k] as int] == c
            &&& forall|j: int| 0 <= j < membership@.len() && membership@[j] == c ==> g.contains(j as usize)
        } by {
            lemma_cluster_members(membership@, c as usize, n as int);
        }
    }
    groups
}

/// The groups partition the items: each group holds exactly the items of its
/// cluster, so every item is in the group of its cluster.
pub proof fn lemma_cluster_members(membership: Seq<usize>, cluster: usize, n: int)
    requires
        0 <= n <= membership.len(),
        membership.len() <= usize::MAX,
    ensures
        forall|k: int|
            0 <= k < cluster_members_upto(membership, cluster, n).len() ==> {
                let j = #[trigger] cluster_members_upto(membership, cluster, n)[k];
                &&& j < n
                &&& membership[j as int] == cluster
            },
        forall|j: int|
            0 <= j < n && membership[j] == cluster ==> cluster_members_upto(
                membership,
                cluster,
                n,
            ).contains(j as usize),
        forall|a: int, b: int|
            0 <= a < b < cluster_members_upto(membership, cluster, n).len() ==> #[trigger] cluster_members_upto(
                membership,
                cluster,
                n,
            )[a] < #[trigger] cluster_members_upto(membership, cluster, n)[b],
    decreases n,
{
    if n > 0 {
        lemma_cluster_members(membership, cluster, n - 1);
        let prev = cluster_members_upto(membership, cluster, n - 1);
        let cur = cluster_members_upto(membership, cluster, n);
        assert forall|j: int| 0 <= j < n && membership[j] == cluster implies cur.contains(
            j as usize,
        ) by {
            if j == n - 1 {
                assert(cur[cur.len() - 1] == j as usize);
            } else {
                let k = choose|k: int| 0 <= k < prev.len() && prev[k] == j as usize;
                assert(cur[k] == j as usize);
            }
        }
        assert forall|k: int| 0 <= k < cur.len() implies {
            let j = #[trigger] cur[k];
            &&& j < n
            &&& membership[j as int] == cluster
        } by {
            if k < prev.len() {
                assert(cur[k] == prev[k]);
            }
        }
        assert forall|a: int, b: int| 0 <= a < b < cur.len() implies #[trigger] cur[a]
            < #[trigger] cur[b] by {
            assert(cur[a] == prev[a]);
            if b < prev.len() {
                assert(cur[b] == prev[b]);
            } else {
                assert(prev[a] < n - 1);
            }
        }
    }
}

/// Number of positions below `n` where both lists hold matches of the same
/// chunk.
pub open spec fn same_chunk_index_count(a: Seq<MatchTrajectory>, b: Seq<MatchTrajectory>, n: int) -> nat
    decreases n,
{
    if n <= 0 {
        0
    } else {
        same_chunk_index_count(a, b, n - 1) + if a[n - 1].chunk_index == b[n - 1].chunk_index {
            1nat
        } else {
            0nat
        }
    }
}

/// Number of positions below `n` where both lists hold matches at the same
/// offset into their chunk.
pub open spec fn same_chunk_offset_count(a: Seq<MatchTrajectory>, b: Seq<MatchTrajectory>, n: int) -> nat
    decreases n,
{
    if n <= 0 {
        0
    } else {
        same_chunk_offset_count(a, b, n - 1) + if a[n - 1].chunk_offset == b[n - 1].chunk_offset {
            1nat
        } else {
            0nat
        }
    }
}

/// Positions below `n` where the offsets of `a` and `b` agree.
pub open spec fn offset_agreements(a: Seq<MatchTrajectory>, b: Seq<MatchTrajectory>, n: int) -> Set<int> {
    Set::new(|k: int| 0 <= k < n && a[k].chunk_offset == b[k].chunk_offset)
}

/// Positions below `n` where the chunk indices of `a` and `b` agree.
pub open spec fn index_agreements(a: Seq<MatchTrajectory>, b: Seq<MatchTrajectory>, n: int) -> Set<int> {
    Set::new(|k: int| 0 <= k < n && a[k].chunk_index == b[k].chunk_index)
}

/// The agreement counts are the numbers of positions below `n` at which the
/// two lists agree: on the offset, and on the chunk index.
pub proof fn lemma_agreement_counts(a: Seq<MatchTrajectory>, b: Seq<MatchTrajectory>, n: int)
    requires
        0 <= n,
    ensures
        offset_agreements(a, b, n).finite(),
        index_agreements(a, b, n).finite(),
        same_chunk_offset_count(a, b, n) == offset_agreements(a, b, n).len(),
        same_chunk_index_count(a, b, n) == index_agreements(a, b, n).len(),
    decreases n,
{
    if n == 0 {
        assert(offset_agreements(a, b, n) =~= Set::<int>::empty());
        assert(index_agreements(a, b, n) =~= Set::<int>::empty());
    } else {
        lemma_agreement_counts(a, b, n - 1);
        let po = offset_agreements(a, b, n - 1);
        let pi = index_agreements(a, b, n - 1);
        assert(!po.contains(n - 1));
        assert(!pi.contains(n - 1));
        if a[n - 1].chunk_offset == b[n - 1].chunk_offset {
            assert(offset_agreements(a, b, n) =~= po.insert(n - 1));
        } else {
            assert(offset_agreements(a, b, n) =~= po);
        }
        if a[n - 1].chunk_index == b[n - 1].chunk_index {
            assert(index_agreements(a, b, n) =~= pi.insert(n - 1));
        } else {
            assert(index_agreements(a, b, n) =~= pi);
        }
    }
}

/// How often the first `count` matches of `candidate` agree with those of
/// `reference`: on the chunk index, and on the offset into the chunk.
pub fn agreement_scores(reference: &[MatchTrajectory], candidate: &[MatchTrajectory], count: usize) -> (scores: (usize, usize))
    requires
        count <= reference@.len(),
        count <= candidate@.len(),
    ensures
        scores.0 == same_chunk_index_count(reference@, candidate@, count as int),
        scores.1 == same_chunk_offset_count(reference@, candidate@, count as int),
        scores.0 <= count && scores.1 <= count,
        scores.0 == index_agreements(reference@, candidate@, count as int).len(),
        scores.1 == offset_agreements(reference@, candidate@, count as int).len(),
{
    proof {
        lemma_agreement_counts(reference@, candidate@, count as int);
    }
    let mut index_score: usize = 0;
    let mut offset_score: usize = 0;
    let mut i: usize = 0;
    while i < count
        invariant
            i <= count,
            count <= reference@.len(),
            count <= candidate@.len(),
            index_score == same_chunk_index_count(reference@, candidate@, i as int),
            offset_score == same_chunk_offset_count(reference@, candidate@, i as int),
            index_score <= i && offset_score <= i,
        decreases count - i,
    {
        if reference[i].chunk_index == candidate[i].chunk_index {
            index_score = index_score + 1;
        }
        if reference[i].chunk_offset == candidate[i].chunk_offset {
            offset_score = offset_score + 1;
        }
        i = i + 1;
    }
    (index_score, offset_score)
}

} // verus!
