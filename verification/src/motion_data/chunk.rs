//! Offset index for chunks stored back to back in one flat list.
use vstd::prelude::*;

verus! {

/// True when `s` is a valid offset list: it starts with `0` and never
/// decreases, so that `[s[i], s[i + 1])` is the `i`-th chunk.
pub open spec fn offsets_wf(s: Seq<usize>) -> bool {
    &&& 1 <= s.len() <= usize::MAX
    &&& s[0] == 0
    &&& forall|i: int, j: int| 0 <= i <= j < s.len() ==> s[i] <= s[j]
}

/// Offset index for chunks in a flat array or list.
///
/// `[0, 3, 5, 7]` contains the chunks `[0, 3)`, `[3, 5)` and `[5, 7)`.
#[derive(Debug, Clone)]
pub struct ChunkOffsets(Vec<usize>);

impl View for ChunkOffsets {
    type V = Seq<usize>;

    closed spec fn view(&self) -> Seq<usize> {
        self.0@
    }
}

impl ChunkOffsets {
    /// The offsets form a valid chunk index (see [`offsets_wf`]).
    pub open spec fn wf(&self) -> bool {
        offsets_wf(self@)
    }

    /// Number of chunks described by the offsets.
    pub open spec fn spec_num_chunks(&self) -> nat {
        if self@.len() == 0 {
            0
        } else {
            (self@.len() - 1) as nat
        }
    }

    /// The `index`-th chunk as a half-open range `(start, end)`.
    pub open spec fn spec_chunk(&self, index: int) -> (usize, usize) {
        (self@[index], self@[index + 1])
    }

    /// The end of the last chunk, that is the number of items covered.
    pub open spec fn spec_total_len(&self) -> usize {
        self@.last()
    }

    /// What the `k`-th call of `next` on [`Self::iter`] yields: the `k`-th
    /// chunk while there is one, then `None`.
    pub open spec fn spec_iter_item(&self, k: int) -> Option<(usize, usize)> {
        if 0 <= k < self.spec_num_chunks() {
            Some(self.spec_chunk(k))
        } else {
            None
        }
    }

    /// Initialize offsets with `0` as the first default element.
    pub fn new() -> (offsets: Self)
        ensures
            offsets.wf(),
            offsets@ == seq![0usize],
            offsets.spec_num_chunks() == 0,
    {
        let mut v: Vec<usize> = Vec::new();
        v.push(0);
        ChunkOffsets(v)
    }

    /// Number of chunks present.
    pub fn num_chunks(&self) -> (n: usize)
        ensures
            n == self.spec_num_chunks(),
    {
        self.0.len().saturating_sub(1)
    }

    /// Append a chunk of `chunk_len` items after the last chunk.
    pub fn push_chunk(&mut self, chunk_len: usize)
        requires
            old(self).wf(),
            old(self).spec_total_len() + chunk_len <= usize::MAX,
        ensures
            final(self).wf(),
            final(self)@ == old(self)@.push((old(self).spec_total_len() + chunk_len) as usize),
            final(self).spec_num_chunks() == old(self).spec_num_chunks() + 1,
            final(self).spec_chunk(old(self).spec_num_chunks() as int) == (
                old(self).spec_total_len(),
                (old(self).spec_total_len() + chunk_len) as usize,
            ),
            forall|i: int|
                0 <= i < old(self).spec_num_chunks() ==> #[trigger] final(self).spec_chunk(i)
                    == old(self).spec_chunk(i),
    {
        let last = self.0[self.num_chunks()];
        self.0.push(last + chunk_len);
        assert(self.0@.len() == self.0.len());
    }

    /// The `index`-th chunk as a half-open range, or `None` when there is no
    /// such chunk.
    pub fn get_chunk(&self, index: usize) -> (chunk: Option<(usize, usize)>)
        ensures
            chunk == (if index < self.spec_num_chunks() {
                Some(self.spec_chunk(index as int))
            } else {
                None
            }),
    {
        if index < self.0.len() && index + 1 < self.0.len() {
            Some((self.0[index], self.0[index + 1]))
        } else {
            None
        }
    }

    /// The `index`-th chunk; the index must denote a chunk.
    pub fn get_chunk_unchecked(&self, index: usize) -> (chunk: (usize, usize))
        requires
            index < self.spec_num_chunks(),
        ensures
            chunk == self.spec_chunk(index as int),
    {
        let len = self.0.len();
        assert(index + 1 < len);
        (self.0[index], self.0[index + 1])
    }

    /// The end of the last chunk, that is the number of items covered.
    pub fn total_len(&self) -> (len: usize)
        requires
            self.wf(),
        ensures
            len == self.spec_total_len(),
    {
        self.0[self.0.len() - 1]
    }

    /// Build offsets from a raw offset list, as stored; [`Self::is_valid`]
    /// tells whether it is a valid chunk index.
    pub fn from_offsets(offsets: Vec<usize>) -> (result: Self)
        ensures
            result@ == offsets@,
    {
        ChunkOffsets(offsets)
    }

    /// Whether the offsets form a valid chunk index (not empty, starting at
    /// `0` and never decreasing).
    pub fn is_valid(&self) -> (valid: bool)
        ensures
            valid == self.wf(),
    {
        let len = self.0.len();
        if len == 0 || self.0[0] != 0 {
            return false;
        }
        let mut i: usize = 1;
        while i < len
            invariant
                len == self@.len(),
                1 <= i <= len,
                self@[0] == 0,
                forall|a: int, b: int| 0 <= a <= b < i ==> self@[a] <= self@[b],
            decreases len - i,
        {
            if self.0[i - 1] > self.0[i] {
                assert(!offsets_wf(self@)) by {
                    let a = i - 1;
                    assert(self@[a as int] > self@[i as int]);
                }
                return false;
            }
            i = i + 1;
        }
        true
    }

    /// The raw offset list.
    pub fn as_slice(&self) -> (offsets: &[usize])
        ensures
            offsets@ == self@,
    {
        self.0.as_slice()
    }

    /// Iterate through the chunks from the first one.
    pub fn iter(&self) -> (iter: ChunkOffsetsIter<'_>)
        ensures
            iter.offsets() == self,
            iter.chunk_index() == 0,
    {
        ChunkOffsetsIter { offsets: self, chunk_index: 0 }
    }
}

impl Default for ChunkOffsets {
    fn default() -> (offsets: Self)
        ensures
            offsets.wf(),
            offsets@ == seq![0usize],
    {
        Self::new()
    }
}

/// Walks through the chunks of a [`ChunkOffsets`] one by one.
pub struct ChunkOffsetsIter<'a> {
    offsets: &'a ChunkOffsets,
    chunk_index: usize,
}

impl<'a> ChunkOffsetsIter<'a> {
    /// The offsets being walked through.
    pub closed spec fn offsets(&self) -> &'a ChunkOffsets {
        self.offsets
    }

    /// Index of the chunk that the next call of [`Self::next`] yields.
    pub closed spec fn chunk_index(&self) -> nat {
        self.chunk_index as nat
    }

    /// Yield the current chunk and move to the next one; `None` once all
    /// chunks were yielded.
    pub fn next(&mut self) -> (chunk: Option<(usize, usize)>)
        requires
            old(self).chunk_index() < usize::MAX,
        ensures
            final(self).offsets() == old(self).offsets(),
            final(self).chunk_index() == old(self).chunk_index() + 1,
            chunk == old(self).offsets().spec_iter_item(old(self).chunk_index() as int),
    {
        let chunk = self.offsets.get_chunk(self.chunk_index);
        self.chunk_index = self.chunk_index + 1;
        chunk
    }
}


/// The offsets describe chunks that all lie within a list of `len` items.
pub open spec fn chunks_fit(offsets: ChunkOffsets, len: nat) -> bool {
    offsets.wf() && offsets.spec_total_len() <= len
}

/// The items of the `index`-th chunk.
pub open spec fn spec_chunk_items<T>(offsets: ChunkOffsets, items: Seq<T>, index: int) -> Seq<T> {
    items.subrange(offsets.spec_chunk(index).0 as int, offsets.spec_chunk(index).1 as int)
}

/// A flat list of items split into chunks by a [`ChunkOffsets`].
pub trait ChunkIterator {
    type Item;

    /// The offsets that split [`Self::spec_items`] into chunks.
    spec fn spec_offsets(&self) -> ChunkOffsets;

    /// All items, chunk after chunk.
    spec fn spec_items(&self) -> Seq<Self::Item>;

    fn offsets(&self) -> (offsets: &ChunkOffsets)
        ensures
            *offsets == self.spec_offsets(),
    ;

    fn items(&self) -> (items: &[Self::Item])
        ensures
            items@ == self.spec_items(),
    ;

    /// The items of every chunk, chunk by chunk.
    fn iter_chunk(&self) -> (chunks: Vec<&[Self::Item]>)
        requires
            chunks_fit(self.spec_offsets(), self.spec_items().len()),
        ensures
            chunks@.len() == self.spec_offsets().spec_num_chunks(),
            forall|i: int|
                0 <= i < chunks@.len() ==> (#[trigger] chunks@[i])@ == spec_chunk_items(
                    self.spec_offsets(),
                    self.spec_items(),
                    i,
                ),
    {
        let offsets = self.offsets();
        let items = self.items();
        let num_chunks = offsets.num_chunks();
        let mut chunks: Vec<&[Self::Item]> = Vec::new();
        let mut i: usize = 0;
        while i < num_chunks
            invariant
                *offsets == self.spec_offsets(),
                items@ == self.spec_items(),
                chunks_fit(*offsets, items@.len()),
                num_chunks == offsets.spec_num_chunks(),
                i <= num_chunks,
                chunks@.len() == i,
                forall|k: int|
                    0 <= k < i ==> (#[trigger] chunks@[k])@ == spec_chunk_items(
                        *offsets,
                        items@,
                        k,
                    ),
            decreases num_chunks - i,
        {
            let (start, end) = offsets.get_chunk_unchecked(i);
            proof {
                lemma_chunk_bounds(*offsets, i as int);
            }
            chunks.push(&items[start..end]);
            i = i + 1;
        }
        chunks
    }

    /// The items inside the chunk `chunk_index`, or `None` when there is no
    /// such chunk.
    fn get_chunk(&self, chunk_index: usize) -> (chunk: Option<&[Self::Item]>)
        requires
            chunks_fit(self.spec_offsets(), self.spec_items().len()),
        ensures
            chunk is Some <==> chunk_index < self.spec_offsets().spec_num_chunks(),
            chunk matches Some(c) ==> c@ == spec_chunk_items(
                self.spec_offsets(),
                self.spec_items(),
                chunk_index as int,
            ),
    {
        let offsets = self.offsets();
        match offsets.get_chunk(chunk_index) {
            Some((start, end)) => {
                proof {
                    lemma_chunk_bounds(*offsets, chunk_index as int);
                }
                let items = self.items();
                Some(&items[start..end])
            },
            None => None,
        }
    }

    /// The items inside the chunk `chunk_index`, which must exist.
    fn get_chunk_unchecked(&self, chunk_index: usize) -> (chunk: &[Self::Item])
        requires
            chunks_fit(self.spec_offsets(), self.spec_items().len()),
            chunk_index < self.spec_offsets().spec_num_chunks(),
        ensures
            chunk@ == spec_chunk_items(self.spec_offsets(), self.spec_items(), chunk_index as int),
    {
        let offsets = self.offsets();
        let (start, end) = offsets.get_chunk_unchecked(chunk_index);
        proof {
            lemma_chunk_bounds(*offsets, chunk_index as int);
        }
        let items = self.items();
        &items[start..end]
    }
}

/// Every chunk of valid offsets starts no later than it ends, and ends no
/// later than the end of the last chunk; the first chunk starts at `0`.
pub proof fn lemma_chunk_bounds(offsets: ChunkOffsets, index: int)
    requires
        offsets.wf(),
        0 <= index < offsets.spec_num_chunks(),
    ensures
        offsets.spec_chunk(index).0 <= offsets.spec_chunk(index).1,
        offsets.spec_chunk(index).1 <= offsets.spec_total_len(),
        index == 0 ==> offsets.spec_chunk(index).0 == 0,
{
}

/// Chunks lie back to back: each chunk starts where the previous one ends.
pub proof fn lemma_chunks_contiguous(offsets: ChunkOffsets, index: int)
    requires
        offsets.wf(),
        0 <= index,
        index + 1 < offsets.spec_num_chunks(),
    ensures
        offsets.spec_chunk(index).1 == offsets.spec_chunk(index + 1).0,
{
}

/// The chunks cover the items exactly: their lengths add up to the end of
/// the last chunk.
pub proof fn lemma_chunk_lengths_sum(offsets: ChunkOffsets)
    requires
        offsets.wf(),
    ensures
        chunk_lengths_sum(offsets, offsets.spec_num_chunks() as int) == offsets.spec_total_len(),
{
    lemma_chunk_lengths_prefix(offsets, offsets.spec_num_chunks() as int);
}

/// Sum of the lengths of the first `n` chunks.
pub open spec fn chunk_lengths_sum(offsets: ChunkOffsets, n: int) -> int
    decreases n,
{
    if n <= 0 {
        0
    } else {
        chunk_lengths_sum(offsets, n - 1) + (offsets.spec_chunk(n - 1).1 - offsets.spec_chunk(
            n - 1,
        ).0)
    }
}

proof fn lemma_chunk_lengths_prefix(offsets: ChunkOffsets, n: int)
    requires
        offsets.wf(),
        0 <= n <= offsets.spec_num_chunks(),
    ensures
        chunk_lengths_sum(offsets, n) == offsets@[n],
    decreases n,
{
    if n > 0 {
        lemma_chunk_lengths_prefix(offsets, n - 1);
    }
}


/// The items of the first `n` chunks, chunk after chunk.
pub open spec fn chunks_concat<T>(offsets: ChunkOffsets, items: Seq<T>, n: int) -> Seq<T>
    decreases n,
{
    if n <= 0 {
        Seq::empty()
    } else {
        chunks_concat(offsets, items, n - 1) + spec_chunk_items(offsets, items, n - 1)
    }
}

/// The chunks split the items without gap or overlap: putting the chunks
/// back together, in order, gives all the items the offsets cover.
pub proof fn lemma_chunks_concatenate<T>(offsets: ChunkOffsets, items: Seq<T>)
    requires
        chunks_fit(offsets, items.len()),
    ensures
        chunks_concat(offsets, items, offsets.spec_num_chunks() as int) == items.take(
            offsets.spec_total_len() as int,
        ),
{
    lemma_chunks_concat_prefix(offsets, items, offsets.spec_num_chunks() as int);
}

proof fn lemma_chunks_concat_prefix<T>(offsets: ChunkOffsets, items: Seq<T>, n: int)
    requires
        chunks_fit(offsets, items.len()),
        0 <= n <= offsets.spec_num_chunks(),
    ensures
        chunks_concat(offsets, items, n) == items.take(offsets@[n] as int),
    decreases n,
{
    if n > 0 {
        lemma_chunks_concat_prefix(offsets, items, n - 1);
        lemma_chunk_bounds(offsets, n - 1);
        assert(items.take(offsets@[n - 1] as int) + items.subrange(
            offsets@[n - 1] as int,
            offsets@[n] as int,
        ) =~= items.take(offsets@[n] as int));
    } else {
        assert(items.take(0) =~= Seq::<T>::empty());
    }
}

/// Offsets after pushing chunks of the lengths `lens`, in order, onto
/// [`ChunkOffsets::new`]: each push adds the end of the last chunk plus the
/// new length (see [`ChunkOffsets::push_chunk`]).
pub open spec fn offsets_of_lengths(lens: Seq<usize>) -> Seq<usize>
    decreases lens.len(),
{
    if lens.len() == 0 {
        seq![0usize]
    } else {
        let prev = offsets_of_lengths(lens.drop_last());
        prev.push((prev.last() + lens.last()) as usize)
    }
}

/// Sum of the lengths `lens`.
pub open spec fn lengths_sum(lens: Seq<usize>) -> int
    decreases lens.len(),
{
    if lens.len() == 0 {
        0
    } else {
        lengths_sum(lens.drop_last()) + lens.last()
    }
}

proof fn lemma_lengths_sum_prefix(lens: Seq<usize>, i: int)
    requires
        0 <= i <= lens.len(),
    ensures
        0 <= lengths_sum(lens.take(i)) <= lengths_sum(lens),
    decreases lens.len(),
{
    if lens.len() > 0 {
        let n = lens.len() as int;
        if i == n {
            lemma_lengths_sum_prefix(lens.drop_last(), n - 1);
            assert(lens.drop_last().take(n - 1) =~= lens.drop_last());
            assert(lens.take(i) =~= lens);
        } else {
            lemma_lengths_sum_prefix(lens.drop_last(), i);
            assert(lens.drop_last().take(i) =~= lens.take(i));
        }
    } else {
        assert(lens.take(i) =~= lens);
    }
}

proof fn lemma_offsets_of_lengths_entries(lens: Seq<usize>)
    requires
        lengths_sum(lens) <= usize::MAX,
    ensures
        offsets_of_lengths(lens).len() == lens.len() + 1,
        forall|i: int|
            0 <= i <= lens.len() ==> #[trigger] offsets_of_lengths(lens)[i] == lengths_sum(
                lens.take(i),
            ),
    decreases lens.len(),
{
    if lens.len() > 0 {
        let prev = lens.drop_last();
        lemma_offsets_of_lengths_entries(prev);
        let n = lens.len() as int;
        assert forall|i: int| 0 <= i <= n implies #[trigger] offsets_of_lengths(lens)[i]
            == lengths_sum(lens.take(i)) by {
            if i < n {
                assert(lens.take(i) =~= prev.take(i));
            } else {
                assert(lens.take(i) =~= lens);
                assert(prev.take(n - 1) =~= prev);
            }
        }
    } else {
        assert(lens.take(0) =~= lens);
    }
}

/// Pushing chunks onto new offsets: after the lengths `lens` were pushed
/// onto [`ChunkOffsets::new`] (so that `offsets@ == offsets_of_lengths(lens)`)
/// the offsets are valid and hold exactly `lens.len()` chunks; the `i`-th
/// chunk starts at the sum of the lengths before it and is `lens[i]` long,
/// each chunk starts where the previous one ends, and a chunk of a positive
/// length ends after it starts.
pub proof fn lemma_pushed_chunks(offsets: ChunkOffsets, lens: Seq<usize>)
    requires
        offsets@ == offsets_of_lengths(lens),
        lengths_sum(lens) <= usize::MAX,
        lens.len() < usize::MAX,
    ensures
        offsets.wf(),
        offsets.spec_num_chunks() == lens.len(),
        forall|i: int|
            0 <= i < lens.len() ==> #[trigger] offsets.spec_chunk(i).0 == lengths_sum(lens.take(i))
                && offsets.spec_chunk(i).1 - offsets.spec_chunk(i).0 == lens[i],
        forall|i: int|
            0 < i < lens.len() ==> #[trigger] offsets.spec_chunk(i).0 == offsets.spec_chunk(
                i - 1,
            ).1,
        forall|i: int|
            0 <= i < lens.len() && lens[i] > 0 ==> #[trigger] offsets.spec_chunk(i).0
                < offsets.spec_chunk(i).1,
{
    lemma_offsets_of_lengths_entries(lens);
    let o = offsets@;
    assert forall|i: int| 0 <= i < lens.len() implies #[trigger] lengths_sum(lens.take(i + 1))
        == lengths_sum(lens.take(i)) + lens[i] by {
        assert(lens.take(i + 1).drop_last() =~= lens.take(i));
    }
    assert forall|i: int, j: int| 0 <= i <= j < o.len() implies o[i] <= o[j] by {
        lemma_lengths_sum_prefix(lens.take(j), i);
        assert(lens.take(j).take(i) =~= lens.take(i));
    }
    assert(o[0] == 0) by {
        assert(lens.take(0) =~= Seq::<usize>::empty());
    }
}

/// Walking the chunks: successive calls of `next` on [`ChunkOffsets::iter`]
/// yield the chunks in order, exactly `spec_num_chunks()` of them, and then
/// `None` for every later call; for valid offsets each yielded chunk starts
/// where the one before it ended.
pub proof fn lemma_iter_walk(offsets: ChunkOffsets, k: int)
    requires
        0 <= k,
    ensures
        k < offsets.spec_num_chunks() ==> offsets.spec_iter_item(k) == Some(offsets.spec_chunk(k)),
        k >= offsets.spec_num_chunks() ==> offsets.spec_iter_item(k) is None,
        offsets.spec_iter_item(k) is None ==> forall|l: int|
            k <= l ==> (#[trigger] offsets.spec_iter_item(l)) is None,
        offsets.wf() && 0 < k < offsets.spec_num_chunks() ==> offsets.spec_iter_item(k).unwrap().0
            == offsets.spec_iter_item(k - 1).unwrap().1,
{
}

} // verus!
