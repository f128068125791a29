use vstd::prelude::*;
use crate::geometry::{
    align_up_spec, checked_align_up, has_granularity_conflict, is_on_same_page,
    lemma_align_up, lemma_align_up_monotone, lemma_past_page, same_page_spec,
};
use crate::types::AllocationType;

verus! {

/// A contiguous span inside a block, free or occupied.
#[derive(Debug, Clone, Copy, PartialEq, Eq, Structural)]
pub struct Chunk {
    /// Offset of the span inside its block.
    pub offset: u64,
    /// Size of the span in bytes.
    pub size: u64,
    /// Whether the span is free.
    pub is_free: bool,
    /// The kind of resource occupying the span; meaningless when free.
    pub allocation_type: AllocationType,
}

/// The first byte after a chunk.
pub open spec fn end_of(c: Chunk) -> int {
    c.offset + c.size
}

/// Two neighbouring occupied chunks of different linearity share no granularity page.
#[verifier::opaque]
pub open spec fn granularity_ok(a: Chunk, b: Chunk, granularity: int) -> bool {
    a.is_free || b.is_free || a.allocation_type.spec_is_linear()
        == b.allocation_type.spec_is_linear() || !same_page_spec(
        a.offset as int,
        a.size as int,
        b.offset as int,
        granularity,
    )
}

/// What must hold between a chunk and the chunk that follows it.
pub open spec fn pair_ok(a: Chunk, b: Chunk, granularity: int) -> bool {
    &&& end_of(a) == b.offset
    &&& !(a.is_free && b.is_free)
    &&& granularity_ok(a, b, granularity)
}

/// The chunk at `i` and the one after it are well placed.
pub open spec fn pair_at(s: Seq<Chunk>, i: int, granularity: int) -> bool {
    pair_ok(s[i], s[i + 1], granularity)
}

/// Every chunk is non-empty and each neighbouring pair is well placed.
pub open spec fn chain_ok(s: Seq<Chunk>, granularity: int) -> bool {
    &&& forall|i: int| 0 <= i < s.len() ==> #[trigger] s[i].size > 0
    &&& forall|i: int| 0 <= i < s.len() - 1 ==> #[trigger] pair_at(s, i, granularity)
}

/// The chunks cover `[start, end)` with no gap and no overlap.
pub open spec fn tiles(s: Seq<Chunk>, start: int, end: int) -> bool {
    &&& s.len() >= 1
    &&& s[0].offset == start
    &&& end_of(s.last()) == end
    &&& forall|i: int| 0 <= i < s.len() ==> #[trigger] end_of(s[i]) <= end
}

/// The chunks `s` with the ones in `[lo, hi)` replaced by `p`.
pub open spec fn splice(s: Seq<Chunk>, lo: int, hi: int, p: Seq<Chunk>) -> Seq<Chunk> {
    s.subrange(0, lo) + p + s.subrange(hi, s.len() as int)
}

/// Where each chunk of a splice comes from.
proof fn lemma_splice_index(s: Seq<Chunk>, lo: int, hi: int, p: Seq<Chunk>)
    requires
        0 <= lo <= hi <= s.len(),
    ensures
        splice(s, lo, hi, p).len() == s.len() - (hi - lo) + p.len(),
        forall|i: int|
            0 <= i < lo ==> #[trigger] splice(s, lo, hi, p)[i] == s[i],
        forall|i: int|
            lo <= i < lo + p.len() ==> #[trigger] splice(s, lo, hi, p)[i] == p[i - lo],
        forall|i: int|
            lo + p.len() <= i < s.len() - (hi - lo) + p.len() ==> #[trigger] splice(s, lo, hi, p)[i]
                == s[i - lo - p.len() + hi],
{
    let a = s.subrange(0, lo);
    let b = s.subrange(hi, s.len() as int);
    assert forall|i: int| 0 <= i < lo implies #[trigger] splice(s, lo, hi, p)[i] == s[i] by {
        assert((a + p)[i] == a[i]);
    }
    assert forall|i: int| lo <= i < lo + p.len() implies #[trigger] splice(s, lo, hi, p)[i] == p[i
        - lo] by {
        assert((a + p)[i] == p[i - lo]);
    }
}

/// Replacing a run of chunks by a run that tiles the same span, and that fits its new
/// neighbours, keeps the whole sequence tiling and well placed.
pub proof fn lemma_splice(s: Seq<Chunk>, lo: int, hi: int, p: Seq<Chunk>, size: int, g: int)
    requires
        tiles(s, 0, size),
        chain_ok(s, g),
        0 <= lo < hi <= s.len(),
        tiles(p, s[lo].offset as int, end_of(s[hi - 1])),
        chain_ok(p, g),
        lo > 0 ==> pair_ok(s[lo - 1], p[0], g),
        hi < s.len() ==> pair_ok(p.last(), s[hi], g),
    ensures
        tiles(splice(s, lo, hi, p), 0, size),
        chain_ok(splice(s, lo, hi, p), g),
        splice(s, lo, hi, p).len() == s.len() - (hi - lo) + p.len(),
{
    lemma_splice_index(s, lo, hi, p);
    let r = splice(s, lo, hi, p);
    let n = p.len();
    assert(end_of(s[hi - 1]) <= size);
    assert forall|i: int| 0 <= i < r.len() implies #[trigger] r[i].size > 0 && end_of(r[i])
        <= size by {
        if i < lo {
            assert(r[i] == s[i]);
        } else if i < lo + n {
            assert(r[i] == p[i - lo]);
        } else {
            assert(r[i] == s[i - lo - n + hi]);
        }
    }
    assert forall|i: int| 0 <= i < r.len() - 1 implies #[trigger] pair_at(r, i, g) by {
        if i < lo - 1 {
            assert(r[i] == s[i] && r[i + 1] == s[i + 1]);
            assert(pair_at(s, i, g));
        } else if i == lo - 1 {
            assert(r[i] == s[i] && r[i + 1] == p[0]);
        } else if i < lo + n - 1 {
            assert(r[i] == p[i - lo] && r[i + 1] == p[i - lo + 1]);
            assert(pair_at(p, i - lo, g));
        } else if i == lo + n - 1 {
            assert(r[i] == p[n - 1] && r[i + 1] == s[hi]);
        } else {
            assert(r[i] == s[i - lo - n + hi] && r[i + 1] == s[i - lo - n + hi + 1]);
            assert(pair_at(s, i - lo - n + hi, g));
        }
    }
    if lo == 0 {
        assert(r[0] == p[0]);
    } else {
        assert(r[0] == s[0]);
    }
    if hi == s.len() {
        assert(r.last() == p[n - 1]);
    } else {
        assert(r.last() == s.last());
    }
}

/// Where a request of `alignment` and linearity `is_linear` would start inside chunk `i`:
/// the chunk's offset rounded up to the alignment, pushed past the granularity page of
/// the previous chunk when the two resources would conflict there.
pub open spec fn start_in(s: Seq<Chunk>, i: int, alignment: int, is_linear: bool, g: int) -> int {
    let start = align_up_spec(s[i].offset as int, alignment);
    if i > 0 && !s[i - 1].is_free && s[i - 1].allocation_type.spec_is_linear() != is_linear
        && same_page_spec(s[i - 1].offset as int, s[i - 1].size as int, start, g) {
        align_up_spec(align_up_spec(s[i].offset as int, g), alignment)
    } else {
        start
    }
}

/// Whether chunk `i` can hold `size` bytes at its placement without sharing a
/// granularity page with a conflicting next chunk.
pub open spec fn fits_in(s: Seq<Chunk>, i: int, size: int, alignment: int, is_linear: bool,
    g: int) -> bool {
    let start = start_in(s, i, alignment, is_linear, g);
    &&& 0 <= i < s.len()
    &&& s[i].is_free
    &&& size > 0
    &&& start + size <= end_of(s[i])
    &&& !(i + 1 < s.len() && !s[i + 1].is_free && s[i + 1].allocation_type.spec_is_linear()
        != is_linear && same_page_spec(start, size, s[i + 1].offset as int, g))
}

/// The chunks that replace free chunk `c` when `[start, start + size)` is occupied by a
/// resource of type `ty`: a free head before `start`, if any, the occupied chunk, and a
/// free tail after it, if any.
pub open spec fn pieces(c: Chunk, start: int, size: int, ty: AllocationType) -> Seq<Chunk> {
    let head = if start > c.offset {
        seq![Chunk { offset: c.offset, size: (start - c.offset) as u64, is_free: true,
            allocation_type: c.allocation_type }]
    } else {
        Seq::empty()
    };
    let tail = if start + size < end_of(c) {
        seq![Chunk { offset: (start + size) as u64, size: (end_of(c) - start - size) as u64,
            is_free: true, allocation_type: c.allocation_type }]
    } else {
        Seq::empty()
    };
    head + seq![Chunk { offset: start as u64, size: size as u64, is_free: false,
        allocation_type: ty }] + tail
}

/// Occupying part of a free chunk keeps the block tiled and well placed.
proof fn lemma_occupy(s: Seq<Chunk>, i: int, start: int, size: int, alignment: int,
    ty: AllocationType, g: int, bsize: int)
    requires
        tiles(s, 0, bsize),
        chain_ok(s, g),
        bsize <= u64::MAX,
        g > 0,
        alignment > 0,
        fits_in(s, i, size, alignment, ty.spec_is_linear(), g),
        start == start_in(s, i, alignment, ty.spec_is_linear(), g),
    ensures
        tiles(splice(s, i, i + 1, pieces(s[i], start, size, ty)), 0, bsize),
        chain_ok(splice(s, i, i + 1, pieces(s[i], start, size, ty)), g),
        occupied_sum(splice(s, i, i + 1, pieces(s[i], start, size, ty))) == occupied_sum(s) + size,
{
    let c = s[i];
    let n = s.len() as int;
    let p = pieces(c, start, size, ty);
    let occ = Chunk { offset: start as u64, size: size as u64, is_free: false,
        allocation_type: ty };
    let head = Chunk { offset: c.offset, size: (start - c.offset) as u64, is_free: true,
        allocation_type: c.allocation_type };
    let tail = Chunk { offset: (start + size) as u64, size: (end_of(c) - start - size) as u64,
        is_free: true, allocation_type: c.allocation_type };
    assert(end_of(s[i]) <= bsize);
    lemma_align_up(c.offset as int, alignment);
    lemma_align_up(c.offset as int, g);
    lemma_align_up(align_up_spec(c.offset as int, g), alignment);
    lemma_align_up_monotone(c.offset as int, align_up_spec(c.offset as int, g), alignment);
    assert(start >= c.offset);
    reveal(granularity_ok);
    if i > 0 {
        assert(pair_at(s, i - 1, g));
    }
    if i < n - 1 {
        assert(pair_at(s, i, g));
    }
    if start > c.offset && start + size < end_of(c) {
        assert(p =~= seq![head, occ, tail]);
        assert(pair_at(p, 0, g));
        assert(pair_at(p, 1, g));
    } else if start > c.offset {
        assert(p =~= seq![head, occ]);
        assert(pair_at(p, 0, g));
    } else if start + size < end_of(c) {
        assert(p =~= seq![occ, tail]);
        assert(pair_at(p, 0, g));
    } else {
        assert(p =~= seq![occ]);
    }
    assert(chain_ok(p, g));
    assert(tiles(p, c.offset as int, end_of(c)));
    if i > 0 && start == c.offset {
        let prev = s[i - 1];
        if !prev.is_free && prev.allocation_type.spec_is_linear() != ty.spec_is_linear()
            && same_page_spec(prev.offset as int, prev.size as int, align_up_spec(c.offset as int,
                alignment), g) {
            lemma_past_page(end_of(prev), start, g);
        }
    }
    lemma_splice(s, i, i + 1, p, bsize, g);
    lemma_occupied_sum_occupy(s, i, start, size, ty);
}

/// First index of the run of chunks that freeing chunk `i` merges into one.
pub open spec fn merge_lo(s: Seq<Chunk>, i: int) -> int {
    if i > 0 && s[i - 1].is_free {
        i - 1
    } else {
        i
    }
}

/// One past the last index of the run of chunks that freeing chunk `i` merges into one.
pub open spec fn merge_hi(s: Seq<Chunk>, i: int) -> int {
    if i + 1 < s.len() && s[i + 1].is_free {
        i + 2
    } else {
        i + 1
    }
}

/// The free chunk that freeing chunk `i` leaves: it spans chunk `i` and its free neighbours.
pub open spec fn merged(s: Seq<Chunk>, i: int) -> Chunk {
    let lo = merge_lo(s, i);
    let hi = merge_hi(s, i);
    Chunk {
        offset: s[lo].offset,
        size: (end_of(s[hi - 1]) - s[lo].offset) as u64,
        is_free: true,
        allocation_type: AllocationType::Buffer,
    }
}

/// The chunks after chunk `i` is freed and merged with its free neighbours.
pub open spec fn released(s: Seq<Chunk>, i: int) -> Seq<Chunk> {
    splice(s, merge_lo(s, i), merge_hi(s, i), seq![merged(s, i)])
}

/// Whether chunk `i` is the occupied chunk at `offset` of `size` bytes.
pub open spec fn is_occupied_at(s: Seq<Chunk>, i: int, offset: u64, size: u64) -> bool {
    0 <= i < s.len() && s[i].offset == offset && s[i].size == size && !s[i].is_free
}

/// Freeing an occupied chunk and merging it with its free neighbours keeps the block
/// tiled and well placed.
proof fn lemma_release(s: Seq<Chunk>, i: int, g: int, bsize: int)
    requires
        tiles(s, 0, bsize),
        chain_ok(s, g),
        bsize <= u64::MAX,
        0 <= i < s.len(),
        !s[i].is_free,
    ensures
        tiles(released(s, i), 0, bsize),
        chain_ok(released(s, i), g),
{
    let n = s.len() as int;
    let lo = merge_lo(s, i);
    let hi = merge_hi(s, i);
    let m = merged(s, i);
    reveal(granularity_ok);
    assert(end_of(s[hi - 1]) <= bsize);
    if i > 0 {
        assert(pair_at(s, i - 1, g));
    }
    if i < n - 1 {
        assert(pair_at(s, i, g));
    }
    if lo > 0 {
        assert(pair_at(s, lo - 1, g));
    }
    if hi < n {
        assert(pair_at(s, hi - 1, g));
    }
    assert(s[i].size > 0);
    assert(chain_ok(seq![m], g));
    lemma_splice(s, lo, hi, seq![m], bsize, g);
}

/// The total size of the occupied chunks.
pub open spec fn occupied_sum(s: Seq<Chunk>) -> int
    decreases s.len(),
{
    if s.len() == 0 {
        0
    } else {
        occupied_sum(s.drop_last()) + if s.last().is_free {
            0int
        } else {
            s.last().size as int
        }
    }
}

/// The occupied total of two runs of chunks is the sum of their totals.
pub proof fn lemma_occupied_sum_concat(a: Seq<Chunk>, b: Seq<Chunk>)
    ensures
        occupied_sum(a + b) == occupied_sum(a) + occupied_sum(b),
    decreases b.len(),
{
    if b.len() == 0 {
        assert(a + b =~= a);
    } else {
        assert((a + b).drop_last() =~= a + b.drop_last());
        lemma_occupied_sum_concat(a, b.drop_last());
    }
}

/// The occupied total of a splice: what was taken out is subtracted, what was put in added.
pub proof fn lemma_occupied_sum_splice(s: Seq<Chunk>, lo: int, hi: int, p: Seq<Chunk>)
    requires
        0 <= lo <= hi <= s.len(),
    ensures
        occupied_sum(splice(s, lo, hi, p)) == occupied_sum(s) - occupied_sum(s.subrange(lo, hi))
            + occupied_sum(p),
{
    let a = s.subrange(0, lo);
    let m = s.subrange(lo, hi);
    let b = s.subrange(hi, s.len() as int);
    assert(s =~= a + m + b);
    lemma_occupied_sum_concat(a + m, b);
    lemma_occupied_sum_concat(a, m);
    lemma_occupied_sum_concat(a + p, b);
    lemma_occupied_sum_concat(a, p);
}

/// The occupied chunks of a tiled, well placed run take no more than its span.
pub proof fn lemma_occupied_sum_bound(s: Seq<Chunk>, start: int, end: int, g: int)
    requires
        s.len() >= 1,
        s[0].offset == start,
        end_of(s.last()) == end,
        chain_ok(s, g),
    ensures
        0 <= occupied_sum(s) <= end - start,
    decreases s.len(),
{
    let n = s.len() as int;
    if n == 1 {
        assert(s.drop_last() =~= Seq::<Chunk>::empty());
        assert(occupied_sum(s.drop_last()) == 0);
        assert(s[0].size > 0);
    } else {
        let d = s.drop_last();
        assert(pair_at(s, n - 2, g));
        assert(s[n - 1].size > 0);
        assert(d.last() == s[n - 2] && d[0] == s[0]);
        assert forall|i: int| 0 <= i < d.len() - 1 implies #[trigger] pair_at(d, i, g) by {
            assert(pair_at(s, i, g));
        }
        assert forall|i: int| 0 <= i < d.len() implies #[trigger] d[i].size > 0 by {
            assert(s[i].size > 0);
        }
        lemma_occupied_sum_bound(d, start, end_of(s[n - 2]), g);
    }
}

/// Occupying part of a free chunk adds exactly the request to the occupied total.
pub proof fn lemma_occupied_sum_occupy(s: Seq<Chunk>, i: int, start: int, size: int,
    ty: AllocationType)
    requires
        0 <= i < s.len(),
        s[i].is_free,
        s[i].offset <= start,
        start + size <= end_of(s[i]),
        0 < size,
        start + size <= u64::MAX,
    ensures
        occupied_sum(splice(s, i, i + 1, pieces(s[i], start, size, ty))) == occupied_sum(s) + size,
{
    let c = s[i];
    let p = pieces(c, start, size, ty);
    lemma_occupied_sum_splice(s, i, i + 1, p);
    assert(s.subrange(i, i + 1).drop_last() =~= Seq::<Chunk>::empty());
    let occ = Chunk { offset: start as u64, size: size as u64, is_free: false,
        allocation_type: ty };
    let head = Chunk { offset: c.offset, size: (start - c.offset) as u64, is_free: true,
        allocation_type: c.allocation_type };
    let tail = Chunk { offset: (start + size) as u64, size: (end_of(c) - start - size) as u64,
        is_free: true, allocation_type: c.allocation_type };
    assert(seq![occ].drop_last() =~= Seq::<Chunk>::empty());
    assert(seq![head, occ].drop_last() =~= seq![head]);
    assert(seq![head].drop_last() =~= Seq::<Chunk>::empty());
    assert(seq![occ, tail].drop_last() =~= seq![occ]);
    assert(seq![head, occ, tail].drop_last() =~= seq![head, occ]);
    assert(occupied_sum(Seq::<Chunk>::empty()) == 0);
    assert(occupied_sum(s.subrange(i, i + 1)) == 0);
    assert(occupied_sum(seq![head]) == 0);
    assert(occupied_sum(seq![occ]) == size);
    assert(occupied_sum(seq![head, occ]) == size);
    assert(occupied_sum(seq![occ, tail]) == size);
    assert(occupied_sum(seq![head, occ, tail]) == size);
    if start > c.offset && start + size < end_of(c) {
        assert(p =~= seq![head, occ, tail]);
    } else if start > c.offset {
        assert(p =~= seq![head, occ]);
    } else if start + size < end_of(c) {
        assert(p =~= seq![occ, tail]);
    } else {
        assert(p =~= seq![occ]);
    }
}

/// Freeing an occupied chunk takes exactly its size off the occupied total.
pub proof fn lemma_occupied_sum_release(s: Seq<Chunk>, i: int, g: int)
    requires
        0 <= i < s.len(),
        !s[i].is_free,
    ensures
        occupied_sum(released(s, i)) == occupied_sum(s) - s[i].size,
{
    let lo = merge_lo(s, i);
    let hi = merge_hi(s, i);
    lemma_occupied_sum_splice(s, lo, hi, seq![merged(s, i)]);
    assert(seq![merged(s, i)].drop_last() =~= Seq::<Chunk>::empty());
    let m = s.subrange(lo, hi);
    let e = Seq::<Chunk>::empty();
    assert(occupied_sum(e) == 0);
    assert(occupied_sum(seq![merged(s, i)]) == 0);
    if lo < i && hi > i + 1 {
        assert(m =~= seq![s[i - 1], s[i], s[i + 1]]);
        assert(m.drop_last() =~= seq![s[i - 1], s[i]]);
        assert(seq![s[i - 1], s[i]].drop_last() =~= seq![s[i - 1]]);
        assert(seq![s[i - 1]].drop_last() =~= e);
        assert(occupied_sum(seq![s[i - 1]]) == 0);
        assert(occupied_sum(seq![s[i - 1], s[i]]) == s[i].size);
    } else if lo < i {
        assert(m =~= seq![s[i - 1], s[i]]);
        assert(m.drop_last() =~= seq![s[i - 1]]);
        assert(seq![s[i - 1]].drop_last() =~= e);
        assert(occupied_sum(seq![s[i - 1]]) == 0);
    } else if hi > i + 1 {
        assert(m =~= seq![s[i], s[i + 1]]);
        assert(m.drop_last() =~= seq![s[i]]);
        assert(seq![s[i]].drop_last() =~= e);
        assert(occupied_sum(seq![s[i]]) == s[i].size);
    } else {
        assert(m =~= seq![s[i]]);
        assert(m.drop_last() =~= e);
    }
}

/// A well placed run with no occupied bytes is all free, so it is a single chunk.
pub proof fn lemma_unoccupied_is_single(s: Seq<Chunk>, g: int)
    requires
        s.len() >= 1,
        chain_ok(s, g),
        occupied_sum(s) == 0,
    ensures
        s.len() == 1,
        s[0].is_free,
{
    lemma_unoccupied_all_free(s, g);
    if s.len() > 1 {
        assert(pair_at(s, 0, g));
    }
}

/// A run of non-empty chunks with no occupied bytes holds only free chunks.
proof fn lemma_unoccupied_all_free(s: Seq<Chunk>, g: int)
    requires
        chain_ok(s, g),
        occupied_sum(s) == 0,
    ensures
        forall|i: int| 0 <= i < s.len() ==> #[trigger] s[i].is_free,
    decreases s.len(),
{
    if s.len() > 0 {
        let d = s.drop_last();
        assert forall|i: int| 0 <= i < d.len() - 1 implies #[trigger] pair_at(d, i, g) by {
            assert(pair_at(s, i, g));
        }
        assert forall|i: int| 0 <= i < d.len() implies #[trigger] d[i].size > 0 by {
            assert(s[i].size > 0);
        }
        lemma_occupied_sum_nonneg(d);
        assert(s[s.len() - 1].size > 0);
        lemma_unoccupied_all_free(d, g);
        assert forall|i: int| 0 <= i < s.len() implies #[trigger] s[i].is_free by {
            if i < s.len() - 1 {
                assert(s[i] == d[i]);
            }
        }
    }
}

/// The occupied total is never negative.
pub proof fn lemma_occupied_sum_nonneg(s: Seq<Chunk>)
    ensures
        occupied_sum(s) >= 0,
    decreases s.len(),
{
    if s.len() > 0 {
        lemma_occupied_sum_nonneg(s.drop_last());
    }
}

/// One device memory block and the chunks that tile it.
#[derive(Debug, Clone)]
pub struct Block {
    /// Raw handle of the device memory block.
    pub memory: u64,
    /// Size of the block in bytes.
    pub size: u64,
    /// The memory type the block was allocated from.
    pub memory_type_index: usize,
    /// Whether the block is mapped into host memory.
    pub mappable: bool,
    /// The chunks, in order of offset.
    pub chunks: Vec<Chunk>,
}

impl Block {
    /// The chunks tile the block, none is empty, no two free chunks are neighbours, and
    /// no two neighbouring occupied chunks of different linearity share a page.
    pub open spec fn wf(&self, g: int) -> bool {
        &&& tiles(self.chunks@, 0, self.size as int)
        &&& chain_ok(self.chunks@, g)
    }

    /// A block whose whole span is one free chunk.
    pub fn new(memory: u64, size: u64, memory_type_index: usize, mappable: bool) -> (r: Self)
        requires
            size > 0,
        ensures
            r.memory == memory,
            r.size == size,
            r.memory_type_index == memory_type_index,
            r.mappable == mappable,
            r.chunks@ == seq![Chunk { offset: 0, size, is_free: true,
                allocation_type: AllocationType::Buffer }],
            forall|g: int| #[trigger] r.wf(g),
    {
        let mut chunks: Vec<Chunk> = Vec::new();
        chunks.push(Chunk { offset: 0, size, is_free: true,
            allocation_type: AllocationType::Buffer });
        Block { memory, size, memory_type_index, mappable, chunks }
    }

    /// Where chunk `i` would hold a request, if it can.
    pub fn placement_in(&self, i: usize, size: u64, alignment: u64, is_linear: bool,
        g: u64) -> (r: Option<u64>)
        requires
            self.wf(g as int),
            g > 0,
            alignment > 0,
            i < self.chunks@.len(),
        ensures
            match r {
                Some(start) => fits_in(self.chunks@, i as int, size as int, alignment as int,
                    is_linear, g as int)
                    && start == start_in(self.chunks@, i as int, alignment as int, is_linear,
                        g as int),
                None => !fits_in(self.chunks@, i as int, size as int, alignment as int, is_linear,
                    g as int),
            },
    {
        let s = Ghost(self.chunks@);
        let c = self.chunks[i];
        if !c.is_free || size == 0 || size > c.size {
            return None;
        }
        proof {
            lemma_align_up(c.offset as int, alignment as int);
            lemma_align_up(c.offset as int, g as int);
            lemma_align_up(align_up_spec(c.offset as int, g as int), alignment as int);
            lemma_align_up_monotone(
                c.offset as int,
                align_up_spec(c.offset as int, g as int),
                alignment as int,
            );
            assert(end_of(s@[i as int]) <= self.size);
            if i > 0 {
                assert(pair_at(s@, i - 1, g as int));
            }
        }
        let mut start = match checked_align_up(c.offset, alignment) {
            Some(v) => v,
            None => return None,
        };
        if i > 0 {
            let prev = self.chunks[i - 1];
            if !prev.is_free && has_granularity_conflict(prev.allocation_type.is_linear(),
                is_linear)
                && is_on_same_page(prev.offset, prev.size, start, g) {
                let pushed = match checked_align_up(c.offset, g) {
                    Some(v) => v,
                    None => return None,
                };
                start = match checked_align_up(pushed, alignment) {
                    Some(v) => v,
                    None => return None,
                };
            }
        }
        let end = c.offset + c.size;
        if start > end || size > end - start {
            return None;
        }
        if i < self.chunks.len() - 1 {
            let next = self.chunks[i + 1];
            if !next.is_free && has_granularity_conflict(next.allocation_type.is_linear(),
                is_linear)
                && is_on_same_page(start, size, next.offset, g) {
                return None;
            }
        }
        Some(start)
    }

    /// Occupies `[start, start + size)` inside free chunk `i` with a resource of type `ty`,
    /// leaving free chunks before and after it where space remains.
    pub fn occupy(&mut self, i: usize, start: u64, size: u64, alignment: u64, ty: AllocationType,
        g: u64)
        requires
            old(self).wf(g as int),
            g > 0,
            alignment > 0,
            fits_in(old(self).chunks@, i as int, size as int, alignment as int, ty.spec_is_linear(),
                g as int),
            start == start_in(old(self).chunks@, i as int, alignment as int, ty.spec_is_linear(),
                g as int),
        ensures
            final(self).wf(g as int),
            final(self).memory == old(self).memory,
            final(self).size == old(self).size,
            final(self).memory_type_index == old(self).memory_type_index,
            final(self).mappable == old(self).mappable,
            final(self).chunks@ == splice(
                old(self).chunks@,
                i as int,
                i + 1,
                pieces(old(self).chunks@[i as int], start as int, size as int, ty),
            ),
            occupied_sum(final(self).chunks@) == occupied_sum(old(self).chunks@) + size,
    {
        let ghost s = self.chunks@;
        let len = self.chunks.len();
        let c = self.chunks[i];
        let end = c.offset + c.size;
        let occupied = Chunk { offset: start, size, is_free: false, allocation_type: ty };
        let ghost p = pieces(c, start as int, size as int, ty);
        proof {
            lemma_occupy(s, i as int, start as int, size as int, alignment as int, ty, g as int,
                self.size as int);
        }
        self.chunks[i] = occupied;
        assert(self.chunks@.len() == len);
        if start + size < end {
            let tail = Chunk { offset: start + size, size: end - start - size, is_free: true,
                allocation_type: c.allocation_type };
            self.chunks.insert(i + 1, tail);
        }
        if start > c.offset {
            let head = Chunk { offset: c.offset, size: start - c.offset, is_free: true,
                allocation_type: c.allocation_type };
            self.chunks.insert(i, head);
        }
        assert(self.chunks@ =~= splice(s, i as int, i + 1, p));
    }

    /// Frees the occupied chunk at `offset` of `size` bytes and merges it with its free
    /// neighbours. Returns false, and changes nothing, when no such chunk exists.
    pub fn release(&mut self, offset: u64, size: u64, g: u64) -> (r: bool)
        requires
            old(self).wf(g as int),
        ensures
            final(self).wf(g as int),
            final(self).memory == old(self).memory,
            final(self).size == old(self).size,
            final(self).memory_type_index == old(self).memory_type_index,
            final(self).mappable == old(self).mappable,
            r == exists|i: int| #[trigger] is_occupied_at(old(self).chunks@, i, offset, size),
            r ==> exists|i: int|
                #[trigger] is_occupied_at(old(self).chunks@, i, offset, size) && final(self).chunks@
                    == released(old(self).chunks@, i),
            !r ==> *final(self) == *old(self),
            r ==> occupied_sum(final(self).chunks@) == occupied_sum(old(self).chunks@) - size,
    {
        let ghost s = self.chunks@;
        let n = self.chunks.len();
        let mut i: usize = 0;
        while i < n && !(self.chunks[i].offset == offset && self.chunks[i].size == size
            && !self.chunks[i].is_free)
            invariant
                n == s.len(),
                s == self.chunks@,
                i <= n,
                forall|j: int| 0 <= j < i ==> !#[trigger] is_occupied_at(s, j, offset, size),
            decreases n - i,
        {
            i = i + 1;
        }
        if i == n {
            assert forall|j: int| !#[trigger] is_occupied_at(s, j, offset, size) by {
                if 0 <= j < i {
                }
            }
            return false;
        }
        assert(is_occupied_at(s, i as int, offset, size));
        proof {
            lemma_release(s, i as int, g as int, self.size as int);
            lemma_occupied_sum_release(s, i as int, g as int);
            assert(end_of(s[i as int]) <= self.size);
        }
        let merge_prev = i > 0 && self.chunks[i - 1].is_free;
        let merge_next = i + 1 < n && self.chunks[i + 1].is_free;
        let lo: usize = if merge_prev { i - 1 } else { i };
        let hi: usize = if merge_next { i + 2 } else { i + 1 };
        let start = self.chunks[lo].offset;
        let last = self.chunks[hi - 1];
        proof {
            assert(end_of(s[hi - 1]) <= self.size);
            if merge_prev {
                assert(pair_at(s, i - 1, g as int));
            }
            if merge_next {
                assert(pair_at(s, i as int, g as int));
            }
        }
        let m = Chunk {
            offset: start,
            size: last.offset + last.size - start,
            is_free: true,
            allocation_type: AllocationType::Buffer,
        };
        self.chunks[lo] = m;
        if merge_next {
            self.chunks.remove(lo + 1);
        }
        if merge_prev {
            self.chunks.remove(lo + 1);
        }
        assert(self.chunks@ =~= released(s, i as int));
        true
    }

    /// The offsets of the free chunks, in order: the index of space available for placement.
    pub fn free_chunk_offsets(&self) -> (r: Vec<u64>)
        ensures
            forall|o: u64| r@.contains(o) <==> exists|i: int|
                0 <= i < self.chunks@.len() && #[trigger] self.chunks@[i].offset == o
                    && self.chunks@[i].is_free,
    {
        let mut r: Vec<u64> = Vec::new();
        let mut i: usize = 0;
        while i < self.chunks.len()
            invariant
                i <= self.chunks@.len(),
                forall|o: u64| r@.contains(o) <==> exists|j: int|
                    0 <= j < i && #[trigger] self.chunks@[j].offset == o && self.chunks@[j].is_free,
            decreases self.chunks@.len() - i,
        {
            let c = self.chunks[i];
            let ghost before = r@;
            if c.is_free {
                r.push(c.offset);
            }
            assert forall|o: u64| r@.contains(o) <==> exists|j: int|
                0 <= j < i + 1 && #[trigger] self.chunks@[j].offset == o
                    && self.chunks@[j].is_free by {
                if c.is_free && o == c.offset {
                    assert(r@[r@.len() - 1] == o);
                }
                if r@.contains(o) && !(c.is_free && o == c.offset) {
                    let k = choose|k: int| 0 <= k < r@.len() && r@[k] == o;
                    assert(before[k] == o);
                    assert(before.contains(o));
                }
                if before.contains(o) {
                    let k = choose|k: int| 0 <= k < before.len() && before[k] == o;
                    assert(r@[k] == o);
                }
            }
            i = i + 1;
        }
        r
    }
}

} // verus!
