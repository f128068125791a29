use vstd::prelude::*;

verus! {

/// The greatest multiple of `alignment` that is at most `offset`.
pub open spec fn align_down_spec(offset: int, alignment: int) -> int {
    offset - offset % alignment
}

/// The least multiple of `alignment` that is at least `offset`.
pub open spec fn align_up_spec(offset: int, alignment: int) -> int {
    if offset % alignment == 0 {
        offset
    } else {
        offset - offset % alignment + alignment
    }
}

/// Whether the last byte of `[offset_lhs, offset_lhs + size_lhs)` and the byte at
/// `offset_rhs` fall in the same `page_size`-sized page; an empty span shares no page.
pub open spec fn same_page_spec(offset_lhs: int, size_lhs: int, offset_rhs: int,
    page_size: int) -> bool {
    size_lhs > 0 && align_down_spec(offset_lhs + size_lhs - 1, page_size) == align_down_spec(
        offset_rhs,
        page_size,
    )
}

pub proof fn lemma_align_down(offset: int, alignment: int)
    requires
        offset >= 0,
        alignment > 0,
    ensures
        0 <= align_down_spec(offset, alignment) <= offset,
        offset - align_down_spec(offset, alignment) < alignment,
        align_down_spec(offset, alignment) % alignment == 0,
        0 <= offset % alignment < alignment,
        offset % alignment <= offset,
{
    assert(0 <= offset % alignment < alignment && offset % alignment <= offset) by (nonlinear_arith)
        requires
            alignment > 0,
            offset >= 0,
    ;
    assert((offset - offset % alignment) % alignment == 0) by (nonlinear_arith)
        requires
            alignment > 0,
    ;
}

pub proof fn lemma_align_up(offset: int, alignment: int)
    requires
        offset >= 0,
        alignment > 0,
    ensures
        offset <= align_up_spec(offset, alignment) < offset + alignment,
        align_up_spec(offset, alignment) % alignment == 0,
        offset % alignment == 0 ==> align_up_spec(offset, alignment) == offset,
{
    lemma_align_down(offset, alignment);
    let d = offset - offset % alignment;
    assert((d + alignment) % alignment == 0) by (nonlinear_arith)
        requires
            d % alignment == 0,
            alignment > 0,
    ;
}

/// `align_up_spec` is the least multiple of `alignment` that is at least `offset`.
pub proof fn lemma_align_up_least(offset: int, alignment: int, m: int)
    requires
        offset >= 0,
        alignment > 0,
        m >= offset,
        m % alignment == 0,
    ensures
        align_up_spec(offset, alignment) <= m,
{
    lemma_align_up(offset, alignment);
    let u = align_up_spec(offset, alignment);
    assert(u <= m) by (nonlinear_arith)
        requires
            u % alignment == 0,
            m % alignment == 0,
            u < offset + alignment,
            offset <= m,
            alignment > 0,
            u >= 0,
    {
        let j = u / alignment;
        let k = m / alignment;
        assert(u == j * alignment);
        assert(m == k * alignment);
        assert(j * alignment < (k + 1) * alignment);
        assert(j < k + 1);
    }
}

/// Rounding up keeps the order of offsets.
pub proof fn lemma_align_up_monotone(x: int, y: int, alignment: int)
    requires
        0 <= x <= y,
        alignment > 0,
    ensures
        align_up_spec(x, alignment) <= align_up_spec(y, alignment),
{
    lemma_align_up(y, alignment);
    lemma_align_up_least(x, alignment, align_up_spec(y, alignment));
}

/// `align_down_spec` is the greatest multiple of `alignment` that is at most `offset`.
pub proof fn lemma_align_down_greatest(offset: int, alignment: int, m: int)
    requires
        offset >= 0,
        alignment > 0,
        0 <= m <= offset,
        m % alignment == 0,
    ensures
        m <= align_down_spec(offset, alignment),
{
    lemma_align_down(offset, alignment);
    let d = align_down_spec(offset, alignment);
    assert(m <= d) by (nonlinear_arith)
        requires
            d % alignment == 0,
            m % alignment == 0,
            offset - d < alignment,
            m <= offset,
            alignment > 0,
            m >= 0,
            d >= 0,
    {
        let j = m / alignment;
        let k = d / alignment;
        assert(m == j * alignment);
        assert(d == k * alignment);
        assert(j * alignment < (k + 1) * alignment);
        assert(j < k + 1);
    }
}

/// A start at or past the page boundary that follows `end` shares no page with the
/// byte just before `end`.
pub proof fn lemma_past_page(end: int, start: int, page_size: int)
    requires
        end >= 1,
        page_size > 0,
        start >= align_up_spec(end, page_size),
    ensures
        align_down_spec(end - 1, page_size) != align_down_spec(start, page_size),
{
    lemma_align_up(end, page_size);
    lemma_align_down(end - 1, page_size);
    lemma_align_down_greatest(start, page_size, align_up_spec(end, page_size));
}

/// Rounds `offset` down to a multiple of `alignment`.
pub fn align_down(offset: u64, alignment: u64) -> (r: u64)
    requires
        alignment > 0,
    ensures
        r == align_down_spec(offset as int, alignment as int),
        r <= offset,
        r % alignment == 0,
{
    proof {
        lemma_align_down(offset as int, alignment as int);
    }
    offset - offset % alignment
}

/// Rounds `offset` up to a multiple of `alignment`; the result must fit in a `u64`.
pub fn align_up(offset: u64, alignment: u64) -> (r: u64)
    requires
        alignment > 0,
        offset + alignment - 1 <= u64::MAX,
    ensures
        r == align_up_spec(offset as int, alignment as int),
        offset <= r,
        r - offset < alignment,
        r % alignment == 0,
{
    proof {
        lemma_align_down(offset as int, alignment as int);
        lemma_align_up(offset as int, alignment as int);
    }
    let rem = offset % alignment;
    if rem == 0 {
        offset
    } else {
        (offset - rem) + alignment
    }
}

/// Rounds `offset` up to a multiple of `alignment`, or `None` when that does not fit in a `u64`.
pub fn checked_align_up(offset: u64, alignment: u64) -> (r: Option<u64>)
    requires
        alignment > 0,
    ensures
        match r {
            Some(v) => v == align_up_spec(offset as int, alignment as int),
            None => align_up_spec(offset as int, alignment as int) > u64::MAX,
        },
{
    proof {
        lemma_align_down(offset as int, alignment as int);
    }
    let rem = offset % alignment;
    if rem == 0 {
        Some(offset)
    } else if alignment - rem > u64::MAX - offset {
        None
    } else {
        Some(offset + (alignment - rem))
    }
}

/// Whether the last byte of the span `[offset_lhs, offset_lhs + size_lhs)` lies on the same
/// page as the byte at `offset_rhs`. An empty span lies on no page.
pub fn is_on_same_page(offset_lhs: u64, size_lhs: u64, offset_rhs: u64, page_size: u64) -> (r: bool)
    requires
        page_size > 0,
        offset_lhs + size_lhs <= u64::MAX,
    ensures
        r == same_page_spec(offset_lhs as int, size_lhs as int, offset_rhs as int,
            page_size as int),
{
    if size_lhs == 0 {
        return false;
    }
    let end_lhs = offset_lhs + size_lhs - 1;
    let end_page_lhs = align_down(end_lhs, page_size);
    let start_page_rhs = align_down(offset_rhs, page_size);
    end_page_lhs == start_page_rhs
}

/// Two neighbouring resources conflict when exactly one of them is linear.
pub fn has_granularity_conflict(lhs_is_linear: bool, rhs_is_linear: bool) -> (r: bool)
    ensures
        r == (lhs_is_linear != rhs_is_linear),
{
    lhs_is_linear != rhs_is_linear
}

} // verus!
