//! One step of the bump allocator, as a function of the cursor it observed,
//! and the laws of a run of requests served one after another.

use crate::align::{align_up, align_up_spec, is_power_of_two};
use vstd::arithmetic::div_mod::{lemma_div_is_ordered, lemma_fundamental_div_mod, lemma_mod_multiples_basic};
use vstd::arithmetic::mul::lemma_mul_inequality;
use vstd::prelude::*;

verus! {

/// The address the search starts from: a cursor below the buffer (the
/// initial one among them) counts as the buffer's first byte.
pub open spec fn effective_cursor(cursor: int, heap_start: int) -> int {
    if cursor < heap_start {
        heap_start
    } else {
        cursor
    }
}

/// Where a block of `size` bytes aligned to `align` starts when the cursor
/// reads `cursor`, or `None` where the block would run past the buffer's end.
pub open spec fn block_at(cursor: int, heap_start: int, heap_size: int, size: int, align: int) -> Option<int> {
    let start = align_up_spec(effective_cursor(cursor, heap_start), align);
    if start + size <= heap_start + heap_size {
        Some(start)
    } else {
        None
    }
}

/// The cursor after serving one request: the block's end on success,
/// unchanged on failure.
pub open spec fn cursor_after(cursor: int, heap_start: int, heap_size: int, size: int, align: int) -> int {
    match block_at(cursor, heap_start, heap_size, size, align) {
        Some(start) => start + size,
        None => cursor,
    }
}

/// The cursor after the requests `(size, align)` of `reqs` were served in
/// order, starting from `cursor`.
pub open spec fn cursor_after_all(cursor: int, heap_start: int, heap_size: int, reqs: Seq<(int, int)>) -> int
    decreases reqs.len(),
{
    if reqs.len() == 0 {
        cursor
    } else {
        let c = cursor_after_all(cursor, heap_start, heap_size, reqs.drop_last());
        cursor_after(c, heap_start, heap_size, reqs.last().0, reqs.last().1)
    }
}

/// What the `i`-th request of `reqs` is given when the requests are served
/// in order, starting from `cursor`.
pub open spec fn grant(cursor: int, heap_start: int, heap_size: int, reqs: Seq<(int, int)>, i: int) -> Option<int> {
    let c = cursor_after_all(cursor, heap_start, heap_size, reqs.take(i));
    block_at(c, heap_start, heap_size, reqs[i].0, reqs[i].1)
}

/// The total size of the requests of `reqs` that were granted.
pub open spec fn granted_total(cursor: int, heap_start: int, heap_size: int, reqs: Seq<(int, int)>) -> int
    decreases reqs.len(),
{
    if reqs.len() == 0 {
        0
    } else {
        let prev = reqs.drop_last();
        let c = cursor_after_all(cursor, heap_start, heap_size, prev);
        granted_total(cursor, heap_start, heap_size, prev) + match block_at(
            c,
            heap_start,
            heap_size,
            reqs.last().0,
            reqs.last().1,
        ) {
            Some(_) => reqs.last().0,
            None => 0,
        }
    }
}

/// Every request asks for a size of zero or more and a positive alignment.
pub open spec fn valid_requests(reqs: Seq<(int, int)>) -> bool {
    forall|i: int| 0 <= i < reqs.len() ==> reqs[i].0 >= 0 && #[trigger] reqs[i].1 > 0
}

/// Rounding up reaches a multiple of `align`, at or above the address, and
/// keeps the order of addresses.
pub proof fn lemma_align_up(x: int, y: int, align: int)
    requires
        align > 0,
        x <= y,
    ensures
        align_up_spec(x, align) % align == 0,
        x <= align_up_spec(x, align),
        align_up_spec(x, align) <= align_up_spec(y, align),
{
    lemma_mod_multiples_basic((x + align - 1) / align, align);
    lemma_fundamental_div_mod(x + align - 1, align);
    lemma_div_is_ordered(x + align - 1, y + align - 1, align);
    lemma_mul_inequality((x + align - 1) / align, (y + align - 1) / align, align);
}

/// A granted block is aligned, lies inside the buffer, and starts at or
/// after the cursor.
pub proof fn lemma_block_in_heap(cursor: int, heap_start: int, heap_size: int, size: int, align: int)
    requires
        align > 0,
        size >= 0,
        block_at(cursor, heap_start, heap_size, size, align) is Some,
    ensures
        ({
            let start = block_at(cursor, heap_start, heap_size, size, align)->Some_0;
            &&& start % align == 0
            &&& heap_start <= start
            &&& cursor <= start
            &&& start + size <= heap_start + heap_size
        }),
{
    let e = effective_cursor(cursor, heap_start);
    lemma_align_up(e, e, align);
}

/// Serving the `i`-th request takes the cursor and the granted total from
/// the prefix before it to the prefix that includes it.
proof fn lemma_step(cursor: int, heap_start: int, heap_size: int, reqs: Seq<(int, int)>, i: int)
    requires
        0 <= i < reqs.len(),
    ensures
        cursor_after_all(cursor, heap_start, heap_size, reqs.take(i + 1)) == cursor_after(
            cursor_after_all(cursor, heap_start, heap_size, reqs.take(i)),
            heap_start,
            heap_size,
            reqs[i].0,
            reqs[i].1,
        ),
        granted_total(cursor, heap_start, heap_size, reqs.take(i + 1)) == granted_total(
            cursor,
            heap_start,
            heap_size,
            reqs.take(i),
        ) + match grant(cursor, heap_start, heap_size, reqs, i) {
            Some(_) => reqs[i].0,
            None => 0,
        },
{
    assert(reqs.take(i + 1).drop_last() =~= reqs.take(i));
    assert(reqs.take(i + 1).last() == reqs[i]);
}

/// The cursor never moves back: after more requests it is at least where it
/// was after fewer.
proof fn lemma_cursor_monotone(
    cursor: int,
    heap_start: int,
    heap_size: int,
    reqs: Seq<(int, int)>,
    i: int,
    j: int,
)
    requires
        valid_requests(reqs),
        0 <= i <= j <= reqs.len(),
    ensures
        cursor_after_all(cursor, heap_start, heap_size, reqs.take(i)) <= cursor_after_all(
            cursor,
            heap_start,
            heap_size,
            reqs.take(j),
        ),
    decreases j - i,
{
    if i < j {
        lemma_cursor_monotone(cursor, heap_start, heap_size, reqs, i, j - 1);
        lemma_step(cursor, heap_start, heap_size, reqs, j - 1);
        let c = cursor_after_all(cursor, heap_start, heap_size, reqs.take(j - 1));
        assert(reqs[j - 1].1 > 0);
        if block_at(c, heap_start, heap_size, reqs[j - 1].0, reqs[j - 1].1) is Some {
            lemma_block_in_heap(c, heap_start, heap_size, reqs[j - 1].0, reqs[j - 1].1);
        }
    }
}

/// The space that the cursor has passed covers every granted byte.
proof fn lemma_used_covers_granted(
    cursor: int,
    heap_start: int,
    heap_size: int,
    reqs: Seq<(int, int)>,
    k: int,
)
    requires
        valid_requests(reqs),
        0 <= k <= reqs.len(),
    ensures
        effective_cursor(cursor_after_all(cursor, heap_start, heap_size, reqs.take(k)), heap_start)
            >= heap_start + granted_total(cursor, heap_start, heap_size, reqs.take(k)),
    decreases k,
{
    if k == 0 {
        assert(reqs.take(0) =~= Seq::<(int, int)>::empty());
    } else {
        lemma_used_covers_granted(cursor, heap_start, heap_size, reqs, k - 1);
        lemma_step(cursor, heap_start, heap_size, reqs, k - 1);
        let c = cursor_after_all(cursor, heap_start, heap_size, reqs.take(k - 1));
        assert(reqs[k - 1].1 > 0);
        if block_at(c, heap_start, heap_size, reqs[k - 1].0, reqs[k - 1].1) is Some {
            lemma_block_in_heap(c, heap_start, heap_size, reqs[k - 1].0, reqs[k - 1].1);
        }
    }
}

/// Blocks granted in a run never overlap: a block granted earlier ends at
/// or before the start of any block granted later.
pub proof fn lemma_grants_disjoint(
    cursor: int,
    heap_start: int,
    heap_size: int,
    reqs: Seq<(int, int)>,
    i: int,
    j: int,
)
    requires
        valid_requests(reqs),
        0 <= i < j < reqs.len(),
        grant(cursor, heap_start, heap_size, reqs, i) is Some,
        grant(cursor, heap_start, heap_size, reqs, j) is Some,
    ensures
        grant(cursor, heap_start, heap_size, reqs, i)->Some_0 + reqs[i].0 <= grant(
            cursor,
            heap_start,
            heap_size,
            reqs,
            j,
        )->Some_0,
{
    let ci = cursor_after_all(cursor, heap_start, heap_size, reqs.take(i));
    let cj = cursor_after_all(cursor, heap_start, heap_size, reqs.take(j));
    assert(reqs[i].1 > 0);
    assert(reqs[j].1 > 0);
    lemma_step(cursor, heap_start, heap_size, reqs, i);
    lemma_block_in_heap(ci, heap_start, heap_size, reqs[i].0, reqs[i].1);
    lemma_cursor_monotone(cursor, heap_start, heap_size, reqs, i + 1, j);
    lemma_block_in_heap(cj, heap_start, heap_size, reqs[j].0, reqs[j].1);
}

/// Once the bytes already granted plus the bytes a request asks for exceed
/// the buffer's size, that request fails.
pub proof fn lemma_demand_exceeds_capacity(
    cursor: int,
    heap_start: int,
    heap_size: int,
    reqs: Seq<(int, int)>,
    k: int,
)
    requires
        valid_requests(reqs),
        0 <= k < reqs.len(),
        granted_total(cursor, heap_start, heap_size, reqs.take(k)) + reqs[k].0 > heap_size,
    ensures
        grant(cursor, heap_start, heap_size, reqs, k) is None,
{
    let c = cursor_after_all(cursor, heap_start, heap_size, reqs.take(k));
    lemma_used_covers_granted(cursor, heap_start, heap_size, reqs, k);
    assert(reqs[k].1 > 0);
    if block_at(c, heap_start, heap_size, reqs[k].0, reqs[k].1) is Some {
        lemma_block_in_heap(c, heap_start, heap_size, reqs[k].0, reqs[k].1);
    }
}

/// A request that failed keeps failing: any later request with the same
/// alignment and at least the same size fails too.
pub proof fn lemma_failure_persists(
    cursor: int,
    heap_start: int,
    heap_size: int,
    reqs: Seq<(int, int)>,
    i: int,
    j: int,
)
    requires
        valid_requests(reqs),
        0 <= i < j < reqs.len(),
        grant(cursor, heap_start, heap_size, reqs, i) is None,
        reqs[j].0 >= reqs[i].0,
        reqs[j].1 == reqs[i].1,
    ensures
        grant(cursor, heap_start, heap_size, reqs, j) is None,
{
    let ci = cursor_after_all(cursor, heap_start, heap_size, reqs.take(i));
    let cj = cursor_after_all(cursor, heap_start, heap_size, reqs.take(j));
    assert(reqs[i].1 > 0);
    lemma_cursor_monotone(cursor, heap_start, heap_size, reqs, i, j);
    lemma_align_up(
        effective_cursor(ci, heap_start),
        effective_cursor(cj, heap_start),
        reqs[i].1,
    );
}

/// Computes `block_at` on machine integers: where a block of `size` bytes
/// aligned to `align` starts when the cursor reads `cursor`.
pub fn next_block(cursor: usize, heap_start: usize, heap_size: usize, size: usize, align: usize) -> (r:
    Option<usize>)
    requires
        is_power_of_two(align),
        heap_start + heap_size <= usize::MAX,
    ensures
        match r {
            Some(start) => block_at(
                cursor as int,
                heap_start as int,
                heap_size as int,
                size as int,
                align as int,
            ) == Some(start as int),
            None => block_at(
                cursor as int,
                heap_start as int,
                heap_size as int,
                size as int,
                align as int,
            ) is None,
        },
{
    let from: usize = if cursor < heap_start {
        heap_start
    } else {
        cursor
    };
    match align_up(from, align) {
        None => None,
        Some(start) => match start.checked_add(size) {
            None => None,
            Some(end) => {
                if end <= heap_start + heap_size {
                    Some(start)
                } else {
                    None
                }
            },
        },
    }
}

/// What a call does once its compare-and-exchange has answered, having read
/// the cursor `seen` and placed its block at `start`: `Ok(Some(start))` when
/// the exchange took; `Err(now)`, retry from `now`, when another thread moved
/// the cursor forward to `now`; `Ok(None)` for a reported cursor at or below
/// the one read, which every write moving the cursor forward rules out and
/// which is therefore not retried.
pub fn after_exchange(seen: usize, start: usize, outcome: Result<usize, usize>) -> (r: Result<
    Option<usize>,
    usize,
>)
    ensures
        match outcome {
            Ok(_) => r == Ok::<Option<usize>, usize>(Some(start)),
            Err(now) => if now > seen {
                r == Err::<Option<usize>, usize>(now)
            } else {
                r == Ok::<Option<usize>, usize>(None)
            },
        },
{
    match outcome {
        Ok(_) => Ok(Some(start)),
        Err(now) => {
            if now > seen {
                Err(now)
            } else {
                Ok(None)
            }
        },
    }
}

} // verus!
