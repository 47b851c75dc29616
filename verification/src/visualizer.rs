//! The staged playback schedule: the settled cells are marked in fixed-size
//! batches, each batch applied as one unit and followed by a fixed delay, so
//! the search replays as a wave; the path cells follow in a single pass.
//!
//! This module computes the batches; the shell applies them to the grid
//! surface, sleeping between batches, and then marks the path cells in
//! order, so every cell is shown strictly in visit order and the path
//! strictly after the last batch.

use vstd::prelude::*;

verus! {

/// How many settled cells one playback batch holds.
pub const VISIT_BATCH_SIZE: usize = 10;

/// How long playback pauses after each batch, in milliseconds.
pub const BATCH_DELAY_MS: u32 = 5;

/// The end of the batch that starts at `lo`, over a sequence of `len` cells.
pub open spec fn batch_end(lo: int, len: int) -> int {
    if lo + VISIT_BATCH_SIZE as int <= len {
        lo + VISIT_BATCH_SIZE as int
    } else {
        len
    }
}

/// Splits the visit order into consecutive batches of `VISIT_BATCH_SIZE`
/// cells; the final batch holds the remainder. Batch `i` is exactly the
/// cells from position `10 * i` on, so concatenating the batches in order
/// restores the visit order.
pub fn build_visit_batches(traversed_nodes: &Vec<usize>) -> (r: Vec<Vec<usize>>)
    ensures
        traversed_nodes@.len() == 0 ==> r@.len() == 0,
        traversed_nodes@.len() > 0 ==> r@.len() == (traversed_nodes@.len() as int + VISIT_BATCH_SIZE
            - 1) / (VISIT_BATCH_SIZE as int),
        forall|i: int|
            0 <= i < r@.len() ==> (#[trigger] r@[i])@ == traversed_nodes@.subrange(
                i * (VISIT_BATCH_SIZE as int),
                batch_end(i * (VISIT_BATCH_SIZE as int), traversed_nodes@.len() as int),
            ),
{
    let n = traversed_nodes.len();
    let mut batches: Vec<Vec<usize>> = Vec::new();
    let mut lo: usize = 0;
    while lo < n
        invariant
            n == traversed_nodes@.len(),
            lo <= n,
            lo < n ==> lo % VISIT_BATCH_SIZE == 0 && batches@.len() == lo as int / (
            VISIT_BATCH_SIZE as int),
            lo == n ==> (n == 0 && batches@.len() == 0) || (n > 0 && batches@.len() == (
            n as int + VISIT_BATCH_SIZE - 1) / (VISIT_BATCH_SIZE as int)),
            forall|i: int|
                0 <= i < batches@.len() ==> (#[trigger] batches@[i])@ == traversed_nodes@.subrange(
                    i * (VISIT_BATCH_SIZE as int),
                    batch_end(i * (VISIT_BATCH_SIZE as int), n as int),
                ),
        decreases n - lo,
    {
        let hi = if n - lo >= VISIT_BATCH_SIZE {
            lo + VISIT_BATCH_SIZE
        } else {
            n
        };
        let mut batch: Vec<usize> = Vec::new();
        let mut j: usize = lo;
        while j < hi
            invariant
                lo <= j <= hi,
                hi <= n,
                n == traversed_nodes@.len(),
                batch@ == traversed_nodes@.subrange(lo as int, j as int),
            decreases hi - j,
        {
            let x = traversed_nodes[j];
            batch.push(x);
            proof {
                assert(batch@ =~= traversed_nodes@.subrange(lo as int, j + 1));
            }
            j = j + 1;
        }
        batches.push(batch);
        proof {
            let b = VISIT_BATCH_SIZE as int;
            assert(lo as int == (batches@.len() - 1) * b) by (nonlinear_arith)
                requires
                    batches@.len() - 1 == lo as int / b,
                    lo as int % b == 0,
                    b == 10,
                    lo as int == b * (lo as int / b) + lo as int % b,
            ;
            assert(batch_end((batches@.len() - 1) * b, n as int) == hi as int);
            assert forall|i: int|
                0 <= i < batches@.len() implies (#[trigger] batches@[i])@
                == traversed_nodes@.subrange(i * b, batch_end(i * b, n as int)) by {
                if i < batches@.len() - 1 {
                    assert(batches@[i]@ == traversed_nodes@.subrange(
                        i * b,
                        batch_end(i * b, n as int),
                    ));
                }
            }
            if hi < n {
                assert((hi as int) % b == 0) by (nonlinear_arith)
                    requires
                        hi as int == lo as int + b,
                        lo as int % b == 0,
                        b == 10,
                ;
                assert(batches@.len() == hi as int / b) by (nonlinear_arith)
                    requires
                        batches@.len() - 1 == lo as int / b,
                        lo as int % b == 0,
                        hi as int == lo as int + b,
                        b == 10,
                ;
            } else {
                assert(batches@.len() == (n as int + VISIT_BATCH_SIZE - 1) / (
                VISIT_BATCH_SIZE as int))
                    by (nonlinear_arith)
                    requires
                        batches@.len() - 1 == lo as int / (VISIT_BATCH_SIZE as int),
                        lo as int % (VISIT_BATCH_SIZE as int) == 0,
                        lo < n <= hi as int,
                        hi as int <= lo as int + (VISIT_BATCH_SIZE as int),
                        VISIT_BATCH_SIZE == 10,
                        lo as int == 10 * (lo as int / 10) + lo as int % 10,
                ;
            }
        }
        lo = hi;
    }
    batches
}

} // verus!
