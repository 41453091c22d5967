//! Row-block partition for the parallel map over rows.
//!
//! The tools split `[0, rows)` into contiguous blocks, one per worker;
//! each worker computes its rows and the main thread reassembles them
//! by row index, so the arrival order never matters.  The partition
//! below is what makes that safe: every row lies in exactly one block.

use vstd::prelude::*;

verus! {

/// Ceiling of `rows / workers`: the block length.
pub open spec fn spec_block_len(rows: int, workers: int) -> int {
    rows / workers + if rows % workers == 0 {
        0int
    } else {
        1int
    }
}

/// Splits `[0, rows)` into contiguous blocks of `ceil(rows / workers)`
/// rows, the last block truncated at `rows`.  Every returned block is
/// non-empty, consecutive blocks meet exactly, the first starts at 0
/// and the last ends at `rows`: together these say each row is covered
/// exactly once, whatever the worker count — so the reassembly step
/// writes each output row exactly once and the result is independent
/// of `workers`.
pub fn partition_blocks(rows: usize, workers: usize) -> (blocks: Vec<(usize, usize)>)
    requires
        1 <= workers,
    ensures
        rows == 0 ==> blocks@.len() == 0,
        rows > 0 ==> blocks@.len() >= 1,
        forall|i: int| 0 <= i < blocks@.len() ==> (#[trigger] blocks@[i]).0 < blocks@[i].1,
        forall|i: int|
            0 <= i < blocks@.len() ==> (#[trigger] blocks@[i]).0 == i * spec_block_len(
                rows as int,
                workers as int,
            ),
        forall|i: int| 0 < i < blocks@.len() ==> (#[trigger] blocks@[i]).0 == blocks@[i - 1].1,
        rows > 0 ==> blocks@[0].0 == 0 && blocks@[blocks@.len() - 1].1 == rows,
        forall|i: int| 0 <= i < blocks@.len() ==> (#[trigger] blocks@[i]).1 <= rows,
{
    let q = rows / workers;
    let rem = rows % workers;
    proof {
        if rem != 0 {
            assert(workers >= 2);
            vstd::arithmetic::div_mod::lemma_div_is_ordered_by_denominator(
                rows as int,
                2,
                workers as int,
            );
            vstd::arithmetic::div_mod::lemma_div_is_ordered(
                rows as int,
                usize::MAX as int,
                2,
            );
        }
    }
    let bs: usize = if rem == 0 {
        q
    } else {
        q + 1
    };
    let ghost bl = spec_block_len(rows as int, workers as int);
    proof {
        assert(bs == bl);
        if rows > 0 {
            vstd::arithmetic::div_mod::lemma_fundamental_div_mod(rows as int, workers as int);
            if rows as int % workers as int == 0 {
                assert(rows as int / workers as int >= 1) by (nonlinear_arith)
                    requires
                        rows as int == workers as int * (rows as int / workers as int),
                        rows as int >= 1,
                        workers as int >= 1,
                ;
            }
        }
    }
    let mut blocks: Vec<(usize, usize)> = Vec::new();
    let mut end: usize = 0;
    proof {
        assert(0 * bl == 0) by (nonlinear_arith);
    }
    while end < rows
        invariant
            1 <= workers,
            bs == bl,
            rows > 0 ==> bs >= 1,
            end <= rows,
            end < rows ==> end as int == blocks@.len() * bl,
            blocks@.len() == 0 ==> end == 0,
            forall|i: int| 0 <= i < blocks@.len() ==> (#[trigger] blocks@[i]).0 < blocks@[i].1,
            forall|i: int| 0 <= i < blocks@.len() ==> (#[trigger] blocks@[i]).0 == i * bl,
            forall|i: int|
                0 < i < blocks@.len() ==> (#[trigger] blocks@[i]).0 == blocks@[i - 1].1,
            blocks@.len() > 0 ==> blocks@[0].0 == 0,
            blocks@.len() > 0 ==> blocks@[blocks@.len() - 1].1 == end,
            forall|i: int| 0 <= i < blocks@.len() ==> (#[trigger] blocks@[i]).1 <= rows,
        decreases rows - end,
    {
        let start = end;
        let step = rows - end;
        let new_end = if bs < step {
            end + bs
        } else {
            rows
        };
        proof {
            let l = blocks@.len() as int;
            assert((l + 1) * bl == l * bl + bl) by (nonlinear_arith);
        }
        blocks.push((start, new_end));
        end = new_end;
    }
    blocks
}

} // verus!
