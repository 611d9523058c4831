//! The block structure of sparse weight matrices.
//!
//! A sparse matrix is stored as blocks of 8 rows by 4 columns. Its index array
//! lists, for each group of 8 rows, the number of blocks of the group and then
//! the first column of each of them. The 32 weights of a block are stored
//! column by column, block after block.

use vstd::prelude::*;

verus! {

/// Rows of a block.
pub const SPARSE_ROWS: usize = 8;

/// Columns of a block.
pub const SPARSE_COLS: usize = 4;

/// Weights of a block.
pub const SPARSE_BLOCK_SIZE: usize = 32;

/// One block: its first row, its first column, and where its weights start.
#[derive(Clone, Copy, Debug, PartialEq, Eq)]
pub struct Block {
    pub row: usize,
    pub col: i32,
    pub weight: usize,
}

/// Number of blocks that the groups from `pos` on describe, when they cover
/// exactly `rows` rows; `None` where the index array is not well formed.
pub open spec fn blocks_from(idx: Seq<i32>, pos: int, rows: int) -> Option<nat>
    decreases idx.len() - pos,
{
    if pos >= idx.len() {
        if rows == 0 {
            Some(0)
        } else {
            None
        }
    } else if idx[pos] < 0 || idx.len() - pos < idx[pos] + 1 {
        None
    } else {
        match blocks_from(idx, pos + 1 + idx[pos], rows - SPARSE_ROWS) {
            Some(rest) => Some((rest + idx[pos]) as nat),
            None => None,
        }
    }
}

/// Number of blocks of a matrix with `rows` rows; `None` where the index array
/// does not describe such a matrix.
pub open spec fn total_blocks(idx: Seq<i32>, rows: int) -> Option<nat> {
    blocks_from(idx, 0, rows)
}

/// The blocks of the group whose entry is at `pos`.
pub open spec fn group_blocks(idx: Seq<i32>, pos: int, row: int, weight: int) -> Seq<Block> {
    Seq::new(
        idx[pos] as nat,
        |k: int|
            Block {
                row: row as usize,
                col: idx[pos + 1 + k],
                weight: (weight + SPARSE_BLOCK_SIZE * k) as usize,
            },
    )
}

/// The blocks of the groups from `pos` on, in storage order.
pub open spec fn block_list(idx: Seq<i32>, pos: int, row: int, weight: int) -> Seq<Block>
    decreases idx.len() - pos,
{
    if pos >= idx.len() || idx[pos] < 0 || idx.len() - pos < idx[pos] + 1 {
        Seq::empty()
    } else {
        group_blocks(idx, pos, row, weight) + block_list(
            idx,
            pos + 1 + idx[pos],
            row + SPARSE_ROWS,
            weight + SPARSE_BLOCK_SIZE * idx[pos],
        )
    }
}

/// The blocks of a matrix, in storage order.
pub open spec fn blocks_of(idx: Seq<i32>) -> Seq<Block> {
    block_list(idx, 0, 0, 0)
}

/// Where the columns that a block reads lie inside a vector of `cols` elements.
pub open spec fn in_columns(b: Block, cols: int) -> bool {
    0 <= b.col && b.col + SPARSE_COLS <= cols
}

/// Count the blocks that an index array describes, validating its structure.
pub fn sparse_total_blocks(idx: &[i32], nb_outputs: usize) -> (r: Option<usize>)
    ensures
        r is Some <==> total_blocks(idx@, nb_outputs as int) is Some,
        r matches Some(t) ==> total_blocks(idx@, nb_outputs as int) == Some(t as nat),
        r matches Some(t) ==> t <= idx@.len(),
{
    let mut pos: usize = 0;
    let mut nb_out: i128 = nb_outputs as i128;
    let mut total: usize = 0;
    while pos < idx.len()
        invariant
            pos <= idx@.len(),
            total <= pos,
            nb_outputs - 8 * pos <= nb_out <= nb_outputs,
            total_blocks(idx@, nb_outputs as int) == (match blocks_from(
                idx@,
                pos as int,
                nb_out as int,
            ) {
                Some(rest) => Some((rest + total) as nat),
                None => None,
            }),
        decreases idx@.len() - pos,
    {
        let nb_blocks = idx[pos];
        if nb_blocks < 0 || idx.len() - pos - 1 < nb_blocks as usize {
            return None;
        }
        pos = pos + 1 + nb_blocks as usize;
        nb_out = nb_out - 8;
        total = total + nb_blocks as usize;
    }
    if nb_out != 0 {
        return None;
    }
    Some(total)
}

/// The blocks of a well-formed index array lie inside the matrix: the rows
/// stay below `rows`, and the weights of block `k` are the `k`-th run of 32.
pub proof fn lemma_block_list(idx: Seq<i32>, pos: int, row: int, rows: int, weight: int)
    requires
        0 <= pos,
        0 <= row,
        0 <= weight,
        row <= rows,
        rows <= usize::MAX,
        blocks_from(idx, pos, rows - row) is Some,
        weight + SPARSE_BLOCK_SIZE * blocks_from(idx, pos, rows - row)->Some_0 <= usize::MAX,
    ensures
        block_list(idx, pos, row, weight).len() == blocks_from(idx, pos, rows - row)->Some_0,
        forall|k: int|
            0 <= k < block_list(idx, pos, row, weight).len() ==> {
                let b = #[trigger] block_list(idx, pos, row, weight)[k];
                &&& row <= b.row
                &&& b.row + SPARSE_ROWS <= rows
                &&& (b.row - row) % 8 == 0
                &&& b.weight == weight + SPARSE_BLOCK_SIZE * k
            },
    decreases idx.len() - pos,
{
    if pos >= idx.len() {
    } else {
        let n = idx[pos] as int;
        let next = pos + 1 + n;
        let rest = blocks_from(idx, next, rows - row - SPARSE_ROWS)->Some_0;
        lemma_rows_left(idx, next, rows - row - SPARSE_ROWS);
        lemma_block_list(idx, next, row + SPARSE_ROWS, rows, weight + SPARSE_BLOCK_SIZE * n);
        let all = block_list(idx, pos, row, weight);
        let head = group_blocks(idx, pos, row, weight);
        let tail = block_list(idx, next, row + SPARSE_ROWS, weight + SPARSE_BLOCK_SIZE * n);
        assert(all == head + tail);
        assert forall|k: int| 0 <= k < all.len() implies {
            let b = #[trigger] all[k];
            &&& row <= b.row
            &&& b.row + SPARSE_ROWS <= rows
            &&& (b.row - row) % 8 == 0
            &&& b.weight == weight + SPARSE_BLOCK_SIZE * k
        } by {
            if k < n {
                assert(all[k] == head[k]);
            } else {
                assert(all[k] == tail[k - n]);
            }
        }
    }
}

/// Groups that are well formed for `rows` rows leave no negative number of
/// them.
proof fn lemma_rows_left(idx: Seq<i32>, pos: int, rows: int)
    requires
        blocks_from(idx, pos, rows) is Some,
    ensures
        rows >= 0,
    decreases idx.len() - pos,
{
    if pos < idx.len() {
        lemma_rows_left(idx, pos + 1 + idx[pos], rows - SPARSE_ROWS);
    }
}

/// The column entries of the groups from `pos` on.
pub open spec fn columns_from(idx: Seq<i32>, pos: int) -> Seq<i32>
    decreases idx.len() - pos,
{
    if pos >= idx.len() || idx[pos] < 0 || idx.len() - pos < idx[pos] + 1 {
        Seq::empty()
    } else {
        let next = pos + 1 + idx[pos];
        idx.subrange(pos + 1, next) + columns_from(idx, next)
    }
}

/// The first row of each group from `pos` on, as many times as the group has
/// blocks.
pub open spec fn rows_from(idx: Seq<i32>, pos: int, row: int) -> Seq<int>
    decreases idx.len() - pos,
{
    if pos >= idx.len() || idx[pos] < 0 || idx.len() - pos < idx[pos] + 1 {
        Seq::empty()
    } else {
        Seq::new(idx[pos] as nat, |k: int| row) + rows_from(
            idx,
            pos + 1 + idx[pos],
            row + SPARSE_ROWS,
        )
    }
}

/// The blocks from `pos` on have the rows and columns that the index array
/// lists.
proof fn lemma_block_entries(idx: Seq<i32>, pos: int, row: int, rows: int, weight: int)
    requires
        0 <= pos,
        0 <= row <= rows <= usize::MAX,
        blocks_from(idx, pos, rows - row) is Some,
    ensures
        block_list(idx, pos, row, weight).len() == columns_from(idx, pos).len(),
        block_list(idx, pos, row, weight).len() == rows_from(idx, pos, row).len(),
        forall|k: int|
            0 <= k < block_list(idx, pos, row, weight).len() ==> {
                let b = #[trigger] block_list(idx, pos, row, weight)[k];
                &&& b.col == columns_from(idx, pos)[k]
                &&& b.row == rows_from(idx, pos, row)[k]
                &&& row <= b.row
            },
        forall|j: int, k: int|
            0 <= j <= k < block_list(idx, pos, row, weight).len() ==> (
            #[trigger] block_list(idx, pos, row, weight)[j]).row <= (#[trigger] block_list(
                idx,
                pos,
                row,
                weight,
            )[k]).row,
    decreases idx.len() - pos,
{
    if pos < idx.len() {
        let n = idx[pos] as int;
        let next = pos + 1 + n;
        lemma_rows_left(idx, next, rows - row - SPARSE_ROWS);
        lemma_block_entries(idx, next, row + SPARSE_ROWS, rows, weight + SPARSE_BLOCK_SIZE * n);
        let all = block_list(idx, pos, row, weight);
        let head = group_blocks(idx, pos, row, weight);
        let tail = block_list(idx, next, row + SPARSE_ROWS, weight + SPARSE_BLOCK_SIZE * n);
        assert(all == head + tail);
        assert forall|k: int| 0 <= k < all.len() implies {
            let b = #[trigger] all[k];
            &&& b.col == columns_from(idx, pos)[k]
            &&& b.row == rows_from(idx, pos, row)[k]
            &&& row <= b.row
        } by {
            if k < n {
                assert(all[k] == head[k]);
            } else {
                assert(all[k] == tail[k - n]);
            }
        }
        assert forall|j: int, k: int| 0 <= j <= k < all.len() implies (#[trigger] all[j]).row <= (
        #[trigger] all[k]).row by {
            if k < n {
                assert(all[k] == head[k] && all[j] == head[j]);
            } else if j < n {
                assert(all[k] == tail[k - n] && all[j] == head[j]);
            } else {
                assert(all[k] == tail[k - n] && all[j] == tail[j - n]);
            }
        }
    }
}

/// A well-formed index array describes as many blocks as it counts. The weights
/// of block `k` are the `k`-th run of 32. The columns of the blocks are the
/// column entries of the index array in their order, and each group of 8 rows
/// has as many blocks as its entry says: the rows are multiples of 8, stay
/// inside the matrix and never decrease.
pub proof fn lemma_blocks(idx: Seq<i32>, rows: int)
    requires
        rows <= usize::MAX,
        total_blocks(idx, rows) is Some,
        SPARSE_BLOCK_SIZE * total_blocks(idx, rows)->Some_0 <= usize::MAX,
    ensures
        blocks_of(idx).len() == total_blocks(idx, rows)->Some_0,
        blocks_of(idx).map_values(|b: Block| b.col) == columns_from(idx, 0),
        blocks_of(idx).map_values(|b: Block| b.row as int) == rows_from(idx, 0, 0),
        forall|k: int|
            0 <= k < blocks_of(idx).len() ==> {
                let b = #[trigger] blocks_of(idx)[k];
                &&& b.weight == SPARSE_BLOCK_SIZE * k
                &&& b.row % 8 == 0
                &&& b.row + SPARSE_ROWS <= rows
            },
        forall|j: int, k: int|
            0 <= j <= k < blocks_of(idx).len() ==> (#[trigger] blocks_of(idx)[j]).row <= (
            #[trigger] blocks_of(idx)[k]).row,
{
    lemma_rows_left(idx, 0, rows);
    lemma_block_list(idx, 0, 0, rows, 0);
    lemma_block_entries(idx, 0, 0, rows, 0);
    assert(blocks_of(idx).map_values(|b: Block| b.col) =~= columns_from(idx, 0));
    assert(blocks_of(idx).map_values(|b: Block| b.row as int) =~= rows_from(idx, 0, 0));
}

/// The blocks that a well-formed index array describes, in storage order.
pub fn sparse_blocks(idx: &[i32], rows: usize) -> (blocks: Vec<Block>)
    requires
        total_blocks(idx@, rows as int) is Some,
        SPARSE_BLOCK_SIZE * total_blocks(idx@, rows as int)->Some_0 <= usize::MAX,
    ensures
        blocks@ == blocks_of(idx@),
{
    let mut blocks: Vec<Block> = Vec::new();
    let mut wi: usize = 0;
    let mut ii: usize = 0;
    let mut i: usize = 0;
    while ii < idx.len()
        invariant
            ii <= idx@.len(),
            i <= rows,
            blocks_from(idx@, ii as int, rows - i) is Some,
            wi + SPARSE_BLOCK_SIZE * blocks_from(idx@, ii as int, rows - i)->Some_0 <= usize::MAX,
            blocks@ + block_list(idx@, ii as int, i as int, wi as int) == blocks_of(idx@),
        decreases idx@.len() - ii,
    {
        let cols = idx[ii] as usize;
        let ghost pos = ii as int;
        let ghost start = wi as int;
        let ghost before = blocks@;
        proof {
            lemma_rows_left(idx@, pos + 1 + idx@[pos], rows - i - SPARSE_ROWS);
        }
        ii += 1;
        let mut k: usize = 0;
        while k < cols
            invariant
                0 <= pos < idx@.len(),
                cols == idx@[pos],
                k <= cols,
                ii == pos + 1 + k,
                pos + 1 + cols <= idx@.len(),
                start >= 0,
                wi == start + SPARSE_BLOCK_SIZE * k,
                start + SPARSE_BLOCK_SIZE * cols <= usize::MAX,
                blocks@ == before + group_blocks(idx@, pos, i as int, start).take(k as int),
            decreases cols - k,
        {
            let ghost g = group_blocks(idx@, pos, i as int, start);
            blocks.push(Block { row: i, col: idx[ii], weight: wi });
            assert(g.take(k + 1) == g.take(k as int).push(g[k as int]));
            ii += 1;
            wi += SPARSE_BLOCK_SIZE;
            k += 1;
        }
        proof {
            let g = group_blocks(idx@, pos, i as int, start);
            assert(g.take(cols as int) == g);
            assert(blocks@ + block_list(idx@, ii as int, i + SPARSE_ROWS, wi as int) == before
                + block_list(idx@, pos, i as int, start));
        }
        i += SPARSE_ROWS;
    }
    assert(block_list(idx@, ii as int, i as int, wi as int) == Seq::<Block>::empty());
    blocks
}

} // verus!
