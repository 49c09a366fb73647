use vstd::prelude::*;

use crate::state::{cell, on_board, Tile};

verus! {

/// Number of straight lines scanned on the board: 15 rows, 15 columns,
/// 29 diagonals and 29 anti-diagonals.
pub const N_LINES: usize = 88;

/// Number of cells of line `k`.
pub open spec fn line_len(k: int) -> int {
    if k < 30 {
        15
    } else if k < 59 {
        let d = k - 44;
        if d >= 0 { 15 - d } else { 15 + d }
    } else {
        let s = k - 59;
        if s <= 14 { s + 1 } else { 29 - s }
    }
}

/// Board coordinates of the `j`-th cell of line `k`.
/// Lines `0..15` are the rows `board[k][..]`, `15..30` the columns,
/// `30..59` the diagonals `x - y == k - 44` and `59..88` the anti-diagonals
/// `x + y == k - 59`.
pub open spec fn line_pos(k: int, j: int) -> (int, int) {
    if k < 15 {
        (k, j)
    } else if k < 30 {
        (j, k - 15)
    } else if k < 59 {
        let d = k - 44;
        if d >= 0 { (d + j, j) } else { (j, j - d) }
    } else {
        let s = k - 59;
        if s <= 14 { (s - j, j) } else { (14 - j, s - 14 + j) }
    }
}

/// The cells of line `k`, in order.
pub open spec fn line_of(b: [[Tile; 15]; 15], k: int) -> Seq<Tile> {
    Seq::new(line_len(k) as nat, |j: int| cell(b, line_pos(k, j).0, line_pos(k, j).1))
}

/// Every cell of every line lies on the board.
pub proof fn lemma_line_pos_on_board(k: int, j: int)
    requires
        0 <= k < N_LINES,
        0 <= j < line_len(k),
    ensures
        on_board(line_pos(k, j).0, line_pos(k, j).1),
{
}

/// Copies out the cells of line `k`.
pub fn extract_line(b: &[[Tile; 15]; 15], k: usize) -> (r: Vec<Tile>)
    requires
        k < N_LINES,
    ensures
        r@ == line_of(*b, k as int),
{
    let n: usize = if k < 30 {
        15
    } else if k < 59 {
        if k >= 44 { 15 - (k - 44) } else { 15 - (44 - k) }
    } else {
        if k - 59 <= 14 { k - 59 + 1 } else { 29 - (k - 59) }
    };
    let mut r: Vec<Tile> = Vec::new();
    let mut j: usize = 0;
    while j < n
        invariant
            k < N_LINES,
            n == line_len(k as int),
            j <= n,
            r@ =~= line_of(*b, k as int).take(j as int),
        decreases n - j,
    {
        let (x, y): (usize, usize) = if k < 15 {
            (k, j)
        } else if k < 30 {
            (j, k - 15)
        } else if k < 59 {
            if k >= 44 { (k - 44 + j, j) } else { (j, j + (44 - k)) }
        } else {
            if k - 59 <= 14 { (k - 59 - j, j) } else { (14 - j, k - 59 - 14 + j) }
        };
        proof {
            lemma_line_pos_on_board(k as int, j as int);
        }
        r.push(b[x][y]);
        j = j + 1;
    }
    assert(r@ =~= line_of(*b, k as int));
    r
}

} // verus!
