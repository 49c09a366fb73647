use vstd::prelude::*;

use crate::lines::{extract_line, lemma_line_pos_on_board, line_len, line_of, line_pos, N_LINES};
use crate::state::{cell, on_board, GameState, Tile};

verus! {

// Scores are counted in tenths of a point.
/// Score of five or more stones in a row: a won game.
pub const FIVE_SCORE: i64 = 1_000_000_000;

/// Score of a four whose owner is to move: a win next move.
pub const FOUR_TO_MOVE_SCORE: i64 = 100_000_000;

/// The maximal runs of equal cells of `s`, in order, each with its length.
pub open spec fn rle(s: Seq<Tile>) -> Seq<(Tile, nat)>
    decreases s.len(),
{
    if s.len() == 0 {
        seq![]
    } else {
        let r = rle(s.drop_last());
        let t = s.last();
        if r.len() > 0 && r.last().0 == t {
            r.update(r.len() - 1, (t, r.last().1 + 1))
        } else {
            r.push((t, 1nat))
        }
    }
}

/// The runs of an executable run list, lengths as naturals.
pub open spec fn runs_view(v: Seq<(Tile, usize)>) -> Seq<(Tile, nat)> {
    v.map_values(|p: (Tile, usize)| (p.0, p.1 as nat))
}

/// `+1` for an O stone, `-1` for an X stone.
pub open spec fn stone_sign(t: Tile) -> int {
    if t == Tile::O { 1 } else { -1 }
}

/// Unsigned score of a run of `len` stones with `before` and `after` empty
/// cells next to it; `to_move` when its owner moves next.
pub open spec fn run_magnitude(len: nat, before: nat, after: nat, to_move: bool) -> int {
    let both = before > 0 && after > 0;
    if len == 1 {
        if both { 3 } else { 1 }
    } else if len == 2 {
        if both { 7 } else { 4 }
    } else if len == 3 {
        if !both { 10 } else if before + after >= 3 { 70 } else { 30 }
    } else if len == 4 {
        if to_move { FOUR_TO_MOVE_SCORE as int } else if !both { 100 } else { 1000 }
    } else {
        FIVE_SCORE as int
    }
}

/// Length of run `i` of `r` if it is empty, else 0.
pub open spec fn empty_len(r: Seq<(Tile, nat)>, i: int) -> nat {
    if 0 <= i < r.len() && r[i].0 == Tile::Empty { r[i].1 } else { 0 }
}

/// Signed score of run `i` of `r`; `x_turn` when X moves next.
/// Empty runs, and runs with too little room to ever reach five, score 0.
pub open spec fn run_value(r: Seq<(Tile, nat)>, i: int, x_turn: bool) -> int {
    let t = r[i].0;
    let len = r[i].1;
    let before = empty_len(r, i - 1);
    let after = empty_len(r, i + 1);
    if t == Tile::Empty || len + before + after < 5 {
        0
    } else {
        stone_sign(t) * run_magnitude(len, before, after, (t == Tile::X) == x_turn)
    }
}

/// Sum of the scores of the first `n` runs of `r`.
pub open spec fn runs_sum(r: Seq<(Tile, nat)>, n: int, x_turn: bool) -> int
    decreases n,
{
    if n <= 0 {
        0
    } else {
        runs_sum(r, n - 1, x_turn) + run_value(r, n - 1, x_turn)
    }
}

/// Score of one line; lines shorter than five cells score 0.
pub open spec fn line_score(s: Seq<Tile>, x_turn: bool) -> int {
    if s.len() < 5 {
        0
    } else {
        runs_sum(rle(s), rle(s).len() as int, x_turn)
    }
}

/// Sum of the scores of the first `n` lines of the board.
pub open spec fn lines_sum(b: [[Tile; 15]; 15], n: int, x_turn: bool) -> int
    decreases n,
{
    if n <= 0 {
        0
    } else {
        lines_sum(b, n - 1, x_turn) + line_score(line_of(b, n - 1), x_turn)
    }
}

/// Score of a board, in tenths: positive favours O, negative favours X.
pub open spec fn board_score(b: [[Tile; 15]; 15], x_turn: bool) -> int {
    lines_sum(b, N_LINES as int, x_turn)
}

proof fn lemma_rle_len(s: Seq<Tile>)
    ensures
        rle(s).len() <= s.len(),
        forall|i: int| 0 <= i < rle(s).len() ==> 1 <= #[trigger] rle(s)[i].1 <= s.len(),
    decreases s.len(),
{
    if s.len() > 0 {
        lemma_rle_len(s.drop_last());
    }
}

proof fn lemma_run_value_bound(r: Seq<(Tile, nat)>, i: int, x_turn: bool)
    ensures
        -FIVE_SCORE <= run_value(r, i, x_turn) <= FIVE_SCORE,
{
}

proof fn lemma_runs_sum_bound(r: Seq<(Tile, nat)>, n: int, x_turn: bool)
    requires
        0 <= n,
    ensures
        -n * FIVE_SCORE <= runs_sum(r, n, x_turn) <= n * FIVE_SCORE,
    decreases n,
{
    if n > 0 {
        lemma_runs_sum_bound(r, n - 1, x_turn);
        lemma_run_value_bound(r, n - 1, x_turn);
    }
}

/// The score of one line lies within fifteen times the score of a five.
pub proof fn lemma_line_score_bound(s: Seq<Tile>, x_turn: bool)
    requires
        s.len() <= 15,
    ensures
        -15 * FIVE_SCORE <= line_score(s, x_turn) <= 15 * FIVE_SCORE,
{
    if s.len() >= 5 {
        lemma_rle_len(s);
        let n = rle(s).len() as int;
        lemma_runs_sum_bound(rle(s), n, x_turn);
        assert(-n * FIVE_SCORE >= -15 * FIVE_SCORE) by (nonlinear_arith)
            requires n <= 15;
        assert(n * FIVE_SCORE <= 15 * FIVE_SCORE) by (nonlinear_arith)
            requires n <= 15;
    }
}

proof fn lemma_lines_sum_bound(b: [[Tile; 15]; 15], n: int, x_turn: bool)
    requires
        0 <= n <= N_LINES,
    ensures
        -n * 15_000_000_000 <= lines_sum(b, n, x_turn) <= n * 15_000_000_000,
    decreases n,
{
    if n > 0 {
        lemma_lines_sum_bound(b, n - 1, x_turn);
        lemma_line_score_bound(line_of(b, n - 1), x_turn);
    }
}

/// A board score stays far inside the range of `i64`.
pub proof fn lemma_board_score_bound(b: [[Tile; 15]; 15], x_turn: bool)
    ensures
        -1_320_000_000_000 <= board_score(b, x_turn) <= 1_320_000_000_000,
{
    lemma_lines_sum_bound(b, N_LINES as int, x_turn);
}

/// The tile with X and O exchanged.
pub open spec fn swap_tile(t: Tile) -> Tile {
    match t {
        Tile::Empty => Tile::Empty,
        Tile::X => Tile::O,
        Tile::O => Tile::X,
    }
}

/// The line with X and O exchanged.
pub open spec fn swap_line(s: Seq<Tile>) -> Seq<Tile> {
    s.map_values(|t: Tile| swap_tile(t))
}

/// The runs with X and O exchanged.
pub open spec fn swap_runs(r: Seq<(Tile, nat)>) -> Seq<(Tile, nat)> {
    r.map_values(|p: (Tile, nat)| (swap_tile(p.0), p.1))
}

proof fn lemma_rle_swap(s: Seq<Tile>)
    ensures
        rle(swap_line(s)) == swap_runs(rle(s)),
    decreases s.len(),
{
    if s.len() > 0 {
        assert(swap_line(s).drop_last() =~= swap_line(s.drop_last()));
        lemma_rle_swap(s.drop_last());
        let r = rle(s.drop_last());
        if r.len() > 0 && r.last().0 == s.last() {
            assert(rle(swap_line(s)) =~= swap_runs(rle(s)));
        } else {
            assert(rle(swap_line(s)) =~= swap_runs(rle(s)));
        }
    }
}

proof fn lemma_runs_sum_swap(r: Seq<(Tile, nat)>, n: int, x_turn: bool)
    requires
        0 <= n <= r.len(),
    ensures
        runs_sum(swap_runs(r), n, !x_turn) == -runs_sum(r, n, x_turn),
    decreases n,
{
    if n > 0 {
        lemma_runs_sum_swap(r, n - 1, x_turn);
        let i = n - 1;
        assert(empty_len(swap_runs(r), i - 1) == empty_len(r, i - 1));
        assert(empty_len(swap_runs(r), i + 1) == empty_len(r, i + 1));
        assert(run_value(swap_runs(r), i, !x_turn) == -run_value(r, i, x_turn));
    }
}

proof fn lemma_lines_sum_swap(b: [[Tile; 15]; 15], b2: [[Tile; 15]; 15], n: int, x_turn: bool)
    requires
        0 <= n <= N_LINES,
        forall|x: int, y: int| on_board(x, y) ==> #[trigger] cell(b2, x, y) == swap_tile(cell(b, x, y)),
    ensures
        lines_sum(b2, n, !x_turn) == -lines_sum(b, n, x_turn),
    decreases n,
{
    if n > 0 {
        lemma_lines_sum_swap(b, b2, n - 1, x_turn);
        let k = n - 1;
        let s = line_of(b, k);
        assert forall|j: int| 0 <= j < line_len(k) implies on_board(#[trigger] line_pos(k, j).0, line_pos(k, j).1) by {
            lemma_line_pos_on_board(k, j);
        }
        assert(line_of(b2, k) =~= swap_line(s));
        lemma_rle_swap(s);
        lemma_rle_len(s);
        lemma_runs_sum_swap(rle(s), rle(s).len() as int, x_turn);
    }
}

/// Exchanging every X with an O and vice versa, and the side to move with
/// it, negates the board's score.
pub proof fn lemma_eval_antisymmetric(b: [[Tile; 15]; 15], swapped: [[Tile; 15]; 15], x_turn: bool)
    requires
        forall|x: int, y: int| on_board(x, y) ==> #[trigger] cell(swapped, x, y) == swap_tile(cell(b, x, y)),
    ensures
        board_score(swapped, !x_turn) == -board_score(b, x_turn),
{
    lemma_lines_sum_swap(b, swapped, N_LINES as int, x_turn);
}

/// Splits a line into its maximal runs of equal cells.
fn runs_of(line: &Vec<Tile>) -> (r: Vec<(Tile, usize)>)
    ensures
        runs_view(r@) == rle(line@),
{
    let n = line.len();
    let mut r: Vec<(Tile, usize)> = Vec::new();
    let mut i: usize = 0;
    while i < n
        invariant
            n == line@.len(),
            i <= n,
            runs_view(r@) =~= rle(line@.take(i as int)),
            forall|j: int| 0 <= j < r@.len() ==> #[trigger] r@[j].1 <= i,
        decreases n - i,
    {
        let t = line[i];
        let ghost prev = line@.take(i as int);
        assert(line@.take(i + 1).drop_last() =~= prev);
        proof {
            lemma_rle_len(prev);
        }
        let m = r.len();
        if m > 0 && r[m - 1].0 == t {
            let len = r[m - 1].1;
            r.set(m - 1, (t, len + 1));
        } else {
            r.push((t, 1));
        }
        assert(runs_view(r@) =~= rle(line@.take(i + 1)));
        i = i + 1;
    }
    assert(line@.take(n as int) =~= line@);
    r
}

/// Score of one line, in tenths; `x_turn` when X moves next.
pub fn eval_line(line: Vec<Tile>, x_turn: bool) -> (r: i64)
    requires
        line@.len() <= 15,
    ensures
        r == line_score(line@, x_turn),
{
    if line.len() < 5 {
        return 0;
    }
    let runs = runs_of(&line);
    let ghost rs = rle(line@);
    proof {
        lemma_rle_len(line@);
        assert forall|j: int| 0 <= j < runs@.len() implies #[trigger] runs@[j].1 <= 15 by {
            assert(runs_view(runs@)[j].1 == runs@[j].1);
        }
    }
    let m = runs.len();
    let mut value: i64 = 0;
    let mut i: usize = 0;
    while i < m
        invariant
            m == runs@.len(),
            m <= 15,
            rs == runs_view(runs@),
            forall|j: int| 0 <= j < m ==> #[trigger] runs@[j].1 <= 15,
            i <= m,
            value == runs_sum(rs, i as int, x_turn),
            -(i as int) * FIVE_SCORE <= value <= (i as int) * FIVE_SCORE,
        decreases m - i,
    {
        let (t, len) = runs[i];
        let before: usize = if i > 0 && runs[i - 1].0 == Tile::Empty { runs[i - 1].1 } else { 0 };
        let after: usize = if i + 1 < m && runs[i + 1].0 == Tile::Empty { runs[i + 1].1 } else { 0 };
        assert(before == empty_len(rs, i - 1));
        assert(after == empty_len(rs, i + 1));
        let v: i64 = if t == Tile::Empty || len + before + after < 5 {
            0
        } else {
            let both = before > 0 && after > 0;
            let to_move = (t == Tile::X) == x_turn;
            let mag: i64 = if len == 1 {
                if both { 3 } else { 1 }
            } else if len == 2 {
                if both { 7 } else { 4 }
            } else if len == 3 {
                if !both { 10 } else if before + after >= 3 { 70 } else { 30 }
            } else if len == 4 {
                if to_move { FOUR_TO_MOVE_SCORE } else if !both { 100 } else { 1000 }
            } else {
                FIVE_SCORE
            };
            if t == Tile::O { mag } else { -mag }
        };
        assert(v == run_value(rs, i as int, x_turn));
        proof {
            lemma_run_value_bound(rs, i as int, x_turn);
        }
        value = value + v;
        i = i + 1;
    }
    value
}

/// Score of the board, in tenths: positive favours O, negative favours X.
/// `x_turn` says which side moves next, which decides whether a four is an
/// immediate win.
pub fn eval(state: &GameState, x_turn: bool) -> (r: i64)
    ensures
        r == board_score(state.board, x_turn),
{
    let mut value: i64 = 0;
    let mut k: usize = 0;
    while k < N_LINES
        invariant
            k <= N_LINES,
            value == lines_sum(state.board, k as int, x_turn),
            -(k as int) * 15_000_000_000 <= value <= (k as int) * 15_000_000_000,
        decreases N_LINES - k,
    {
        let line = extract_line(&state.board, k);
        proof {
            lemma_line_score_bound(line@, x_turn);
        }
        value = value + eval_line(line, x_turn);
        k = k + 1;
    }
    value
}

} // verus!
