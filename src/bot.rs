use vstd::prelude::*;

use crate::eval::{board_score, eval, lemma_board_score_bound};
use crate::state::{board_is_empty, cell, on_board, GameState, Tile};

verus! {

/// Candidate moves reach this many cells (in any of the eight directions)
/// away from a stone.
pub const MAX_DIST: usize = 2;

/// Some stone lies within two cells of `(x, y)` in both coordinates.
pub open spec fn near_stone(b: [[Tile; 15]; 15], x: int, y: int) -> bool {
    exists|a: int, c: int|
        on_board(a, c) && x - 2 <= a <= x + 2 && y - 2 <= c <= y + 2 && #[trigger] cell(b, a, c)
            != Tile::Empty
}

/// `(x, y)` is an empty cell worth playing: near a stone, or anywhere on an
/// empty board.
pub open spec fn is_candidate(b: [[Tile; 15]; 15], x: int, y: int) -> bool {
    &&& on_board(x, y)
    &&& cell(b, x, y) == Tile::Empty
    &&& board_is_empty(b) || near_stone(b, x, y)
}

/// `moves` holds every candidate cell of `b` exactly once, and nothing else.
pub open spec fn is_candidate_set(b: [[Tile; 15]; 15], moves: Seq<(usize, usize)>) -> bool {
    forall|m: (usize, usize)|
        #[trigger] moves.to_multiset().count(m) == if is_candidate(b, m.0 as int, m.1 as int) {
            1nat
        } else {
            0nat
        }
}

/// A list of candidate moves never names an occupied cell; on an empty
/// board it names every cell of the board exactly once; otherwise each of
/// its cells lies within two cells of some stone.
pub proof fn lemma_candidate_laws(b: [[Tile; 15]; 15], moves: Seq<(usize, usize)>)
    requires
        is_candidate_set(b, moves),
    ensures
        forall|i: int|
            0 <= i < moves.len() ==> on_board(#[trigger] moves[i].0 as int, moves[i].1 as int)
                && cell(b, moves[i].0 as int, moves[i].1 as int) == Tile::Empty,
        board_is_empty(b) ==> forall|x: usize, y: usize|
            x < 15 && y < 15 ==> #[trigger] moves.to_multiset().count((x, y)) == 1,
        board_is_empty(b) ==> moves.len() == 225,
        !board_is_empty(b) ==> forall|i: int|
            0 <= i < moves.len() ==> near_stone(b, #[trigger] moves[i].0 as int, moves[i].1 as int),
{
    moves.to_multiset_ensures();
    assert forall|i: int| 0 <= i < moves.len() implies is_candidate(
        b,
        #[trigger] moves[i].0 as int,
        moves[i].1 as int,
    ) by {
        assert(moves.contains(moves[i]));
        assert(moves.to_multiset().count(moves[i]) > 0);
    }
    if board_is_empty(b) {
        assert forall|x: usize, y: usize| x < 15 && y < 15 implies #[trigger] moves.to_multiset().count(
            (x, y),
        ) == 1 by {
            assert(is_candidate(b, x as int, y as int));
        }
        lemma_all_cells_len(moves);
    }
}

/// A list holding each board cell once, and nothing else, has 225 entries.
proof fn lemma_all_cells_len(moves: Seq<(usize, usize)>)
    requires
        forall|m: (usize, usize)|
            #[trigger] moves.to_multiset().count(m) == if m.0 < 15 && m.1 < 15 { 1nat } else { 0nat },
    ensures
        moves.len() == 225,
{
    let all = Seq::new(225, |i: int| ((i / 15) as usize, (i % 15) as usize));
    assert forall|i: int, j: int| 0 <= i < 225 && 0 <= j < 225 && i != j implies all[i] != all[j] by {
        assert(i == 15 * (i / 15) + i % 15);
        assert(j == 15 * (j / 15) + j % 15);
    }
    all.lemma_multiset_has_no_duplicates();
    all.to_multiset_ensures();
    moves.to_multiset_ensures();
    assert forall|m: (usize, usize)| #[trigger] all.to_multiset().count(m) == moves.to_multiset().count(m) by {
        if m.0 < 15 && m.1 < 15 {
            let i = 15 * m.0 + m.1;
            assert(all[i as int] == m);
            assert(all.contains(m));
        } else {
            if all.contains(m) {
                let i = choose|i: int| 0 <= i < all.len() && all[i] == m;
                assert(all[i] == m);
            }
        }
    }
    assert(all.to_multiset() =~= moves.to_multiset());
}

/// Relies on macroquad::rand::ChooseRandom::shuffle, a Fisher-Yates shuffle
/// that only swaps elements: the result is a permutation of the input.
#[verifier::external_body]
fn shuffle_moves(v: &mut Vec<(usize, usize)>)
    ensures
        final(v)@.to_multiset() == old(v)@.to_multiset(),
{
    <[(usize, usize)] as macroquad::rand::ChooseRandom<(usize, usize)>>::shuffle(v)
}

/// `(a, c)` lies within two cells of `(x, y)` in both coordinates.
pub open spec fn within_two(x: int, y: int, a: int, c: int) -> bool {
    x - 2 <= a <= x + 2 && y - 2 <= c <= y + 2
}

/// Whether `(x, y)` has been visited.
pub open spec fn seen(v: [[bool; 15]; 15], x: int, y: int) -> bool {
    v[x][y]
}

/// Some stone placed before `(px, py)` in row-major order lies within two
/// cells of `(x, y)`.
pub open spec fn reached(b: [[Tile; 15]; 15], px: int, py: int, x: int, y: int) -> bool {
    exists|a: int, c: int|
        on_board(a, c) && (a < px || (a == px && c < py)) && within_two(x, y, a, c)
            && #[trigger] cell(b, a, c) != Tile::Empty
}

proof fn lemma_reached_step(b: [[Tile; 15]; 15], px: int, py: int, x: int, y: int)
    requires
        on_board(px, py),
    ensures
        reached(b, px, py + 1, x, y) == (reached(b, px, py, x, y) || (cell(b, px, py) != Tile::Empty
            && within_two(px, py, x, y))),
{
    if reached(b, px, py + 1, x, y) && !reached(b, px, py, x, y) {
        let (a, c) = choose|a: int, c: int|
            on_board(a, c) && (a < px || (a == px && c < py + 1)) && within_two(x, y, a, c)
                && #[trigger] cell(b, a, c) != Tile::Empty;
        assert(a == px && c == py);
    }
    if cell(b, px, py) != Tile::Empty && within_two(px, py, x, y) {
        assert(within_two(x, y, px, py));
    }
}

proof fn lemma_reached_row(b: [[Tile; 15]; 15], px: int, x: int, y: int)
    ensures
        reached(b, px, 15, x, y) == reached(b, px + 1, 0, x, y),
{
}

proof fn lemma_reached_all(b: [[Tile; 15]; 15], x: int, y: int)
    ensures
        reached(b, 15, 0, x, y) == near_stone(b, x, y),
{
    if near_stone(b, x, y) {
        let (a, c) = choose|a: int, c: int|
            on_board(a, c) && x - 2 <= a <= x + 2 && y - 2 <= c <= y + 2 && #[trigger] cell(b, a, c)
                != Tile::Empty;
        assert(within_two(x, y, a, c));
    }
}

/// Marks every cell within two cells of the stone at `(px, py)` as visited;
/// each empty cell seen for the first time joins `result`.
fn expand_from(
    b: &[[Tile; 15]; 15],
    visited: &mut [[bool; 15]; 15],
    result: &mut Vec<(usize, usize)>,
    px: usize,
    py: usize,
)
    requires
        on_board(px as int, py as int),
        forall|i: int, j: int| on_board(i, j) ==> #[trigger] seen(*old(visited), i, j) == reached(*b, px as int, py as int, i, j),
        forall|m: (usize, usize)|
            #[trigger] old(result)@.to_multiset().count(m) == if m.0 < 15 && m.1 < 15 && seen(*old(visited), m.0 as int, m.1 as int)
                && cell(*b, m.0 as int, m.1 as int) == Tile::Empty {
                1nat
            } else {
                0nat
            },
    ensures
        forall|i: int, j: int|
            on_board(i, j) ==> #[trigger] seen(*final(visited), i, j) == (reached(*b, px as int, py as int, i, j)
                || within_two(px as int, py as int, i, j)),
        forall|m: (usize, usize)|
            #[trigger] final(result)@.to_multiset().count(m) == if m.0 < 15 && m.1 < 15 && seen(*final(visited), m.0 as int, m.1 as int)
                && cell(*b, m.0 as int, m.1 as int) == Tile::Empty {
                1nat
            } else {
                0nat
            },
{
    let lo_a: usize = if px >= MAX_DIST { px - MAX_DIST } else { 0 };
    let hi_a: usize = if px + MAX_DIST < 15 { px + MAX_DIST + 1 } else { 15 };
    let lo_c: usize = if py >= MAX_DIST { py - MAX_DIST } else { 0 };
    let hi_c: usize = if py + MAX_DIST < 15 { py + MAX_DIST + 1 } else { 15 };
    let ghost p = (px as int, py as int);
    let mut a: usize = lo_a;
    while a < hi_a
        invariant
            on_board(p.0, p.1),
            p == (px as int, py as int),
            lo_a == (if px >= 2 { px - 2 } else { 0 }),
            hi_a == (if px + 2 < 15 { px + 3 } else { 15 }),
            lo_c == (if py >= 2 { py - 2 } else { 0 }),
            hi_c == (if py + 2 < 15 { py + 3 } else { 15 }),
            lo_a <= a <= hi_a,
            forall|i: int, j: int|
                on_board(i, j) ==> #[trigger] seen(*visited, i, j) == (reached(*b, p.0, p.1, i, j) || (
                within_two(p.0, p.1, i, j) && i < a)),
            forall|m: (usize, usize)|
                #[trigger] result@.to_multiset().count(m) == if m.0 < 15 && m.1 < 15 && seen(*visited, m.0 as int, m.1 as int)
                    && cell(*b, m.0 as int, m.1 as int) == Tile::Empty {
                    1nat
                } else {
                    0nat
                },
        decreases hi_a - a,
    {
        let mut c: usize = lo_c;
        while c < hi_c
            invariant
                on_board(p.0, p.1),
                p == (px as int, py as int),
                lo_a == (if px >= 2 { px - 2 } else { 0 }),
                hi_a == (if px + 2 < 15 { px + 3 } else { 15 }),
                lo_c == (if py >= 2 { py - 2 } else { 0 }),
                hi_c == (if py + 2 < 15 { py + 3 } else { 15 }),
                lo_a <= a < hi_a,
                lo_c <= c <= hi_c,
                forall|i: int, j: int|
                    on_board(i, j) ==> #[trigger] seen(*visited, i, j) == (reached(*b, p.0, p.1, i, j) || (
                    within_two(p.0, p.1, i, j) && (i < a || (i == a && j < c)))),
                forall|m: (usize, usize)|
                    #[trigger] result@.to_multiset().count(m) == if m.0 < 15 && m.1 < 15 && seen(
                        *visited,
                        m.0 as int,
                        m.1 as int,
                    ) && cell(*b, m.0 as int, m.1 as int) == Tile::Empty {
                        1nat
                    } else {
                        0nat
                    },
            decreases hi_c - c,
        {
            if !visited[a][c] {
                let ghost v0 = *visited;
                visited[a][c] = true;
                assert forall|i: int, j: int| on_board(i, j) && !(i == a && j == c) implies #[trigger] seen(*visited, i, j) == seen(v0, i, j) by {
                    if i == a {
                        assert(visited[i] =~= vstd::array::spec_array_update(v0[i], c as int, true));
                    }
                }
                if b[a][c] == Tile::Empty {
                    proof {
                        result@.to_multiset_ensures();
                    }
                    result.push((a, c));
                }
            }
            c = c + 1;
        }
        a = a + 1;
    }
}

/// The candidate moves of the position, in random order: expanding two
/// cells in every direction from each stone, with each cell visited once,
/// every empty cell reached is taken once; on an empty board every cell is.
pub fn move_gen(state: &GameState) -> (r: Vec<(usize, usize)>)
    ensures
        is_candidate_set(state.board, r@),
        forall|i: int| 0 <= i < r@.len() ==> is_candidate(state.board, #[trigger] r@[i].0 as int, r@[i].1 as int),
{
    let b = &state.board;
    let mut visited = [[false; 15]; 15];
    let mut result: Vec<(usize, usize)> = Vec::new();
    let mut any_stone = false;
    proof {
        result@.to_multiset_ensures();
    }
    let mut x: usize = 0;
    while x < 15
        invariant
            x <= 15,
            any_stone == exists|a: int, c: int| 0 <= a < x && 0 <= c < 15 && #[trigger] cell(*b, a, c) != Tile::Empty,
            forall|i: int, j: int| on_board(i, j) ==> #[trigger] seen(visited, i, j) == reached(*b, x as int, 0, i, j),
            forall|m: (usize, usize)|
                #[trigger] result@.to_multiset().count(m) == if m.0 < 15 && m.1 < 15 && seen(visited, m.0 as int, m.1 as int)
                    && cell(*b, m.0 as int, m.1 as int) == Tile::Empty {
                    1nat
                } else {
                    0nat
                },
        decreases 15 - x,
    {
        let mut y: usize = 0;
        while y < 15
            invariant
                x < 15,
                y <= 15,
                any_stone == exists|a: int, c: int|
                    on_board(a, c) && (a < x || (a == x && c < y)) && #[trigger] cell(*b, a, c) != Tile::Empty,
                forall|i: int, j: int| on_board(i, j) ==> #[trigger] seen(visited, i, j) == reached(*b, x as int, y as int, i, j),
                forall|m: (usize, usize)|
                    #[trigger] result@.to_multiset().count(m) == if m.0 < 15 && m.1 < 15 && seen(visited, m.0 as int, m.1 as int)
                        && cell(*b, m.0 as int, m.1 as int) == Tile::Empty {
                        1nat
                    } else {
                        0nat
                    },
            decreases 15 - y,
        {
            if b[x][y] != Tile::Empty {
                expand_from(b, &mut visited, &mut result, x, y);
                any_stone = true;
            }
            assert forall|i: int, j: int| on_board(i, j) implies #[trigger] seen(visited, i, j) == reached(*b, x as int, y + 1, i, j) by {
                lemma_reached_step(*b, x as int, y as int, i, j);
            }
            y = y + 1;
        }
        assert forall|i: int, j: int| on_board(i, j) implies #[trigger] seen(visited, i, j) == reached(*b, x + 1, 0, i, j) by {
            lemma_reached_row(*b, x as int, i, j);
        }
        x = x + 1;
    }
    assert forall|i: int, j: int| on_board(i, j) implies #[trigger] seen(visited, i, j) == near_stone(*b, i, j) by {
        lemma_reached_all(*b, i, j);
    }
    if !any_stone {
        assert(board_is_empty(*b));
        assert forall|m: (usize, usize)| #[trigger] result@.to_multiset().count(m) == 0 by {
            if m.0 < 15 && m.1 < 15 && seen(visited, m.0 as int, m.1 as int) {
                let (a, c) = choose|a: int, c: int|
                    on_board(a, c) && within_two(m.0 as int, m.1 as int, a, c) && #[trigger] cell(*b, a, c) != Tile::Empty;
            }
        }
        let mut x: usize = 0;
        while x < 15
            invariant
                x <= 15,
                board_is_empty(*b),
                forall|m: (usize, usize)|
                    #[trigger] result@.to_multiset().count(m) == if m.0 < x && m.1 < 15 { 1nat } else { 0nat },
            decreases 15 - x,
        {
            let mut y: usize = 0;
            while y < 15
                invariant
                    x < 15,
                    y <= 15,
                    forall|m: (usize, usize)|
                        #[trigger] result@.to_multiset().count(m) == if (m.0 < x && m.1 < 15) || (m.0 == x
                            && m.1 < y) {
                            1nat
                        } else {
                            0nat
                        },
                decreases 15 - y,
            {
                proof {
                    result@.to_multiset_ensures();
                }
                result.push((x, y));
                y = y + 1;
            }
            x = x + 1;
        }
    } else {
        assert(!board_is_empty(*b));
    }
    shuffle_moves(&mut result);
    proof {
        result@.to_multiset_ensures();
        assert forall|i: int| 0 <= i < result@.len() implies is_candidate(
            *b,
            #[trigger] result@[i].0 as int,
            result@[i].1 as int,
        ) by {
            assert(result@.contains(result@[i]));
            assert(result@.to_multiset().count(result@[i]) > 0);
        }
    }
    result
}


/// Plies searched below each root move.
pub const DEPTH: u32 = 2;

/// Evaluations beyond this magnitude (in tenths) end the search early.
pub const DECISIVE: i64 = 10_000;

/// The stone of the side to move.
pub open spec fn stone_of(x_turn: bool) -> Tile {
    if x_turn { Tile::X } else { Tile::O }
}

/// The board with `t` put at `(x, y)`.
pub open spec fn place(b: [[Tile; 15]; 15], x: int, y: int, t: Tile) -> [[Tile; 15]; 15] {
    vstd::array::spec_array_update(b, x, vstd::array::spec_array_update(b[x], y, t))
}

/// Value of the game tree of `b` searched `depth` plies deep (minimax):
/// O maximises, X minimises, and a decisive evaluation ends the search.
pub open spec fn minimax(b: [[Tile; 15]; 15], x_turn: bool, depth: nat) -> int
    decreases depth, 226int,
{
    let e = board_score(b, x_turn);
    if depth == 0 || e > DECISIVE || e < -DECISIVE {
        e
    } else {
        best_child(b, x_turn, depth, 0)
    }
}

/// Minimax value, `depth - 1` plies deep, after the side to move plays `(x, y)`.
pub open spec fn child_value(b: [[Tile; 15]; 15], x_turn: bool, depth: nat, x: int, y: int) -> int
    decreases depth, 0int,
{
    if depth == 0 {
        0
    } else {
        minimax(place(b, x, y, stone_of(x_turn)), !x_turn, (depth - 1) as nat)
    }
}

/// Best child value over the candidate cells with index `15 * x + y >= i`;
/// the worst value of `i64` for the mover when there is none.
pub open spec fn best_child(b: [[Tile; 15]; 15], x_turn: bool, depth: nat, i: int) -> int
    decreases depth, 225 - i,
{
    if i >= 225 || i < 0 {
        if x_turn { i64::MAX as int } else { i64::MIN as int }
    } else {
        let rest = best_child(b, x_turn, depth, i + 1);
        let x = i / 15;
        let y = i % 15;
        if is_candidate(b, x, y) {
            let v = child_value(b, x_turn, depth, x, y);
            if x_turn {
                if v < rest { v } else { rest }
            } else {
                if v > rest { v } else { rest }
            }
        } else {
            rest
        }
    }
}

/// What an alpha-beta search with window `(alpha, beta)` promises of its
/// result `r` against the true value `v`.
pub open spec fn fail_soft(r: int, v: int, alpha: int, beta: int) -> bool {
    &&& r <= alpha ==> v <= r
    &&& r >= beta ==> v >= r
    &&& alpha < r < beta ==> v == r
}

/// Every candidate's child value is bounded by the best one.
pub proof fn lemma_best_child_bounds(b: [[Tile; 15]; 15], x_turn: bool, depth: nat, i: int, x: int, y: int)
    requires
        0 <= i <= 15 * x + y,
        is_candidate(b, x, y),
    ensures
        !x_turn ==> child_value(b, x_turn, depth, x, y) <= best_child(b, x_turn, depth, i),
        x_turn ==> child_value(b, x_turn, depth, x, y) >= best_child(b, x_turn, depth, i),
    decreases 225 - i,
{
    if i < 15 * x + y {
        lemma_best_child_bounds(b, x_turn, depth, i + 1, x, y);
    } else {
        assert(i / 15 == x && i % 15 == y);
    }
}

/// A value that bounds every candidate's child value bounds the best one.
pub proof fn lemma_best_child_limit(b: [[Tile; 15]; 15], x_turn: bool, depth: nat, i: int, r: int)
    requires
        0 <= i <= 225,
        i64::MIN <= r <= i64::MAX,
        forall|x: int, y: int|
            #![trigger is_candidate(b, x, y)]
            i <= 15 * x + y && is_candidate(b, x, y) ==> (if x_turn {
                child_value(b, x_turn, depth, x, y) >= r
            } else {
                child_value(b, x_turn, depth, x, y) <= r
            }),
    ensures
        !x_turn ==> best_child(b, x_turn, depth, i) <= r,
        x_turn ==> best_child(b, x_turn, depth, i) >= r,
    decreases 225 - i,
{
    if i < 225 {
        lemma_best_child_limit(b, x_turn, depth, i + 1, r);
        let x = i / 15;
        let y = i % 15;
        assert(15 * x + y == i);
        if is_candidate(b, x, y) {
        }
    }
}

proof fn lemma_minimax_range(b: [[Tile; 15]; 15], x_turn: bool, depth: nat)
    ensures
        i64::MIN <= minimax(b, x_turn, depth) <= i64::MAX,
    decreases depth, 226int,
{
    lemma_board_score_bound(b, x_turn);
    let e = board_score(b, x_turn);
    if !(depth == 0 || e > DECISIVE || e < -DECISIVE) {
        lemma_best_child_range(b, x_turn, depth, 0);
    }
}

proof fn lemma_best_child_range(b: [[Tile; 15]; 15], x_turn: bool, depth: nat, i: int)
    ensures
        i64::MIN <= best_child(b, x_turn, depth, i) <= i64::MAX,
    decreases depth, 225 - i,
{
    if 0 <= i < 225 {
        lemma_best_child_range(b, x_turn, depth, i + 1);
        let x = i / 15;
        let y = i % 15;
        if depth > 0 {
            lemma_minimax_range(place(b, x, y, stone_of(x_turn)), !x_turn, (depth - 1) as nat);
            assert(child_value(b, x_turn, depth, x, y) == minimax(
                place(b, x, y, stone_of(x_turn)),
                !x_turn,
                (depth - 1) as nat,
            ));
        }
        let rest = best_child(b, x_turn, depth, i + 1);
        let v = child_value(b, x_turn, depth, x, y);
        assert(i64::MIN <= v <= i64::MAX);
        assert(i64::MIN <= rest <= i64::MAX);
    }
}


/// Child value of the move `m`.
pub open spec fn move_value(b: [[Tile; 15]; 15], x_turn: bool, depth: nat, m: (usize, usize)) -> int {
    child_value(b, x_turn, depth, m.0 as int, m.1 as int)
}

/// Puts `t` at `(x, y)`.
fn set_cell(state: &mut GameState, x: usize, y: usize, t: Tile)
    requires
        on_board(x as int, y as int),
    ensures
        final(state).board == place(old(state).board, x as int, y as int, t),
        final(state).x_turn == old(state).x_turn,
{
    state.board[x][y] = t;
    assert(state.board[x as int] =~= vstd::array::spec_array_update(old(state).board[x as int], y as int, t));
    assert(state.board =~= place(old(state).board, x as int, y as int, t));
}

/// Putting back the cell's content after a speculative move restores the board.
proof fn lemma_place_undo(b: [[Tile; 15]; 15], x: int, y: int, t: Tile)
    requires
        on_board(x, y),
    ensures
        place(place(b, x, y, t), x, y, cell(b, x, y)) == b,
{
    let p = place(place(b, x, y, t), x, y, cell(b, x, y));
    assert(p[x] =~= b[x]);
    assert(p =~= b);
}

/// Every candidate of the position is one of `moves`.
proof fn lemma_candidate_listed(b: [[Tile; 15]; 15], moves: Seq<(usize, usize)>, x: int, y: int)
    requires
        is_candidate_set(b, moves),
        is_candidate(b, x, y),
    ensures
        exists|j: int| 0 <= j < moves.len() && #[trigger] moves[j] == (x as usize, y as usize),
{
    let m = (x as usize, y as usize);
    assert(moves.to_multiset().count(m) == 1);
    moves.to_multiset_ensures();
    assert(moves.contains(m));
}

/// Alpha-beta search of the position `depth` plies deep, within the window
/// `(alpha, beta)`; the board is changed during the search and restored.
pub fn alphabeta(state: &mut GameState, depth: u32, alpha: i64, beta: i64) -> (r: i64)
    requires
        alpha <= beta,
    ensures
        *final(state) == *old(state),
        fail_soft(r as int, minimax(old(state).board, old(state).x_turn, depth as nat), alpha as int, beta as int),
    decreases depth,
{
    let ghost s0 = *state;
    let ghost b0 = state.board;
    let ghost xt = state.x_turn;
    let ghost d = depth as nat;
    let evaluation = eval(state, state.x_turn);
    if depth == 0 || evaluation > DECISIVE || evaluation < -DECISIVE {
        return evaluation;
    }
    let moves = move_gen(state);
    let n = moves.len();
    proof {
        assert(minimax(b0, xt, d) == best_child(b0, xt, d, 0));
    }
    if !state.x_turn {
        let mut value: i64 = i64::MIN;
        let mut a: i64 = alpha;
        let mut i: usize = 0;
        let ghost mut w: int = 0;
        while i < n
            invariant
                *state == s0,
                s0 == *old(state),
                minimax(b0, xt, d) == best_child(b0, xt, d, 0),
                b0 == s0.board,
                xt == s0.x_turn,
                !xt,
                d == depth as nat,
                depth > 0,
                n == moves@.len(),
                is_candidate_set(b0, moves@),
                forall|j: int| 0 <= j < n ==> is_candidate(b0, #[trigger] moves@[j].0 as int, moves@[j].1 as int),
                i <= n,
                alpha <= beta,
                value <= beta,
                a == (if alpha > value { alpha } else { value }),
                value >= beta && value > i64::MIN ==> 0 <= w < i && move_value(b0, xt, d, moves@[w]) >= value,
                value <= alpha ==> forall|j: int| 0 <= j < i ==> #[trigger] move_value(b0, xt, d, moves@[j]) <= value,
                alpha < value < beta ==> 0 <= w < i && move_value(b0, xt, d, moves@[w]) == value,
                alpha < value < beta ==> forall|j: int| 0 <= j < i ==> #[trigger] move_value(b0, xt, d, moves@[j]) <= value,
            decreases n - i,
        {
            let (x, y) = moves[i];
            set_cell(state, x, y, Tile::O);
            state.x_turn = true;
            let r = alphabeta(state, depth - 1, a, beta);
            state.x_turn = false;
            set_cell(state, x, y, Tile::Empty);
            proof {
                lemma_place_undo(b0, x as int, y as int, Tile::O);
                assert(state.board == b0);
                assert(move_value(b0, xt, d, moves@[i as int]) == minimax(place(b0, x as int, y as int, Tile::O), true, (d - 1) as nat));
            }
            let ghost old_value = value;
            if r > value {
                value = r;
                proof { w = i as int; }
            }
            if value > beta {
                proof {
                    lemma_best_child_bounds(b0, xt, d, 0, x as int, y as int);
                }
                return value;
            }
            a = if a > value { a } else { value };
            i = i + 1;
        }
        proof {
            if value <= alpha || (alpha < value < beta) {
                assert forall|x: int, y: int|
                    #![trigger is_candidate(b0, x, y)]
                    0 <= 15 * x + y && is_candidate(b0, x, y) implies child_value(b0, xt, d, x, y) <= value by {
                    lemma_candidate_listed(b0, moves@, x, y);
                    let j = choose|j: int| 0 <= j < moves@.len() && #[trigger] moves@[j] == (x as usize, y as usize);
                    assert(move_value(b0, xt, d, moves@[j]) <= value);
                }
                lemma_best_child_limit(b0, xt, d, 0, value as int);
            }
            lemma_best_child_range(b0, xt, d, 0);
            if (value >= beta && value > i64::MIN) || (alpha < value < beta) {
                let m = moves@[w];
                lemma_best_child_bounds(b0, xt, d, 0, m.0 as int, m.1 as int);
            }
        }
        value
    } else {
        let mut value: i64 = i64::MAX;
        let mut bb: i64 = beta;
        let mut i: usize = 0;
        let ghost mut w: int = 0;
        while i < n
            invariant
                *state == s0,
                s0 == *old(state),
                minimax(b0, xt, d) == best_child(b0, xt, d, 0),
                b0 == s0.board,
                xt == s0.x_turn,
                xt,
                d == depth as nat,
                depth > 0,
                n == moves@.len(),
                is_candidate_set(b0, moves@),
                forall|j: int| 0 <= j < n ==> is_candidate(b0, #[trigger] moves@[j].0 as int, moves@[j].1 as int),
                i <= n,
                alpha <= beta,
                value >= alpha,
                bb == (if beta < value { beta } else { value }),
                value <= alpha && value < i64::MAX ==> 0 <= w < i && move_value(b0, xt, d, moves@[w]) <= value,
                value >= beta ==> forall|j: int| 0 <= j < i ==> #[trigger] move_value(b0, xt, d, moves@[j]) >= value,
                alpha < value < beta ==> 0 <= w < i && move_value(b0, xt, d, moves@[w]) == value,
                alpha < value < beta ==> forall|j: int| 0 <= j < i ==> #[trigger] move_value(b0, xt, d, moves@[j]) >= value,
            decreases n - i,
        {
            let (x, y) = moves[i];
            set_cell(state, x, y, Tile::X);
            state.x_turn = false;
            let r = alphabeta(state, depth - 1, alpha, bb);
            state.x_turn = true;
            set_cell(state, x, y, Tile::Empty);
            proof {
                lemma_place_undo(b0, x as int, y as int, Tile::X);
                assert(state.board == b0);
                assert(move_value(b0, xt, d, moves@[i as int]) == minimax(place(b0, x as int, y as int, Tile::X), false, (d - 1) as nat));
            }
            if r < value {
                value = r;
                proof { w = i as int; }
            }
            if value < alpha {
                proof {
                    lemma_best_child_bounds(b0, xt, d, 0, x as int, y as int);
                }
                return value;
            }
            bb = if bb < value { bb } else { value };
            i = i + 1;
        }
        proof {
            if value >= beta || (alpha < value < beta) {
                assert forall|x: int, y: int|
                    #![trigger is_candidate(b0, x, y)]
                    0 <= 15 * x + y && is_candidate(b0, x, y) implies child_value(b0, xt, d, x, y) >= value by {
                    lemma_candidate_listed(b0, moves@, x, y);
                    let j = choose|j: int| 0 <= j < moves@.len() && #[trigger] moves@[j] == (x as usize, y as usize);
                    assert(move_value(b0, xt, d, moves@[j]) >= value);
                }
                lemma_best_child_limit(b0, xt, d, 0, value as int);
            }
            lemma_best_child_range(b0, xt, d, 0);
            if (value <= alpha && value < i64::MAX) || (alpha < value < beta) {
                let m = moves@[w];
                lemma_best_child_bounds(b0, xt, d, 0, m.0 as int, m.1 as int);
            }
        }
        value
    }
}


/// Some cell of the board is empty.
pub open spec fn has_empty_cell(b: [[Tile; 15]; 15]) -> bool {
    exists|x: int, y: int| on_board(x, y) && #[trigger] cell(b, x, y) == Tile::Empty
}

proof fn lemma_candidate_near(b: [[Tile; 15]; 15], sx: int, sy: int, ex: int, ey: int)
    requires
        on_board(sx, sy),
        on_board(ex, ey),
        cell(b, sx, sy) != Tile::Empty,
        cell(b, ex, ey) == Tile::Empty,
    ensures
        exists|x: int, y: int| #[trigger] is_candidate(b, x, y),
    decreases (if sx < ex { ex - sx } else { sx - ex }) + (if sy < ey { ey - sy } else { sy - ey }),
{
    if ex - 2 <= sx <= ex + 2 && ey - 2 <= sy <= ey + 2 {
        assert(cell(b, sx, sy) != Tile::Empty);
        assert(near_stone(b, ex, ey));
        assert(is_candidate(b, ex, ey));
    } else {
        let nx = if sx < ex { sx + 1 } else if sx > ex { sx - 1 } else { sx };
        let ny = if sy < ey { sy + 1 } else if sy > ey { sy - 1 } else { sy };
        if cell(b, nx, ny) == Tile::Empty {
            assert(cell(b, sx, sy) != Tile::Empty);
            assert(near_stone(b, nx, ny));
            assert(is_candidate(b, nx, ny));
        } else {
            lemma_candidate_near(b, nx, ny, ex, ey);
        }
    }
}

/// A board with an empty cell has a candidate move.
proof fn lemma_candidate_exists(b: [[Tile; 15]; 15])
    requires
        has_empty_cell(b),
    ensures
        exists|x: int, y: int| #[trigger] is_candidate(b, x, y),
{
    let (ex, ey) = choose|x: int, y: int| on_board(x, y) && #[trigger] cell(b, x, y) == Tile::Empty;
    if board_is_empty(b) {
        assert(is_candidate(b, ex, ey));
    } else {
        let (sx, sy) = choose|x: int, y: int| !(on_board(x, y) ==> #[trigger] cell(b, x, y) == Tile::Empty);
        lemma_candidate_near(b, sx, sy, ex, ey);
    }
}

/// The best move for the side to move, with its search value (in tenths).
/// Each candidate is played, searched `DEPTH` plies deeper, and taken back;
/// the first of the best-valued candidates in the random order wins.
pub fn bot_move(state: &mut GameState) -> (r: ((usize, usize), i64))
    requires
        has_empty_cell(old(state).board),
    ensures
        *final(state) == *old(state),
        is_candidate(old(state).board, r.0.0 as int, r.0.1 as int),
        r.1 == move_value(old(state).board, old(state).x_turn, DEPTH as nat + 1, r.0),
        r.1 == best_child(old(state).board, old(state).x_turn, DEPTH as nat + 1, 0),
{
    let ghost s0 = *state;
    let ghost b0 = state.board;
    let ghost xt = state.x_turn;
    let ghost d: nat = DEPTH as nat + 1;
    let moves = move_gen(state);
    let n = moves.len();
    proof {
        lemma_candidate_exists(b0);
        let (cx, cy) = choose|x: int, y: int| #[trigger] is_candidate(b0, x, y);
        lemma_candidate_listed(b0, moves@, cx, cy);
    }
    let mover = if state.x_turn { Tile::X } else { Tile::O };
    let mut best: (usize, usize) = moves[0];
    let mut value: i64 = 0;
    let mut i: usize = 0;
    while i < n
        invariant
            *state == s0,
            s0 == *old(state),
            b0 == s0.board,
            xt == s0.x_turn,
            mover == stone_of(xt),
            d == DEPTH as nat + 1,
            n == moves@.len(),
            n > 0,
            is_candidate_set(b0, moves@),
            forall|j: int| 0 <= j < n ==> is_candidate(b0, #[trigger] moves@[j].0 as int, moves@[j].1 as int),
            i <= n,
            is_candidate(b0, best.0 as int, best.1 as int),
            i > 0 ==> value == move_value(b0, xt, d, best),
            forall|j: int| 0 <= j < i ==> (if xt {
                #[trigger] move_value(b0, xt, d, moves@[j]) >= value
            } else {
                move_value(b0, xt, d, moves@[j]) <= value
            }),
        decreases n - i,
    {
        let (x, y) = moves[i];
        set_cell(state, x, y, mover);
        state.x_turn = !state.x_turn;
        let v = alphabeta(state, DEPTH, i64::MIN, i64::MAX);
        state.x_turn = !state.x_turn;
        set_cell(state, x, y, Tile::Empty);
        proof {
            lemma_place_undo(b0, x as int, y as int, mover);
            assert(state.board == b0);
            let child = place(b0, x as int, y as int, mover);
            lemma_minimax_range(child, !xt, DEPTH as nat);
            assert(move_value(b0, xt, d, moves@[i as int]) == minimax(child, !xt, DEPTH as nat));
        }
        if i == 0 || (state.x_turn && v < value) || (!state.x_turn && v > value) {
            value = v;
            best = (x, y);
        }
        i = i + 1;
    }
    proof {
        assert forall|x: int, y: int|
            #![trigger is_candidate(b0, x, y)]
            0 <= 15 * x + y && is_candidate(b0, x, y) implies (if xt {
                child_value(b0, xt, d, x, y) >= value
            } else {
                child_value(b0, xt, d, x, y) <= value
            }) by {
            lemma_candidate_listed(b0, moves@, x, y);
            let j = choose|j: int| 0 <= j < moves@.len() && #[trigger] moves@[j] == (x as usize, y as usize);
            assert(move_value(b0, xt, d, moves@[j]) == child_value(b0, xt, d, x, y));
        }
        lemma_best_child_limit(b0, xt, d, 0, value as int);
        lemma_best_child_bounds(b0, xt, d, 0, best.0 as int, best.1 as int);
    }
    (best, value)
}

} // verus!
