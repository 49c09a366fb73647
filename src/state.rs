use vstd::prelude::*;

verus! {


/// The content of one board cell.
#[derive(Clone, Copy, PartialEq, Eq, Structural, Debug)]
pub enum Tile {
    Empty,
    X,
    O,
}

/// A board position plus the side to move (`x_turn` is true when X moves).
/// The board is indexed `board[x][y]`.
pub struct GameState {
    pub x_turn: bool,
    pub board: [[Tile; 15]; 15],
}

/// The cell at `(x, y)`.
pub open spec fn cell(b: [[Tile; 15]; 15], x: int, y: int) -> Tile {
    b[x][y]
}

/// Whether `(x, y)` lies on the board.
pub open spec fn on_board(x: int, y: int) -> bool {
    0 <= x < 15 && 0 <= y < 15
}

/// Whether every cell of the board is empty.
pub open spec fn board_is_empty(b: [[Tile; 15]; 15]) -> bool {
    forall|x: int, y: int| on_board(x, y) ==> #[trigger] cell(b, x, y) == Tile::Empty
}

impl GameState {
    /// An empty board, with X to move first when `player_start` holds.
    pub fn new(player_start: bool) -> (r: Self)
        ensures
            r.x_turn == player_start,
            board_is_empty(r.board),
    {
        let r = GameState { x_turn: player_start, board: [[Tile::Empty; 15]; 15] };
        r
    }
}

} // verus!
