use vstd::prelude::*;

use crate::lines::{extract_line, line_of, N_LINES};
use crate::state::{GameState, Tile};

verus! {

/// Five equal stones of one colour start at position `p` of `s`.
pub open spec fn five_at(s: Seq<Tile>, p: int) -> bool {
    &&& 0 <= p
    &&& p + 5 <= s.len()
    &&& s[p] != Tile::Empty
    &&& forall|q: int| p <= q < p + 5 ==> #[trigger] s[q] == s[p]
}

/// Some five consecutive cells of `s` hold the same stone.
pub open spec fn line_has_five(s: Seq<Tile>) -> bool {
    exists|p: int| five_at(s, p)
}

/// Some row, column or diagonal of the board holds five equal stones in a row.
pub open spec fn five_in_a_row(b: [[Tile; 15]; 15]) -> bool {
    exists|k: int| 0 <= k < N_LINES && #[trigger] line_has_five(line_of(b, k))
}

/// Whether the line holds five or more consecutive equal stones.
pub fn eval_line(line: Vec<Tile>) -> (r: bool)
    ensures
        r == line_has_five(line@),
{
    let s = Ghost(line@);
    let n = line.len();
    let mut run: usize = 0;
    let mut prev: Tile = Tile::Empty;
    let mut i: usize = 0;
    while i < n
        invariant
            s@ == line@,
            n == line@.len(),
            i <= n,
            i > 0 ==> prev == s@[i - 1],
            i > 0 ==> 1 <= run <= i,
            i > 0 ==> forall|q: int| i - run <= q < i ==> #[trigger] s@[q] == prev,
            i > 0 && run < i ==> s@[i - run - 1] != prev,
            forall|p: int| p + 5 <= i ==> !five_at(s@, p),
        decreases n - i,
    {
        let t = line[i];
        if i > 0 && t == prev {
            run = run + 1;
        } else {
            run = 1;
            prev = t;
        }
        if run >= 5 && t != Tile::Empty {
            assert(five_at(s@, i - 4));
            return true;
        }
        assert forall|p: int| p + 5 <= i + 1 implies !five_at(s@, p) by {
            if p + 5 == i + 1 && five_at(s@, p) {
                assert(s@[p] == s@[i as int]);
                assert(s@[i - run] != prev);
                assert(s@[i - run] == s@[p]);
            }
        }
        i = i + 1;
    }
    false
}

/// Whether some row, column or diagonal holds five equal stones in a row.
pub fn check_win(state: &GameState) -> (r: bool)
    ensures
        r == five_in_a_row(state.board),
{
    let mut k: usize = 0;
    while k < N_LINES
        invariant
            k <= N_LINES,
            forall|kk: int| 0 <= kk < k ==> !#[trigger] line_has_five(line_of(state.board, kk)),
        decreases N_LINES - k,
    {
        let line = extract_line(&state.board, k);
        if eval_line(line) {
            return true;
        }
        k = k + 1;
    }
    false
}

} // verus!
