//! Queen reach tables: for every square, the squares that a bishop and a
//! rook standing there could slide to on an empty board.
use vstd::prelude::*;
use crate::bb::{bits_below, has_bit, lemma_bit_or, lemma_empty_board, popcount, BBTrait, BB};

verus! {

/// Row of a square (0 at the first rank).
pub open spec fn row_of(sq: int) -> int {
    sq / 8
}

/// Column of a square (0 at file a).
pub open spec fn col_of(sq: int) -> int {
    sq % 8
}

pub open spec fn abs(x: int) -> int {
    if x < 0 {
        -x
    } else {
        x
    }
}

/// `t` is another square on a diagonal through `s`.
pub open spec fn diagonal_reach(s: int, t: int) -> bool {
    s != t && abs(row_of(t) - row_of(s)) == abs(col_of(t) - col_of(s))
}

/// `t` is another square on the row or the column of `s`.
pub open spec fn straight_reach(s: int, t: int) -> bool {
    s != t && (row_of(t) == row_of(s) || col_of(t) == col_of(s))
}

/// `t` is another square on a line (row, column or diagonal) through `s`.
pub open spec fn queen_reach(s: int, t: int) -> bool {
    diagonal_reach(s, t) || straight_reach(s, t)
}

/// `t` lies `k` steps of `(dr, dc)` away from `s`, for some `0 < k < n`.
pub open spec fn on_ray(s: int, t: int, dr: int, dc: int, n: int) -> bool {
    let k = if dr != 0 {
        (row_of(t) - row_of(s)) * dr
    } else {
        (col_of(t) - col_of(s)) * dc
    };
    &&& 0 < k < n
    &&& row_of(t) - row_of(s) == k * dr
    &&& col_of(t) - col_of(s) == k * dc
}

/// `b` holds exactly the squares that a bishop on `s` reaches.
pub open spec fn is_bishop_reach(b: u64, s: int) -> bool {
    forall|t: u64| t < 64 ==> #[trigger] has_bit(b, t) == diagonal_reach(s, t as int)
}

/// `b` holds exactly the squares that a rook on `s` reaches.
pub open spec fn is_rook_reach(b: u64, s: int) -> bool {
    forall|t: u64| t < 64 ==> #[trigger] has_bit(b, t) == straight_reach(s, t as int)
}

/// A square is determined by its row and its column.
pub proof fn lemma_square(t: int, r: int, c: int)
    requires
        0 <= t < 64,
        0 <= r < 8,
        0 <= c < 8,
    ensures
        (t == r * 8 + c) <==> (row_of(t) == r && col_of(t) == c),
{
}

/// `t` is reached from `s` by one of the eight rays of a queen: four
/// diagonal, four along a row or a column, each ending at the board's edge.
pub open spec fn on_queen_ray(s: int, t: int) -> bool {
    ||| on_ray(s, t, 1, 1, 8)
    ||| on_ray(s, t, 1, -1, 8)
    ||| on_ray(s, t, -1, 1, 8)
    ||| on_ray(s, t, -1, -1, 8)
    ||| on_ray(s, t, 1, 0, 8)
    ||| on_ray(s, t, -1, 0, 8)
    ||| on_ray(s, t, 0, 1, 8)
    ||| on_ray(s, t, 0, -1, 8)
}

/// How many squares below `n` a queen on `s` reaches along its rays.
pub open spec fn ray_squares_below(s: int, n: int) -> nat
    decreases n,
{
    if n <= 0 {
        0
    } else {
        ray_squares_below(s, n - 1) + if on_queen_ray(s, n - 1) {
            1nat
        } else {
            0nat
        }
    }
}

/// Square `r * 8 + c` is the one square of row `r` and column `c`.
pub proof fn lemma_square_each(r: int, c: int)
    requires
        0 <= r < 8,
        0 <= c < 8,
    ensures
        forall|t: u64|
            t < 64 ==> ((t == r * 8 + c) <==> (#[trigger] row_of(t as int) == r && col_of(
                t as int,
            ) == c)),
{
    assert forall|t: u64| t < 64 implies ((t == r * 8 + c) <==> (#[trigger] row_of(t as int)
        == r && col_of(t as int) == c)) by {
        lemma_square(t as int, r, c);
    }
}

/// The moves of a queen on every square, kept as its bishop part and its
/// rook part.
pub struct SlidingAttack {
    pub bishop_moves: [BB; 64],
    pub rook_moves: [BB; 64],
}

impl SlidingAttack {
    /// Both tables hold, for every square, exactly the reach of their piece.
    pub open spec fn wf(&self) -> bool {
        &&& forall|s: int| 0 <= s < 64 ==> is_bishop_reach(#[trigger] self.bishop_moves@[s], s)
        &&& forall|s: int| 0 <= s < 64 ==> is_rook_reach(#[trigger] self.rook_moves@[s], s)
    }

    pub fn new() -> (r: Self)
        ensures
            r.wf(),
    {
        let mut instance = Self { bishop_moves: [0; 64], rook_moves: [0; 64] };
        instance.init();
        instance
    }

    fn init(&mut self)
        ensures
            final(self).wf(),
    {
        let mut sq: usize = 0;
        while sq < 64
            invariant
                sq <= 64,
                forall|s: int| 0 <= s < sq ==> is_bishop_reach(#[trigger] self.bishop_moves@[s], s),
                forall|s: int| 0 <= s < sq ==> is_rook_reach(#[trigger] self.rook_moves@[s], s),
            decreases 64 - sq,
        {
            self.bishop_moves[sq] = gen_bishop_attack(sq as u8);
            self.rook_moves[sq] = gen_rook_attack(sq as u8);
            sq += 1;
        }
    }
}

/// No bishop reach holds its own square, and every square it holds is as
/// many rows as columns away.
pub proof fn lemma_bishop_reach_diagonal(table: &SlidingAttack, sq: int)
    requires
        table.wf(),
        0 <= sq < 64,
    ensures
        !has_bit(table.bishop_moves@[sq], sq as u64),
        forall|t: u64|
            t < 64 && #[trigger] has_bit(table.bishop_moves@[sq], t) ==> abs(
                row_of(t as int) - row_of(sq),
            ) == abs(col_of(t as int) - col_of(sq)),
{
    assert(is_bishop_reach(table.bishop_moves@[sq], sq));
}

/// No rook reach holds its own square, and every square it holds shares
/// the row or the column of it.
pub proof fn lemma_rook_reach_straight(table: &SlidingAttack, sq: int)
    requires
        table.wf(),
        0 <= sq < 64,
    ensures
        !has_bit(table.rook_moves@[sq], sq as u64),
        forall|t: u64|
            t < 64 && #[trigger] has_bit(table.rook_moves@[sq], t) ==> row_of(t as int) == row_of(
                sq,
            ) || col_of(t as int) == col_of(sq),
{
    assert(is_rook_reach(table.rook_moves@[sq], sq));
}

/// The queen reach of a square, bishop part and rook part together, has as
/// many squares as the eight rays from it cover, none wrapping round an edge.
pub proof fn lemma_queen_reach_count(table: &SlidingAttack, sq: int)
    requires
        table.wf(),
        0 <= sq < 64,
    ensures
        popcount(table.bishop_moves@[sq] | table.rook_moves@[sq]) == ray_squares_below(sq, 64),
{
    let b = table.bishop_moves@[sq];
    let r = table.rook_moves@[sq];
    assert(is_bishop_reach(b, sq));
    assert(is_rook_reach(r, sq));
    assert forall|t: u64| t < 64 implies #[trigger] has_bit(b | r, t) == on_queen_ray(
        sq,
        t as int,
    ) by {
        lemma_bit_or(b, r, t);
    }
    lemma_reach_count_below(b | r, sq, 64);
}

proof fn lemma_reach_count_below(q: u64, sq: int, n: int)
    requires
        n <= 64,
        forall|t: u64| t < 64 ==> #[trigger] has_bit(q, t) == on_queen_ray(sq, t as int),
    ensures
        bits_below(q, n) == ray_squares_below(sq, n),
    decreases n,
{
    if n > 0 {
        lemma_reach_count_below(q, sq, n - 1);
        assert(has_bit(q, (n - 1) as u64) == on_queen_ray(sq, n - 1));
    }
}

fn gen_bishop_attack(sq: u8) -> (r: BB)
    requires
        sq < 64,
    ensures
        is_bishop_reach(r, sq as int),
{
    let ghost s = sq as int;
    let mut bishop_moves: BB = 0;
    proof {
        lemma_empty_board();
    }
    let start_row: i8 = (sq / 8) as i8;
    let start_col: i8 = (sq % 8) as i8;

    // North east
    let mut r: i8 = start_row + 1;
    let mut c: i8 = start_col + 1;
    while r <= 7 && c <= 7
        invariant
            0 <= s < 64,
            start_row == row_of(s),
            start_col == col_of(s),
            0 <= start_row < 8,
            0 <= start_col < 8,
            r - start_row == c - start_col,
            1 <= r - start_row,
            r <= 8,
            c <= 8,
            forall|t: u64|
                t < 64 ==> #[trigger] has_bit(bishop_moves, t) == on_ray(
                    s,
                    t as int,
                    1,
                    1,
                    r - start_row,
                ),
        decreases 8 - r,
    {
        proof {
            lemma_square_each(r as int, c as int);
        }
        bishop_moves.set_bit(r * 8 + c);
        r += 1;
        c += 1;
    }

    // North west
    r = start_row + 1;
    c = start_col - 1;
    while r <= 7 && c >= 0
        invariant
            0 <= s < 64,
            start_row == row_of(s),
            start_col == col_of(s),
            0 <= start_row < 8,
            0 <= start_col < 8,
            r - start_row == start_col - c,
            1 <= r - start_row,
            r <= 8,
            c >= -1,
            forall|t: u64|
                t < 64 ==> #[trigger] has_bit(bishop_moves, t) == (on_ray(s, t as int, 1, 1, 8)
                    || on_ray(s, t as int, 1, -1, r - start_row)),
        decreases 8 - r,
    {
        proof {
            lemma_square_each(r as int, c as int);
        }
        bishop_moves.set_bit(r * 8 + c);
        r += 1;
        c -= 1;
    }

    // South east
    r = start_row - 1;
    c = start_col + 1;
    while r >= 0 && c <= 7
        invariant
            0 <= s < 64,
            start_row == row_of(s),
            start_col == col_of(s),
            0 <= start_row < 8,
            0 <= start_col < 8,
            start_row - r == c - start_col,
            1 <= start_row - r,
            r >= -1,
            c <= 8,
            forall|t: u64|
                t < 64 ==> #[trigger] has_bit(bishop_moves, t) == (on_ray(s, t as int, 1, 1, 8)
                    || on_ray(s, t as int, 1, -1, 8) || on_ray(
                    s,
                    t as int,
                    -1,
                    1,
                    start_row - r,
                )),
        decreases r + 1,
    {
        proof {
            lemma_square_each(r as int, c as int);
        }
        bishop_moves.set_bit(r * 8 + c);
        r -= 1;
        c += 1;
    }

    // South west
    r = start_row - 1;
    c = start_col - 1;
    while r >= 0 && c >= 0
        invariant
            0 <= s < 64,
            start_row == row_of(s),
            start_col == col_of(s),
            0 <= start_row < 8,
            0 <= start_col < 8,
            start_row - r == start_col - c,
            1 <= start_row - r,
            r >= -1,
            c >= -1,
            forall|t: u64|
                t < 64 ==> #[trigger] has_bit(bishop_moves, t) == (on_ray(s, t as int, 1, 1, 8)
                    || on_ray(s, t as int, 1, -1, 8) || on_ray(s, t as int, -1, 1, 8) || on_ray(
                    s,
                    t as int,
                    -1,
                    -1,
                    start_row - r,
                )),
        decreases r + 1,
    {
        proof {
            lemma_square_each(r as int, c as int);
        }
        bishop_moves.set_bit(r * 8 + c);
        r -= 1;
        c -= 1;
    }
    bishop_moves
}

fn gen_rook_attack(sq: u8) -> (r: BB)
    requires
        sq < 64,
    ensures
        is_rook_reach(r, sq as int),
{
    let ghost s = sq as int;
    let mut rook_moves: BB = 0;
    proof {
        lemma_empty_board();
    }
    let start_row: i8 = (sq / 8) as i8;
    let start_col: i8 = (sq % 8) as i8;

    // North
    let mut r: i8 = start_row + 1;
    while r <= 7
        invariant
            0 <= s < 64,
            start_row == row_of(s),
            start_col == col_of(s),
            0 <= start_row < 8,
            0 <= start_col < 8,
            1 <= r - start_row,
            r <= 8,
            forall|t: u64|
                t < 64 ==> #[trigger] has_bit(rook_moves, t) == on_ray(
                    s,
                    t as int,
                    1,
                    0,
                    r - start_row,
                ),
        decreases 8 - r,
    {
        proof {
            lemma_square_each(r as int, start_col as int);
        }
        rook_moves.set_bit(r * 8 + start_col);
        r += 1;
    }

    // South
    r = start_row - 1;
    while r >= 0
        invariant
            0 <= s < 64,
            start_row == row_of(s),
            start_col == col_of(s),
            0 <= start_row < 8,
            0 <= start_col < 8,
            1 <= start_row - r,
            r >= -1,
            forall|t: u64|
                t < 64 ==> #[trigger] has_bit(rook_moves, t) == (on_ray(s, t as int, 1, 0, 8)
                    || on_ray(s, t as int, -1, 0, start_row - r)),
        decreases r + 1,
    {
        proof {
            lemma_square_each(r as int, start_col as int);
        }
        rook_moves.set_bit(r * 8 + start_col);
        r -= 1;
    }

    // East
    let mut c: i8 = start_col + 1;
    while c <= 7
        invariant
            0 <= s < 64,
            start_row == row_of(s),
            start_col == col_of(s),
            0 <= start_row < 8,
            0 <= start_col < 8,
            1 <= c - start_col,
            c <= 8,
            forall|t: u64|
                t < 64 ==> #[trigger] has_bit(rook_moves, t) == (on_ray(s, t as int, 1, 0, 8)
                    || on_ray(s, t as int, -1, 0, 8) || on_ray(
                    s,
                    t as int,
                    0,
                    1,
                    c - start_col,
                )),
        decreases 8 - c,
    {
        proof {
            lemma_square_each(start_row as int, c as int);
        }
        rook_moves.set_bit(start_row * 8 + c);
        c += 1;
    }

    // West
    c = start_col - 1;
    while c >= 0
        invariant
            0 <= s < 64,
            start_row == row_of(s),
            start_col == col_of(s),
            0 <= start_row < 8,
            0 <= start_col < 8,
            1 <= start_col - c,
            c >= -1,
            forall|t: u64|
                t < 64 ==> #[trigger] has_bit(rook_moves, t) == (on_ray(s, t as int, 1, 0, 8)
                    || on_ray(s, t as int, -1, 0, 8) || on_ray(s, t as int, 0, 1, 8) || on_ray(
                    s,
                    t as int,
                    0,
                    -1,
                    start_col - c,
                )),
        decreases c + 1,
    {
        proof {
            lemma_square_each(start_row as int, c as int);
        }
        rook_moves.set_bit(start_row * 8 + c);
        c -= 1;
    }
    rook_moves
}

} // verus!
