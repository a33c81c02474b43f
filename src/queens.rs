//! What a placement is worth: the queens that no other queen attacks, stated
//! on the genes and on the board bitboard, and how the two agree.
use vstd::prelude::*;
use crate::attack::{abs, col_of, lemma_square, queen_reach, row_of};
use crate::bb::has_bit;

verus! {

/// The queen of row `i` shares no column and no diagonal with the queen of
/// any other row.
pub open spec fn queen_is_free(g: Seq<u8>, i: int) -> bool {
    forall|j: int|
        0 <= j < 8 && j != i ==> #[trigger] g[j] != g[i] && abs(g[j] - g[i]) != abs(j - i)
}

/// How many of the queens of rows `[0, n)` are free.
pub open spec fn count_free(g: Seq<u8>, n: int) -> nat
    decreases n,
{
    if n <= 0 {
        0
    } else {
        count_free(g, n - 1) + if queen_is_free(g, n - 1) {
            1nat
        } else {
            0nat
        }
    }
}

/// How many of the eight queens no other queen attacks.
pub open spec fn safe_queens(g: Seq<u8>) -> nat {
    count_free(g, 8)
}

/// At most one free queen per row.
pub proof fn lemma_count_free_bound(g: Seq<u8>, n: int)
    ensures
        count_free(g, n) <= if n < 0 {
            0
        } else {
            n
        },
    decreases n,
{
    if n > 0 {
        lemma_count_free_bound(g, n - 1);
    }
}

/// Eight genes, each a column.
pub open spec fn genes_wf(g: Seq<u8>) -> bool {
    g.len() == 8 && forall|i: int| 0 <= i < 8 ==> #[trigger] g[i] < 8
}

/// `b` holds exactly one square per row: the column that `g` gives it.
pub open spec fn is_board_of(b: u64, g: Seq<u8>) -> bool {
    forall|t: u64| t < 64 ==> #[trigger] has_bit(b, t) == (g[row_of(t as int)] == col_of(t as int))
}

/// No square of `b` is on a line through `s`.
pub open spec fn square_is_free(b: u64, s: int) -> bool {
    forall|u: u64| u < 64 && #[trigger] has_bit(b, u) ==> !queen_reach(s, u as int)
}

/// How many squares below `k` hold a piece of `b` that no other piece of
/// `b` sees.
pub open spec fn free_squares(b: u64, k: int) -> nat
    decreases k,
{
    if k <= 0 {
        0
    } else {
        free_squares(b, k - 1) + if has_bit(b, (k - 1) as u64) && square_is_free(b, k - 1) {
            1nat
        } else {
            0nat
        }
    }
}

/// At most one free piece per square.
pub proof fn lemma_free_squares_bound(b: u64, k: int)
    ensures
        free_squares(b, k) <= if k < 0 {
            0
        } else {
            k
        },
    decreases k,
{
    if k > 0 {
        lemma_free_squares_bound(b, k - 1);
    }
}

/// Squares without a piece add nothing to the count.
pub proof fn lemma_free_squares_skip(b: u64, k: int, m: int)
    requires
        0 <= k <= m <= 64,
        forall|t: u64| k <= t < m ==> !#[trigger] has_bit(b, t),
    ensures
        free_squares(b, m) == free_squares(b, k),
    decreases m - k,
{
    if m > k {
        assert(!has_bit(b, (m - 1) as u64));
        lemma_free_squares_skip(b, k, m - 1);
    }
}

/// On the board of `g`, the square of row `r`'s queen is free exactly when
/// that queen is.
pub proof fn lemma_square_free_iff(b: u64, g: Seq<u8>, r: int)
    requires
        genes_wf(g),
        is_board_of(b, g),
        0 <= r < 8,
    ensures
        square_is_free(b, r * 8 + g[r]) == queen_is_free(g, r),
{
    let s = r * 8 + g[r];
    assert(g[r] < 8);
    lemma_square(s, r, g[r] as int);
    if queen_is_free(g, r) {
        assert forall|u: u64| u < 64 && #[trigger] has_bit(b, u) implies !queen_reach(
            s,
            u as int,
        ) by {
            let j = row_of(u as int);
            assert(g[j] < 8);
            lemma_square(u as int, j, g[j] as int);
            if j != r {
                assert(g[j] != g[r] && abs(g[j] - g[r]) != abs(j - r));
            }
        }
    }
    if square_is_free(b, s) {
        assert forall|j: int| 0 <= j < 8 && j != r implies #[trigger] g[j] != g[r] && abs(
            g[j] - g[r],
        ) != abs(j - r) by {
            assert(g[j] < 8);
            let u = j * 8 + g[j];
            lemma_square(u, j, g[j] as int);
            assert(has_bit(b, u as u64));
        }
    }
}

/// Counting the free pieces square by square counts the free queens row by
/// row: part way through row `r`, its queen counts once its column is passed.
pub proof fn lemma_board_rows(b: u64, g: Seq<u8>, r: int, c: int)
    requires
        genes_wf(g),
        is_board_of(b, g),
        0 <= r < 8,
        0 <= c <= 8,
    ensures
        free_squares(b, r * 8 + c) == count_free(g, r) + if g[r] < c && queen_is_free(g, r) {
            1nat
        } else {
            0nat
        },
    decreases r, c,
{
    assert(g[r] < 8);
    if c == 0 {
        if r > 0 {
            lemma_board_rows(b, g, r - 1, 8);
            assert(g[r - 1] < 8);
        }
    } else {
        lemma_board_rows(b, g, r, c - 1);
        let t = r * 8 + c - 1;
        lemma_square(t, r, c - 1);
        assert(has_bit(b, t as u64) == (g[r] == c - 1));
        if g[r] == c - 1 {
            lemma_square_free_iff(b, g, r);
        }
    }
}

/// All 64 squares: the free pieces of the board of `g` are its free queens.
pub proof fn lemma_board_safe_queens(b: u64, g: Seq<u8>)
    requires
        genes_wf(g),
        is_board_of(b, g),
    ensures
        free_squares(b, 64) == safe_queens(g),
{
    lemma_board_rows(b, g, 7, 8);
    assert(g[7] < 8);
}

} // verus!
