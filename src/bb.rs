//! Bitboards: a `u64` whose bit `row * 8 + col` stands for one square.
use vstd::prelude::*;
use vstd::std_specs::bits::axiom_u64_trailing_zeros;
use vstd::std_specs::bits::u64_trailing_zeros;

verus! {

/// A set of board squares, one bit per square.
pub type BB = u64;

/// Bit `i` of `b` is set.
pub open spec fn has_bit(b: u64, i: u64) -> bool {
    (b >> i) & 1u64 == 1u64
}

/// `i` is the lowest set bit of `b`.
pub open spec fn is_lowest_bit(b: u64, i: u64) -> bool {
    &&& i < 64
    &&& has_bit(b, i)
    &&& forall|j: u64| j < i ==> !#[trigger] has_bit(b, j)
}

/// How many of the bits below `n` are set.
pub open spec fn bits_below(b: u64, n: int) -> nat
    decreases n,
{
    if n <= 0 {
        0
    } else {
        bits_below(b, n - 1) + if has_bit(b, (n - 1) as u64) {
            1nat
        } else {
            0nat
        }
    }
}

/// The number of set bits.
pub open spec fn popcount(b: u64) -> nat {
    bits_below(b, 64)
}

/// The square that `pop_lsb` returns: the lowest set bit, 0 for an empty board.
pub open spec fn lowest(b: u64) -> u64 {
    if b == 0 {
        0
    } else {
        b.trailing_zeros() as u64
    }
}

/// The board that `pop_lsb` leaves: its lowest set bit cleared.
pub open spec fn without_lowest(b: u64) -> u64 {
    if b == 0 {
        0
    } else {
        b & !(1u64 << lowest(b))
    }
}

/// The squares returned by `n` calls of `pop_lsb` from `b`, in order.
pub open spec fn pops(b: u64, n: nat) -> Seq<u64>
    decreases n,
{
    if n == 0 {
        Seq::empty()
    } else {
        seq![lowest(b)] + pops(without_lowest(b), (n - 1) as nat)
    }
}

/// The board left by `n` calls of `pop_lsb` from `b`.
pub open spec fn after_pops(b: u64, n: nat) -> u64
    decreases n,
{
    if n == 0 {
        b
    } else {
        after_pops(without_lowest(b), (n - 1) as nat)
    }
}

/// Setting square `k` adds `k` and keeps every other square.
pub proof fn lemma_bit_with(x: u64, k: u64, t: u64)
    requires
        k < 64,
        t < 64,
    ensures
        has_bit(x | (1u64 << k), t) == (has_bit(x, t) || t == k),
{
    assert(((x | (1u64 << k)) >> t) & 1u64 == 1u64 <==> (((x >> t) & 1u64 == 1u64) || t == k))
        by (bit_vector)
        requires
            k < 64,
            t < 64,
    ;
}

/// Clearing square `k` removes `k` and keeps every other square.
pub proof fn lemma_bit_without(x: u64, k: u64, t: u64)
    requires
        k < 64,
        t < 64,
    ensures
        has_bit(x & !(1u64 << k), t) == (has_bit(x, t) && t != k),
{
    assert(((x & !(1u64 << k)) >> t) & 1u64 == 1u64 <==> (((x >> t) & 1u64 == 1u64) && t != k))
        by (bit_vector)
        requires
            k < 64,
            t < 64,
    ;
}

/// A square is in `a & b` when it is in both.
pub proof fn lemma_bit_and(a: u64, b: u64, t: u64)
    ensures
        has_bit(a & b, t) == (has_bit(a, t) && has_bit(b, t)),
{
    assert((((a & b) >> t) & 1u64 == 1u64) <==> (((a >> t) & 1u64 == 1u64) && ((b >> t) & 1u64
        == 1u64))) by (bit_vector);
}

/// A square is in `a | b` when it is in either.
pub proof fn lemma_bit_or(a: u64, b: u64, t: u64)
    ensures
        has_bit(a | b, t) == (has_bit(a, t) || has_bit(b, t)),
{
    assert((((a | b) >> t) & 1u64 == 1u64) <==> (((a >> t) & 1u64 == 1u64) || ((b >> t) & 1u64
        == 1u64))) by (bit_vector);
}

/// The empty board holds no square.
pub proof fn lemma_empty_board()
    ensures
        forall|t: u64| t < 64 ==> !#[trigger] has_bit(0u64, t),
{
    assert forall|t: u64| t < 64 implies !#[trigger] has_bit(0u64, t) by {
        assert((0u64 >> t) & 1u64 == 0u64) by (bit_vector);
    }
}

/// A bitboard is empty exactly when none of its 64 bits is set.
pub proof fn lemma_zero_iff_no_bits(x: u64)
    ensures
        x == 0 <==> forall|t: u64| t < 64 ==> !#[trigger] has_bit(x, t),
{
    assert forall|t: u64| x == 0 && t < 64 implies !#[trigger] has_bit(x, t) by {
        assert(x == 0 ==> (x >> t) & 1u64 == 0u64) by (bit_vector);
    }
    if x != 0 {
        axiom_u64_trailing_zeros(x);
        let tz = u64_trailing_zeros(x) as u64;
        assert(has_bit(x, tz));
    }
}

/// Two boards that agree on all 64 squares agree on the count below `n`.
pub proof fn lemma_bits_below_same(a: u64, b: u64, n: int)
    requires
        n <= 64,
        forall|t: u64| t < 64 ==> #[trigger] has_bit(a, t) == has_bit(b, t),
    ensures
        bits_below(a, n) == bits_below(b, n),
    decreases n,
{
    if n > 0 {
        lemma_bits_below_same(a, b, n - 1);
    }
}

/// Clearing one set bit lowers the count by one.
pub proof fn lemma_bits_below_clear(x: u64, y: u64, l: u64, n: int)
    requires
        0 <= n <= 64,
        l < 64,
        has_bit(x, l),
        forall|t: u64| t < 64 ==> #[trigger] has_bit(y, t) == (has_bit(x, t) && t != l),
    ensures
        bits_below(y, n) + (if l < n {
            1nat
        } else {
            0nat
        }) == bits_below(x, n),
    decreases n,
{
    if n > 0 {
        lemma_bits_below_clear(x, y, l, n - 1);
    }
}

/// A board with no set bit below `n` has a zero count there, and back.
pub proof fn lemma_bits_below_zero(x: u64, n: int)
    requires
        0 <= n <= 64,
    ensures
        (bits_below(x, n) == 0) == (forall|t: u64| t < n ==> !#[trigger] has_bit(x, t)),
    decreases n,
{
    if n > 0 {
        lemma_bits_below_zero(x, n - 1);
        if bits_below(x, n) == 0 {
            assert forall|t: u64| t < n implies !#[trigger] has_bit(x, t) by {
                if t < n - 1 {
                } else {
                    assert(t == n - 1);
                }
            }
        }
    }
}

/// What `pop_lsb` does to a non-empty board, bit by bit.
pub proof fn lemma_without_lowest(x: u64)
    requires
        x != 0,
    ensures
        is_lowest_bit(x, lowest(x)),
        forall|t: u64|
            t < 64 ==> #[trigger] has_bit(without_lowest(x), t) == (has_bit(x, t) && t
                != lowest(x)),
        popcount(without_lowest(x)) + 1 == popcount(x),
{
    axiom_u64_trailing_zeros(x);
    let l = lowest(x);
    assert forall|j: u64| j < l implies !#[trigger] has_bit(x, j) by {
        assert((x >> j) & 1u64 == 0u64);
    }
    assert forall|t: u64| t < 64 implies #[trigger] has_bit(without_lowest(x), t) == (has_bit(
        x,
        t,
    ) && t != l) by {
        lemma_bit_without(x, l, t);
    }
    lemma_bits_below_clear(x, without_lowest(x), l, 64);
}

/// Popping the lowest square as many times as the board has set bits
/// returns each of its squares, each once, in strictly increasing order, and
/// leaves the board empty.
pub proof fn lemma_pop_lsb_drains(x: u64)
    ensures
        pops(x, popcount(x)).len() == popcount(x),
        forall|i: int, j: int|
            0 <= i < j < pops(x, popcount(x)).len() ==> #[trigger] pops(x, popcount(x))[i]
                < #[trigger] pops(x, popcount(x))[j],
        forall|i: int|
            0 <= i < pops(x, popcount(x)).len() ==> #[trigger] pops(x, popcount(x))[i] < 64
                && has_bit(x, pops(x, popcount(x))[i]),
        forall|t: u64| t < 64 && has_bit(x, t) ==> #[trigger] pops(x, popcount(x)).contains(t),
        after_pops(x, popcount(x)) == 0,
    decreases popcount(x),
{
    if popcount(x) == 0 {
        lemma_bits_below_zero(x, 64);
        lemma_zero_iff_no_bits(x);
    } else {
        lemma_zero_iff_no_bits(x);
        lemma_bits_below_zero(x, 64);
        let y = without_lowest(x);
        lemma_without_lowest(x);
        lemma_pop_lsb_drains(y);
        let k = popcount(x);
        let p = pops(x, k);
        let q = pops(y, popcount(y));
        assert(popcount(y) == (k - 1) as nat);
        assert(p == seq![lowest(x)] + q);
        assert forall|i: int| 0 <= i < q.len() implies #[trigger] q[i] > lowest(x) by {
            assert(has_bit(y, q[i]));
            assert(has_bit(x, q[i]) && q[i] != lowest(x));
        }
        assert forall|i: int, j: int| 0 <= i < j < p.len() implies #[trigger] p[i] < #[trigger] p[j] by {
            if i > 0 {
                assert(p[i] == q[i - 1] && p[j] == q[j - 1]);
            } else {
                assert(p[j] == q[j - 1]);
            }
        }
        assert forall|t: u64| t < 64 && has_bit(x, t) implies #[trigger] p.contains(t) by {
            if t == lowest(x) {
                assert(p[0] == t);
            } else {
                assert(has_bit(y, t));
                assert(q.contains(t));
                let i = choose|i: int| 0 <= i < q.len() && q[i] == t;
                assert(p[i + 1] == t);
            }
        }
        assert forall|i: int| 0 <= i < p.len() implies #[trigger] p[i] < 64 && has_bit(x, p[i]) by {
            if i > 0 {
                assert(p[i] == q[i - 1]);
                assert(has_bit(y, q[i - 1]));
            }
        }
    }
}

/// Bit operations on a bitboard.
pub trait BBTrait: Sized {
    /// Whether square `ind` is set.
    fn get_bit(&self, ind: i8) -> (r: bool)
        requires
            0 <= ind < 64,
    ;

    /// Sets square `ind`.
    fn set_bit(&mut self, ind: i8)
        requires
            0 <= ind < 64,
    ;

    /// Clears the lowest set square and returns its index; an empty board
    /// stays empty and gives 0.
    fn pop_lsb(&mut self) -> (r: i8);
}

impl BBTrait for BB {
    fn get_bit(&self, ind: i8) -> (r: bool)
        ensures
            r == has_bit(*self, ind as u64),
    {
        let x = *self;
        let k = ind as u64;
        proof {
            assert(((x & (1u64 << k)) != 0) == ((x >> k) & 1u64 == 1u64)) by (bit_vector)
                requires
                    k < 64,
            ;
        }
        if x & (1u64 << k) != 0 {
            return true;
        }
        false
    }

    fn set_bit(&mut self, ind: i8)
        ensures
            *final(self) == *old(self) | (1u64 << ind as u64),
            forall|t: u64|
                t < 64 ==> #[trigger] has_bit(*final(self), t) == (has_bit(*old(self), t) || t
                    == ind as u64),
    {
        let k = ind as u64;
        *self = *self | (1u64 << k);
        proof {
            assert forall|t: u64| t < 64 implies #[trigger] has_bit(*self, t) == (has_bit(
                *old(self),
                t,
            ) || t == k) by {
                lemma_bit_with(*old(self), k, t);
            }
        }
    }

    fn pop_lsb(&mut self) -> (r: i8)
        ensures
            *old(self) == 0 ==> r == 0 && *final(self) == 0,
            *old(self) != 0 ==> {
                &&& 0 <= r < 64
                &&& is_lowest_bit(*old(self), r as u64)
                &&& r as u64 == lowest(*old(self))
                &&& *final(self) == without_lowest(*old(self))
                &&& *final(self) == *old(self) & !(1u64 << r as u64)
                &&& forall|t: u64|
                    t < 64 ==> #[trigger] has_bit(*final(self), t) == (has_bit(*old(self), t) && t
                        != r as u64)
            },
    {
        if *self > 0 {
            let tz: u32 = self.trailing_zeros();
            proof {
                axiom_u64_trailing_zeros(*self);
            }
            let k: u64 = tz as u64;
            *self = *self & !(1u64 << k);
            proof {
                assert forall|t: u64| t < 64 implies #[trigger] has_bit(*self, t) == (has_bit(
                    *old(self),
                    t,
                ) && t != k) by {
                    lemma_bit_without(*old(self), k, t);
                }
                lemma_without_lowest(*old(self));
            }
            return tz as i8;
        }
        0
    }
}

} // verus!
