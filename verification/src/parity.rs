//! The parity of a board, which no move changes: from a goal only the
//! boards of its own parity can be reached.

use vstd::prelude::*;
use crate::direction::Direction;
use crate::moves::{blank_of, can_step, lemma_blank, lemma_step, lemma_swap_blank, step, swap_blank};
use crate::rank::is_board;
use crate::search::{lemma_solves_first, solvable, solves_in};

verus! {

/// How many of the first `i` cells hold a tile with a label above `v`.
pub open spec fn greater_before(a: Seq<u8>, i: int, v: int) -> int
    decreases i,
{
    if i <= 0 {
        0
    } else {
        greater_before(a, i - 1, v) + if a[i - 1] != 0 && a[i - 1] > v {
            1int
        } else {
            0int
        }
    }
}

/// How many tiles before cell `j` have a label above that of the tile in
/// cell `j`; 0 where cell `j` holds the blank.
pub open spec fn inversions_at(a: Seq<u8>, j: int) -> int {
    if a[j] == 0 {
        0
    } else {
        greater_before(a, j, a[j] as int)
    }
}

/// How many pairs of tiles among the first `n` cells stand with the
/// greater label first.
pub open spec fn inversions(a: Seq<u8>, n: int) -> int
    decreases n,
{
    if n <= 0 {
        0
    } else {
        inversions(a, n - 1) + inversions_at(a, n - 1)
    }
}

/// The parity of a board: 0 where the number of pairs of tiles that stand
/// with the greater label first is even, else 1.
pub open spec fn parity(a: Seq<u8>) -> int {
    inversions(a, 9) % 2
}

/// The arrangement `a` with the labels of cells `k` and `k + 1` exchanged.
pub open spec fn exchanged(a: Seq<u8>, k: int) -> Seq<u8> {
    a.update(k, a[k + 1]).update(k + 1, a[k])
}

/// What the exchange of cells `k` and `k + 1` adds to the number of
/// inversions: nothing where one of them is the blank, else one or minus one.
pub open spec fn exchange_gain(a: Seq<u8>, k: int) -> int {
    if a[k] == 0 || a[k + 1] == 0 {
        0
    } else if a[k] < a[k + 1] {
        1
    } else {
        -1
    }
}

/// The count over the first `i` cells goes by those cells alone.
proof fn lemma_greater_before_same(a: Seq<u8>, b: Seq<u8>, i: int, v: int)
    requires
        0 <= i,
        forall|t: int| 0 <= t < i ==> a[t] == b[t],
    ensures
        greater_before(a, i, v) == greater_before(b, i, v),
    decreases i,
{
    if i > 0 {
        lemma_greater_before_same(a, b, i - 1, v);
    }
}

/// The inversions among the first `n` cells go by those cells alone.
proof fn lemma_inversions_same(a: Seq<u8>, b: Seq<u8>, n: int)
    requires
        0 <= n,
        forall|t: int| 0 <= t < n ==> a[t] == b[t],
    ensures
        inversions(a, n) == inversions(b, n),
    decreases n,
{
    if n > 0 {
        lemma_inversions_same(a, b, n - 1);
        lemma_greater_before_same(a, b, n - 1, a[n - 1] as int);
    }
}

/// An exchange within the first `i` cells leaves the count over them as it is.
proof fn lemma_greater_before_exchanged(a: Seq<u8>, k: int, i: int, v: int)
    requires
        0 <= k,
        k + 2 <= i <= a.len(),
    ensures
        greater_before(exchanged(a, k), i, v) == greater_before(a, i, v),
    decreases i,
{
    let b = exchanged(a, k);
    if i == k + 2 {
        lemma_greater_before_same(a, b, k, v);
        assert(greater_before(b, k + 2, v) == greater_before(b, k + 1, v) + if b[k + 1] != 0
            && b[k + 1] > v {
            1int
        } else {
            0int
        });
        assert(greater_before(b, k + 1, v) == greater_before(b, k, v) + if b[k] != 0 && b[k] > v {
            1int
        } else {
            0int
        });
        assert(greater_before(a, k + 2, v) == greater_before(a, k + 1, v) + if a[k + 1] != 0
            && a[k + 1] > v {
            1int
        } else {
            0int
        });
        assert(greater_before(a, k + 1, v) == greater_before(a, k, v) + if a[k] != 0 && a[k] > v {
            1int
        } else {
            0int
        });
    } else {
        lemma_greater_before_exchanged(a, k, i - 1, v);
    }
}

/// The exchange of two cells next to each other changes the number of
/// inversions by their gain.
proof fn lemma_inversions_exchanged(a: Seq<u8>, k: int, n: int)
    requires
        0 <= k,
        k + 2 <= n <= a.len(),
        a[k] != a[k + 1],
    ensures
        inversions(exchanged(a, k), n) == inversions(a, n) + exchange_gain(a, k),
    decreases n,
{
    let b = exchanged(a, k);
    if n == k + 2 {
        lemma_inversions_same(a, b, k);
        lemma_greater_before_same(a, b, k, a[k] as int);
        lemma_greater_before_same(a, b, k, a[k + 1] as int);
        assert(inversions(b, k + 2) == inversions(b, k + 1) + inversions_at(b, k + 1));
        assert(inversions(b, k + 1) == inversions(b, k) + inversions_at(b, k));
        assert(inversions(a, k + 2) == inversions(a, k + 1) + inversions_at(a, k + 1));
        assert(inversions(a, k + 1) == inversions(a, k) + inversions_at(a, k));
        assert(greater_before(b, k + 1, a[k] as int) == greater_before(b, k, a[k] as int) + if b[k]
            != 0 && b[k] > a[k] {
            1int
        } else {
            0int
        });
        assert(greater_before(a, k + 1, a[k + 1] as int) == greater_before(a, k, a[k + 1] as int)
            + if a[k] != 0 && a[k] > a[k + 1] {
            1int
        } else {
            0int
        });
    } else {
        lemma_inversions_exchanged(a, k, n - 1);
        lemma_greater_before_exchanged(a, k, n - 1, a[n - 1] as int);
    }
}

/// The blank's change of places with the label of the next cell, or of the
/// cell three further, keeps the parity.
proof fn lemma_swap_forward(a: Seq<u8>, i: int, j: int)
    requires
        is_board(a),
        0 <= i < j < 9,
        a[i] == 0,
        j == i + 1 || j == i + 3,
    ensures
        parity(swap_blank(a, i, j)) == parity(a),
{
    assert forall|x: int, y: int| 0 <= x < 9 && 0 <= y < 9 && x != y implies a[x] != a[y] by {
        if x < y {
            assert(a[x] != a[y]);
        } else {
            assert(a[y] != a[x]);
        }
    }
    if j == i + 1 {
        lemma_inversions_exchanged(a, i, 9);
        assert(exchanged(a, i) =~= swap_blank(a, i, j));
    } else {
        let a1 = exchanged(a, i);
        let a2 = exchanged(a1, i + 1);
        let a3 = exchanged(a2, i + 2);
        let a4 = exchanged(a3, i + 1);
        let a5 = exchanged(a4, i);
        lemma_inversions_exchanged(a, i, 9);
        lemma_inversions_exchanged(a1, i + 1, 9);
        lemma_inversions_exchanged(a2, i + 2, 9);
        lemma_inversions_exchanged(a3, i + 1, 9);
        lemma_inversions_exchanged(a4, i, 9);
        assert(a5 =~= swap_blank(a, i, j));
        assert(exchange_gain(a, i) == 0);
        assert(exchange_gain(a1, i + 1) == 0);
        assert(exchange_gain(a2, i + 2) == 0);
        assert(a3[i + 1] == a[i + 2] && a3[i + 2] == a[i + 3]);
        assert(a4[i] == a[i + 1] && a4[i + 1] == a[i + 3]);
        assert(a[i + 2] != 0 && a[i + 3] != 0 && a[i + 1] != 0);
    }
}

/// A move keeps the parity of the board.
pub proof fn lemma_step_keeps_parity(a: Seq<u8>, d: Direction)
    requires
        is_board(a),
        can_step(a, d),
    ensures
        parity(step(a, d)) == parity(a),
{
    let i = blank_of(a);
    let j = i + d.offset();
    lemma_blank(a);
    lemma_step(a, d);
    if i < j {
        lemma_swap_forward(a, i, j);
    } else {
        let b = step(a, d);
        lemma_swap_blank(a, i, j);
        lemma_swap_forward(b, j, i);
    }
}

/// Moves lead from a board only to boards of its parity.
pub proof fn lemma_solves_in_parity(b: Seq<u8>, goal: Seq<u8>, n: nat)
    requires
        is_board(b),
        solves_in(b, goal, n),
    ensures
        parity(b) == parity(goal),
    decreases n,
{
    if n > 0 {
        let d = lemma_solves_first(b, goal, n);
        lemma_step(b, d);
        lemma_step_keeps_parity(b, d);
        lemma_solves_in_parity(step(b, d), goal, (n - 1) as nat);
    }
}

/// A board from which moves lead to the goal has the parity of the goal.
pub proof fn lemma_solvable_parity(b: Seq<u8>, goal: Seq<u8>)
    requires
        is_board(b),
        solvable(b, goal),
    ensures
        parity(b) == parity(goal),
{
    let n = choose|n: nat| solves_in(b, goal, n);
    lemma_solves_in_parity(b, goal, n);
}

} // verus!
