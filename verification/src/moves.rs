//! Single moves of the blank, on boards as sequences of labels.

use vstd::prelude::*;
use crate::direction::Direction;
use crate::rank::{is_board, lemma_board_holds_label, used_before};

verus! {

/// The cell that holds the blank.
pub open spec fn blank_of(a: Seq<u8>) -> int {
    choose|i: int| 0 <= i < 9 && a[i] == 0
}

/// Whether the blank in cell `i` has a cell next to it in direction `d`.
pub open spec fn has_room(i: int, d: Direction) -> bool {
    match d {
        Direction::Up => i >= 3,
        Direction::Down => i < 6,
        Direction::Left => i % 3 != 0,
        Direction::Right => i % 3 != 2,
    }
}

/// Whether the blank of `a` can travel in direction `d`.
pub open spec fn can_step(a: Seq<u8>, d: Direction) -> bool {
    has_room(blank_of(a), d)
}

/// The arrangement `a` after the blank in cell `i` has changed places with
/// the label in cell `j`.
pub open spec fn swap_blank(a: Seq<u8>, i: int, j: int) -> Seq<u8> {
    a.update(i, a[j]).update(j, 0u8)
}

/// The board after the blank has travelled one cell in direction `d`.
pub open spec fn step(a: Seq<u8>, d: Direction) -> Seq<u8> {
    swap_blank(a, blank_of(a), blank_of(a) + d.offset())
}

/// How many directions the blank in cell `i` can travel in.
pub open spec fn room_count(i: int) -> int {
    (if has_room(i, Direction::Up) { 1int } else { 0int })
    + (if has_room(i, Direction::Down) { 1int } else { 0int })
    + (if has_room(i, Direction::Left) { 1int } else { 0int })
    + (if has_room(i, Direction::Right) { 1int } else { 0int })
}

/// A board has its blank in exactly one cell.
pub proof fn lemma_blank(a: Seq<u8>)
    requires
        is_board(a),
    ensures
        0 <= blank_of(a) < 9,
        a[blank_of(a)] == 0,
        forall|i: int| 0 <= i < 9 && a[i] == 0 ==> i == blank_of(a),
{
    lemma_board_holds_label(a, 0);
    assert(used_before(a, 9, 0));
    let j = choose|j: int| 0 <= j < 9 && a[j] == 0;
    assert(0 <= j < 9 && a[j] == 0);
    assert forall|i: int| 0 <= i < 9 && a[i] == 0 implies i == blank_of(a) by {
        if i < blank_of(a) {
            assert(a[i] != a[blank_of(a)]);
        } else if blank_of(a) < i {
            assert(a[blank_of(a)] != a[i]);
        }
    }
}

/// The blank stands in cell `i` if that cell holds label 0.
pub proof fn lemma_blank_at(a: Seq<u8>, i: int)
    requires
        is_board(a),
        0 <= i < 9,
        a[i] == 0,
    ensures
        blank_of(a) == i,
{
    lemma_blank(a);
}

/// Changing the blank's place with another cell's label leaves a board,
/// with the blank in that other cell.
pub proof fn lemma_swap_blank(a: Seq<u8>, i: int, j: int)
    requires
        is_board(a),
        0 <= i < 9,
        0 <= j < 9,
        a[i] == 0,
    ensures
        is_board(swap_blank(a, i, j)),
        blank_of(swap_blank(a, i, j)) == j,
        swap_blank(swap_blank(a, i, j), j, i) == a,
        i != j ==> swap_blank(a, i, j) != a,
{
    let b = swap_blank(a, i, j);
    assert(b.len() == 9);
    assert forall|x: int| 0 <= x < 9 implies #[trigger] b[x] < 9 by {
        assert(a[x] < 9);
        assert(a[j] < 9);
    }
    assert forall|x: int, y: int| 0 <= x < y < 9 implies b[x] != b[y] by {
        assert(a[x] != a[y]);
        if x == i || y == i {
            if j < x {
                assert(a[j] != a[x]);
            }
            if j < y {
                assert(a[j] != a[y]);
            }
            if x < j {
                assert(a[x] != a[j]);
            }
            if y < j {
                assert(a[y] != a[j]);
            }
        }
        if x == j || y == j {
            if i < x {
                assert(a[i] != a[x]);
            }
            if i < y {
                assert(a[i] != a[y]);
            }
            if x < i {
                assert(a[x] != a[i]);
            }
            if y < i {
                assert(a[y] != a[i]);
            }
        }
    }
    lemma_blank_at(b, j);
    assert(swap_blank(b, j, i) =~= a);
    if i != j {
        if i < j {
            assert(a[i] != a[j]);
        } else {
            assert(a[j] != a[i]);
        }
        assert(b[j] != a[j]);
    }
}

/// A move that has room leaves a board, with the blank one cell further.
pub proof fn lemma_step(a: Seq<u8>, d: Direction)
    requires
        is_board(a),
        can_step(a, d),
    ensures
        is_board(step(a, d)),
        blank_of(step(a, d)) == blank_of(a) + d.offset(),
        0 <= blank_of(a) + d.offset() < 9,
        step(a, d) != a,
{
    lemma_blank(a);
    lemma_swap_blank(a, blank_of(a), blank_of(a) + d.offset());
}

/// A move followed by the opposite move gives the board from before: the
/// opposite move has room whenever the first one had, and undoes it.
pub proof fn lemma_step_back(a: Seq<u8>, d: Direction)
    requires
        is_board(a),
        can_step(a, d),
    ensures
        can_step(step(a, d), d.reversed()),
        step(step(a, d), d.reversed()) == a,
{
    lemma_blank(a);
    lemma_swap_blank(a, blank_of(a), blank_of(a) + d.offset());
}

/// The blank has room in two directions from a corner, in three from the
/// middle of a side, and in all four from the centre.
pub proof fn lemma_room_count(i: int)
    requires
        0 <= i < 9,
    ensures
        i == 0 || i == 2 || i == 6 || i == 8 ==> room_count(i) == 2,
        i == 1 || i == 3 || i == 5 || i == 7 ==> room_count(i) == 3,
        i == 4 ==> room_count(i) == 4,
{
}

} // verus!
