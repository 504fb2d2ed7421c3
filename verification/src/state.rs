//! Board values: what every representation of a board offers, and the dense
//! representation that holds nothing but the board's rank.

use vstd::prelude::*;
use vstd::arithmetic::div_mod::lemma_fundamental_div_mod_converse;
use std::hash::Hash;
use crate::direction::Direction;
use crate::moves::{
    blank_of, can_step, lemma_blank, lemma_blank_at, lemma_swap_blank, room_count, step, swap_blank,
};
use crate::rank::{
    board_of, digit, free_below, is_board, lemma_board_of_rank, lemma_digit_bounds, lemma_every_rank,
    lemma_free_slot_unique, lemma_own_label_free, lemma_rank_of_board, lemma_rank_prefix_bounds,
    lemma_smaller_before_bounds, lemma_smaller_before_step, rank_of, rank_prefix, smaller_before,
    used_before,
};

verus! {

/// The number of boards: `9!`.
pub const NUMBER_OF_STATES: u32 = 362880;

/// A representation of a board of the puzzle.
pub trait State: Eq + Hash + Clone + Sized {
    /// Whether the value stands for a board.
    spec fn wf(&self) -> bool;

    /// The board that the value stands for: its nine labels, row by row.
    spec fn board(&self) -> Seq<u8>;

    /// A value that stands for a board stands for a full arrangement.
    proof fn lemma_board_valid(&self)
        requires
            self.wf(),
        ensures
            is_board(self.board()),
    ;

    /// Returns the board as an array of length 9.
    fn to_array(&self) -> (array: [u8; 9])
        requires
            self.wf(),
        ensures
            array@ == self.board(),
            is_board(array@),
    ;

    /// Returns the value that stands for the board in `array`, which holds
    /// each of the labels `0..9` once.
    fn from_array(array: &[u8; 9]) -> (state: Self)
        requires
            is_board(array@),
        ensures
            state.wf(),
            state.board() == array@,
    ;

    /// Returns the rank of the board, a number below `NUMBER_OF_STATES`
    /// that no other board has.
    fn hash(&self) -> (h: u32)
        requires
            self.wf(),
        ensures
            h == rank_of(self.board()),
            h < NUMBER_OF_STATES,
    ;

    /// Returns the boards that are one move away, one for each direction in
    /// which the blank has room. Each comes with the move that leads from it
    /// back to this board: the opposite of the blank's own travel.
    fn neighbors(&self) -> (result: Vec<(Direction, Self)>)
        requires
            self.wf(),
        ensures
            result.len() == room_count(blank_of(self.board())),
            forall|k: int|
                0 <= k < result.len() ==> {
                    &&& (#[trigger] result[k]).1.wf()
                    &&& can_step(self.board(), result[k].0.reversed())
                    &&& result[k].1.board() == step(self.board(), result[k].0.reversed())
                },
            forall|d: Direction|
                can_step(self.board(), d) ==> exists|k: int|
                    0 <= k < result.len() && (#[trigger] result[k]).0 == d.reversed(),
            forall|j: int, k: int|
                0 <= j < k < result.len() ==> (#[trigger] result[j]).0 != (#[trigger] result[k]).0,
    {
        let mut result: Vec<(Direction, Self)> = Vec::new();
        let arr: [u8; 9] = self.to_array();
        proof {
            lemma_blank(arr@);
        }
        let mut i: usize = 0;
        while i < 9
            invariant
                i <= 9,
                self.wf(),
                arr@ == self.board(),
                is_board(arr@),
                0 <= blank_of(arr@) < 9,
                arr@[blank_of(arr@)] == 0,
                blank_of(arr@) >= i ==> result.len() == 0,
                blank_of(arr@) < i ==> result.len() == room_count(blank_of(arr@)),
                forall|k: int|
                    0 <= k < result.len() ==> {
                        &&& (#[trigger] result[k]).1.wf()
                        &&& can_step(arr@, result[k].0.reversed())
                        &&& result[k].1.board() == step(arr@, result[k].0.reversed())
                    },
                forall|d: Direction|
                    blank_of(arr@) < i && can_step(arr@, d) ==> exists|k: int|
                        0 <= k < result.len() && (#[trigger] result[k]).0 == d.reversed(),
                forall|j: int, k: int|
                    0 <= j < k < result.len() ==> (#[trigger] result[j]).0 != (
                    #[trigger] result[k]).0,
            decreases 9 - i,
        {
            if arr[i] == 0 {
                proof {
                    lemma_blank_at(arr@, i as int);
                }
                let ghost mut at: Seq<int> = seq![-1int, -1int, -1int, -1int];
                if i >= 3 {
                    let moved = moved_blank(&arr, i, -3);
                    proof {
                        at = at.update(0, result.len() as int);
                    }
                    result.push((Direction::Down, Self::from_array(&moved)));
                }
                if i < 6 {
                    let moved = moved_blank(&arr, i, 3);
                    proof {
                        at = at.update(1, result.len() as int);
                    }
                    result.push((Direction::Up, Self::from_array(&moved)));
                }
                if i % 3 != 0 {
                    let moved = moved_blank(&arr, i, -1);
                    proof {
                        at = at.update(2, result.len() as int);
                    }
                    result.push((Direction::Right, Self::from_array(&moved)));
                }
                if i % 3 != 2 {
                    let moved = moved_blank(&arr, i, 1);
                    proof {
                        at = at.update(3, result.len() as int);
                    }
                    result.push((Direction::Left, Self::from_array(&moved)));
                }
                assert forall|d: Direction| can_step(arr@, d) implies exists|k: int|
                    0 <= k < result.len() && (#[trigger] result[k]).0 == d.reversed() by {
                    let k = match d {
                        Direction::Up => at[0],
                        Direction::Down => at[1],
                        Direction::Left => at[2],
                        Direction::Right => at[3],
                    };
                    assert(0 <= k < result.len() && result[k].0 == d.reversed());
                }
            }
            i += 1;
        }
        result
    }

    /// Tries the cells of `indices` in turn and, when it meets the blank,
    /// returns the board in which the blank and the label `offset` cells
    /// further have changed places; returns `None` when none of the cells
    /// holds the blank.
    fn move_blank(&self, indices: &[usize], offset: isize) -> (moved: Option<Self>)
        requires
            self.wf(),
            forall|k: int|
                0 <= k < indices@.len() ==> 0 <= #[trigger] indices@[k] + offset < 9
                    && indices@[k] < 9,
        ensures
            moved is Some <==> exists|k: int|
                0 <= k < indices@.len() && #[trigger] indices@[k] == blank_of(self.board()),
            moved is Some ==> moved->0.wf() && moved->0.board() == swap_blank(
                self.board(),
                blank_of(self.board()),
                blank_of(self.board()) + offset,
            ),
    {
        let arr: [u8; 9] = self.to_array();
        let mut n: usize = 0;
        while n < indices.len()
            invariant
                n <= indices@.len(),
                is_board(arr@),
                arr@ == self.board(),
                forall|k: int|
                    0 <= k < indices@.len() ==> 0 <= #[trigger] indices@[k] + offset < 9
                        && indices@[k] < 9,
                forall|k: int| 0 <= k < n ==> #[trigger] indices@[k] != blank_of(arr@),
            decreases indices@.len() - n,
        {
            let i = indices[n];
            if arr[i] == 0 {
                let moved = moved_blank(&arr, i, offset);
                return Some(Self::from_array(&moved));
            }
            proof {
                lemma_blank(arr@);
            }
            n += 1;
        }
        None
    }

    /// Returns the board after the blank has travelled one cell up, or
    /// `None` where the blank stands in the top row.
    fn up(&self) -> (moved: Option<Self>)
        requires
            self.wf(),
        ensures
            moved is Some <==> can_step(self.board(), Direction::Up),
            moved is Some ==> moved->0.wf() && moved->0.board() == step(
                self.board(),
                Direction::Up,
            ),
    {
        let indices: [usize; 6] = [3, 4, 5, 6, 7, 8];
        let moved = self.move_blank(indices.as_slice(), -3);
        proof {
            let i = blank_of(self.board());
            self.lemma_board_valid();
            lemma_blank(self.board());
            if i >= 3 {
                assert(indices@[i - 3] == i);
            }
        }
        moved
    }

    /// Returns the board after the blank has travelled one cell down, or
    /// `None` where the blank stands in the bottom row.
    fn down(&self) -> (moved: Option<Self>)
        requires
            self.wf(),
        ensures
            moved is Some <==> can_step(self.board(), Direction::Down),
            moved is Some ==> moved->0.wf() && moved->0.board() == step(
                self.board(),
                Direction::Down,
            ),
    {
        let indices: [usize; 6] = [0, 1, 2, 3, 4, 5];
        let moved = self.move_blank(indices.as_slice(), 3);
        proof {
            let i = blank_of(self.board());
            self.lemma_board_valid();
            lemma_blank(self.board());
            if i < 6 {
                assert(indices@[i] == i);
            }
        }
        moved
    }

    /// Returns the board after the blank has travelled one cell to the left,
    /// or `None` where the blank stands in the left column.
    fn left(&self) -> (moved: Option<Self>)
        requires
            self.wf(),
        ensures
            moved is Some <==> can_step(self.board(), Direction::Left),
            moved is Some ==> moved->0.wf() && moved->0.board() == step(
                self.board(),
                Direction::Left,
            ),
    {
        let indices: [usize; 6] = [1, 2, 4, 5, 7, 8];
        let moved = self.move_blank(indices.as_slice(), -1);
        proof {
            let i = blank_of(self.board());
            self.lemma_board_valid();
            lemma_blank(self.board());
            if i % 3 != 0 {
                assert(indices@[i - 1 - i / 3] == i);
            }
        }
        moved
    }

    /// Returns the board after the blank has travelled one cell to the
    /// right, or `None` where the blank stands in the right column.
    fn right(&self) -> (moved: Option<Self>)
        requires
            self.wf(),
        ensures
            moved is Some <==> can_step(self.board(), Direction::Right),
            moved is Some ==> moved->0.wf() && moved->0.board() == step(
                self.board(),
                Direction::Right,
            ),
    {
        let indices: [usize; 6] = [0, 1, 3, 4, 6, 7];
        let moved = self.move_blank(indices.as_slice(), 1);
        proof {
            let i = blank_of(self.board());
            self.lemma_board_valid();
            lemma_blank(self.board());
            if i % 3 != 2 {
                assert(indices@[i - i / 3] == i);
            }
        }
        moved
    }
}

/// A board held as its rank alone.
#[derive(Hash, PartialEq, Eq, Clone, Copy, Debug, Structural)]
pub struct HashState {
    hash: u32,
}

impl State for HashState {
    open spec fn wf(&self) -> bool {
        self.rank() < NUMBER_OF_STATES
    }

    open spec fn board(&self) -> Seq<u8> {
        board_of(self.rank())
    }

    proof fn lemma_board_valid(&self) {
        lemma_every_rank(self.rank());
        lemma_rank_of_board(self.rank());
    }

    fn to_array(&self) -> (result: [u8; 9]) {
        let ghost a = self.board();
        proof {
            lemma_every_rank(self.hash as int);
            lemma_rank_of_board(self.hash as int);
        }
        let mut result = [0u8; 9];
        let mut rest_hash = self.hash;
        let mut i: u32 = 1;
        while i <= 9
            invariant
                1 <= i <= 10,
                is_board(a),
                rest_hash == rank_prefix(a, 10 - i),
                forall|k: int| 10 - i <= k < 9 ==> result@[k] == digit(a, k),
            decreases 10 - i,
        {
            proof {
                lemma_digit_bounds(a, 9 - i);
                lemma_fundamental_div_mod_converse(
                    rest_hash as int,
                    i as int,
                    rank_prefix(a, 9 - i),
                    digit(a, 9 - i),
                );
            }
            result[(9 - i) as usize] = (rest_hash % i) as u8;
            rest_hash /= i;
            i += 1;
        }
        let mut appeared: [bool; 9] = [false, false, false, false, false, false, false, false, false];
        let mut k: usize = 0;
        while k < 9
            invariant
                k <= 9,
                is_board(a),
                forall|j: int| 0 <= j < k ==> result@[j] == a[j],
                forall|j: int| k <= j < 9 ==> result@[j] == digit(a, j),
                forall|v: int| 0 <= v < 9 ==> (#[trigger] appeared@[v] <==> used_before(a, k as int, v)),
            decreases 9 - k,
        {
            let mut ele: u8 = result[k];
            let mut i: u8 = 0;
            proof {
                lemma_digit_bounds(a, k as int);
                lemma_smaller_before_bounds(a, k as int, 0);
            }
            while i <= ele
                invariant
                    k < 9,
                    is_board(a),
                    i <= ele + 1,
                    ele == digit(a, k as int) + smaller_before(a, k as int, i as int),
                    0 <= digit(a, k as int) < 9 - k,
                    i == ele + 1 ==> !used_before(a, k as int, ele as int),
                    forall|v: int|
                        0 <= v < 9 ==> (#[trigger] appeared@[v] <==> used_before(a, k as int, v)),
                decreases 10 - i,
            {
                proof {
                    lemma_smaller_before_step(a, k as int, i as int);
                    lemma_smaller_before_bounds(a, k as int, i as int);
                    lemma_smaller_before_bounds(a, k as int, i + 1);
                }
                if appeared[i as usize] {
                    ele += 1
                }
                i += 1
            }
            proof {
                lemma_smaller_before_step(a, k as int, ele as int);
                lemma_own_label_free(a, k as int);
                assert(free_below(a, k as int, ele as int) == digit(a, k as int));
                lemma_free_slot_unique(a, k as int, ele as int, a[k as int] as int);
            }
            result[k] = ele;
            appeared[ele as usize] = true;
            proof {
                assert forall|v: int| 0 <= v < 9 implies (#[trigger] appeared@[v] <==> used_before(
                    a,
                    k + 1,
                    v,
                )) by {
                    if used_before(a, k as int, v) {
                        let j = choose|j: int| 0 <= j < k && a[j] == v;
                        assert(0 <= j < k + 1 && a[j] == v);
                    }
                    if v == ele {
                        assert(0 <= k < k + 1 && a[k as int] == v);
                    }
                    if used_before(a, k + 1, v) {
                        let j = choose|j: int| 0 <= j < k + 1 && a[j] == v;
                        if j < k {
                            assert(used_before(a, k as int, v));
                        }
                    }
                }
            }
            k += 1;
        }
        assert(result@ =~= a);
        result
    }

    fn from_array(arr: &[u8; 9]) -> (state: HashState) {
        let mut hash = 0u32;
        let mut i: usize = 0;
        while i < 9
            invariant
                i <= 9,
                is_board(arr@),
                hash == rank_prefix(arr@, i as int),
            decreases 9 - i,
        {
            let mut below: u32 = 0;
            let mut j: usize = 0;
            while j < i
                invariant
                    j <= i < 9,
                    below == smaller_before(arr@, j as int, arr@[i as int] as int),
                    below <= j,
                decreases i - j,
            {
                if arr[j] < arr[i] {
                    below += 1;
                }
                j += 1;
            }
            proof {
                lemma_digit_bounds(arr@, i as int);
                lemma_rank_prefix_bounds(arr@, i as int);
                lemma_rank_prefix_bounds(arr@, i + 1);
                assert(hash * (9 - i) <= rank_prefix(arr@, i + 1)) by (nonlinear_arith)
                    requires
                        rank_prefix(arr@, i + 1) == hash * (10 - (i + 1)) + digit(arr@, i as int),
                        0 <= digit(arr@, i as int),
                ;
            }
            hash = hash * (9 - i as u32) + arr[i] as u32 - below;
            i += 1;
        }
        proof {
            lemma_board_of_rank(arr@);
        }
        HashState { hash }
    }

    fn hash(&self) -> (h: u32) {
        proof {
            lemma_every_rank(self.hash as int);
            lemma_rank_of_board(self.hash as int);
        }
        self.hash
    }
}

impl HashState {
    /// The rank that the value holds.
    pub closed spec fn rank(&self) -> int {
        self.hash as int
    }

    /// A board value holds the rank of its board, and two values with one
    /// rank are one value.
    pub proof fn lemma_rank(&self)
        requires
            self.wf(),
        ensures
            self.rank() == rank_of(self.board()),
            forall|other: HashState| other.rank() == self.rank() ==> other == *self,
    {
        lemma_every_rank(self.rank());
        lemma_rank_of_board(self.rank());
    }
}

/// Says whether `array` holds a board: each of the labels `0..9` once.
pub fn is_permutation(array: &[u8; 9]) -> (ok: bool)
    ensures
        ok == is_board(array@),
{
    let mut appeared: [bool; 9] = [false, false, false, false, false, false, false, false, false];
    let mut k: usize = 0;
    while k < 9
        invariant
            k <= 9,
            forall|j: int| 0 <= j < k ==> #[trigger] array@[j] < 9,
            forall|i: int, j: int| 0 <= i < j < k ==> array@[i] != array@[j],
            forall|v: int|
                0 <= v < 9 ==> (#[trigger] appeared@[v] <==> used_before(array@, k as int, v)),
        decreases 9 - k,
    {
        let label = array[k];
        if label >= 9 {
            return false;
        }
        if appeared[label as usize] {
            proof {
                let j = choose|j: int| 0 <= j < k && array@[j] == label;
                assert(array@[j] == array@[k as int]);
            }
            return false;
        }
        appeared[label as usize] = true;
        proof {
            assert forall|i: int, j: int| 0 <= i < j < k + 1 implies array@[i] != array@[j] by {
                if j == k {
                    assert(!used_before(array@, k as int, label as int));
                }
            }
            assert forall|v: int| 0 <= v < 9 implies (#[trigger] appeared@[v] <==> used_before(
                array@,
                k + 1,
                v,
            )) by {
                if used_before(array@, k as int, v) {
                    let j = choose|j: int| 0 <= j < k && array@[j] == v;
                    assert(0 <= j < k + 1 && array@[j] == v);
                }
                if v == label {
                    assert(0 <= k < k + 1 && array@[k as int] == v);
                }
                if used_before(array@, k + 1, v) {
                    let j = choose|j: int| 0 <= j < k + 1 && array@[j] == v;
                    if j < k {
                        assert(used_before(array@, k as int, v));
                    }
                }
            }
        }
        k += 1;
    }
    true
}

/// Returns a copy of the board in `arr` in which the blank of cell `i` and
/// the label `offset` cells further have changed places.
fn moved_blank(arr: &[u8; 9], i: usize, offset: isize) -> (out: [u8; 9])
    requires
        is_board(arr@),
        i < 9,
        arr@[i as int] == 0,
        0 <= i + offset < 9,
    ensures
        out@ == swap_blank(arr@, i as int, i + offset),
        is_board(out@),
        blank_of(arr@) == i,
{
    let new_i = (i as isize + offset) as usize;
    let mut out: [u8; 9] = *arr;
    out[i] = out[new_i];
    out[new_i] = 0;
    proof {
        assert(out@ =~= swap_blank(arr@, i as int, new_i as int));
        lemma_blank_at(arr@, i as int);
        lemma_swap_blank(arr@, i as int, new_i as int);
    }
    out
}

} // verus!
