//! The books of a breadth-first search from a goal board, kept by rank, and
//! what they say about the shortest ways to the goal once the search is over.

use vstd::prelude::*;
use crate::direction::Direction;
use crate::moves::{can_step, lemma_step, lemma_step_back, step};
use crate::rank::{board_of, is_board, is_rank, lemma_board_of_rank, lemma_rank_of_board, rank_of};

verus! {

/// Whether `n` moves, each with room for the blank, lead from `b` to `goal`.
pub open spec fn solves_in(b: Seq<u8>, goal: Seq<u8>, n: nat) -> bool
    decreases n,
{
    if n == 0 {
        b == goal
    } else {
        ||| can_step(b, Direction::Up) && solves_in(step(b, Direction::Up), goal, (n - 1) as nat)
        ||| can_step(b, Direction::Down) && solves_in(
            step(b, Direction::Down),
            goal,
            (n - 1) as nat,
        )
        ||| can_step(b, Direction::Left) && solves_in(
            step(b, Direction::Left),
            goal,
            (n - 1) as nat,
        )
        ||| can_step(b, Direction::Right) && solves_in(
            step(b, Direction::Right),
            goal,
            (n - 1) as nat,
        )
    }
}

/// One more move, taken first, leads to the goal in one more move.
pub proof fn lemma_solves_by(b: Seq<u8>, goal: Seq<u8>, n: nat, d: Direction)
    requires
        can_step(b, d),
        solves_in(step(b, d), goal, n),
    ensures
        solves_in(b, goal, n + 1),
{
    match d {
        Direction::Up => {},
        Direction::Down => {},
        Direction::Left => {},
        Direction::Right => {},
    }
}

/// Where one or more moves lead to the goal, one of the four leads to a
/// board from which one move fewer does.
pub proof fn lemma_solves_first(b: Seq<u8>, goal: Seq<u8>, n: nat) -> (d: Direction)
    requires
        n > 0,
        solves_in(b, goal, n),
    ensures
        can_step(b, d),
        solves_in(step(b, d), goal, (n - 1) as nat),
{
    if can_step(b, Direction::Up) && solves_in(step(b, Direction::Up), goal, (n - 1) as nat) {
        Direction::Up
    } else if can_step(b, Direction::Down) && solves_in(
        step(b, Direction::Down),
        goal,
        (n - 1) as nat,
    ) {
        Direction::Down
    } else if can_step(b, Direction::Left) && solves_in(
        step(b, Direction::Left),
        goal,
        (n - 1) as nat,
    ) {
        Direction::Left
    } else {
        Direction::Right
    }
}

/// Whether some number of moves leads from `b` to `goal`.
pub open spec fn solvable(b: Seq<u8>, goal: Seq<u8>) -> bool {
    exists|n: nat| solves_in(b, goal, n)
}

/// Whether `n` moves lead from `b` to `goal` and no fewer do.
pub open spec fn is_distance(b: Seq<u8>, goal: Seq<u8>, n: nat) -> bool {
    &&& solves_in(b, goal, n)
    &&& forall|m: nat| m < n ==> !solves_in(b, goal, m)
}

/// The least number of moves that lead from `b` to `goal`.
pub open spec fn distance(b: Seq<u8>, goal: Seq<u8>) -> nat {
    choose|n: nat| is_distance(b, goal, n)
}

/// A move from a board from which moves lead to the goal gives a board
/// from which moves lead to the goal: the move can be taken back.
pub proof fn lemma_step_keeps_solvable(b: Seq<u8>, goal: Seq<u8>, d: Direction)
    requires
        is_board(b),
        can_step(b, d),
        solvable(b, goal),
    ensures
        solvable(step(b, d), goal),
{
    let n = choose|n: nat| solves_in(b, goal, n);
    lemma_step_back(b, d);
    lemma_solves_by(step(b, d), goal, n, d.reversed());
}

/// Whether the blank of the board with rank `r` has room in direction `d`.
pub open spec fn room(r: int, d: Direction) -> bool {
    can_step(board_of(r), d)
}

/// The rank of the board that move `d` gives from the board with rank `r`.
pub open spec fn next_rank(r: int, d: Direction) -> int {
    rank_of(step(board_of(r), d))
}

/// The books of a search: the move noted for each rank, the ranks in the
/// order in which the search met them, the goal first, and for each rank the
/// number of moves in which the search came to it.
pub struct Search {
    pub hints: Seq<Option<Direction>>,
    pub order: Seq<int>,
    pub depth: Seq<nat>,
}

impl Search {
    /// The rank of the goal.
    pub open spec fn goal(self) -> int {
        self.order[0]
    }

    /// Whether the search has met rank `r`.
    pub open spec fn seen(self, r: int) -> bool {
        0 <= r < 362880 && (r == self.goal() || self.hints[r] is Some)
    }

    /// Whether rank `r` stands in the order of meeting.
    pub open spec fn listed(self, r: int) -> bool {
        exists|i: int| 0 <= i < self.order.len() && self.order[i] == r
    }

    /// The lists fit together: every listed rank but the goal has a move
    /// noted, every rank with a move is listed, and none is listed twice.
    pub open spec fn shaped(self) -> bool {
        &&& self.hints.len() == 362880
        &&& self.depth.len() == 362880
        &&& self.order.len() >= 1
        &&& forall|i: int|
            0 <= i < self.order.len() ==> is_rank(#[trigger] self.order[i]) && 0 <= self.order[i]
                < 362880
        &&& forall|i: int, j: int|
            0 <= i < j < self.order.len() ==> self.order[i] != self.order[j]
        &&& self.hints[self.goal()] is None
        &&& self.depth[self.goal()] == 0
        &&& forall|i: int|
            1 <= i < self.order.len() ==> (#[trigger] self.hints[self.order[i]]) is Some
        &&& forall|r: int|
            0 <= r < 362880 && (#[trigger] self.hints[r]) is Some ==> self.listed(r)
    }

    /// The move noted for rank `r` has room and leads to a rank that the
    /// search met one move earlier.
    pub open spec fn led(self, r: int) -> bool {
        let d = self.hints[r]->0;
        &&& room(r, d)
        &&& self.seen(next_rank(r, d))
        &&& self.depth[r] == self.depth[next_rank(r, d)] + 1
    }

    /// Move `d` from rank `r`, if it leads to a rank that the search has
    /// met, leads to one that is at most one move deeper.
    pub open spec fn even(self, r: int, d: Direction) -> bool {
        room(r, d) && self.seen(next_rank(r, d)) ==> self.depth[next_rank(r, d)] <= self.depth[r]
            + 1
    }

    /// The place of rank `r` in the order of meeting.
    pub open spec fn place(self, r: int) -> int {
        choose|i: int| 0 <= i < self.order.len() && self.order[i] == r
    }

    /// The move noted for rank `r` leads to a rank that the search met no
    /// later than the rank that move `d` leads to.
    pub open spec fn first(self, r: int, d: Direction) -> bool {
        room(r, d) && self.seen(next_rank(r, d)) ==> self.place(
            next_rank(r, self.hints[r]->0),
        ) <= self.place(next_rank(r, d))
    }

    /// Every move from rank `r` leads to a rank that the search has met.
    pub open spec fn closed(self, r: int) -> bool {
        forall|d: Direction| room(r, d) ==> self.seen(#[trigger] next_rank(r, d))
    }

    /// What holds of the books while the search works on the rank in place
    /// `head` of the order, with all ranks before it done.
    pub open spec fn inv(self, head: int) -> bool {
        &&& self.shaped()
        &&& 0 <= head <= self.order.len()
        &&& forall|r: int| 0 <= r < 362880 && self.hints[r] is Some ==> #[trigger] self.led(r)
        &&& forall|r: int, d: Direction| self.seen(r) ==> #[trigger] self.even(r, d)
        &&& forall|r: int, d: Direction|
            0 <= r < 362880 && self.hints[r] is Some ==> #[trigger] self.first(r, d)
        &&& forall|i: int, j: int|
            0 <= i <= j < self.order.len() ==> self.depth[#[trigger] self.order[i]]
                <= self.depth[#[trigger] self.order[j]]
        &&& forall|i: int| 0 <= i < head ==> self.closed(#[trigger] self.order[i])
        &&& head < self.order.len() ==> forall|i: int|
            0 <= i < self.order.len() ==> self.depth[#[trigger] self.order[i]]
                <= self.depth[self.order[head]] + 1
    }

    /// What holds of the books when the search is over.
    pub open spec fn complete(self) -> bool {
        self.inv(self.order.len() as int)
    }

    /// The books before the search has looked at any board.
    pub open spec fn start(goal: int) -> Search {
        Search {
            hints: Seq::new(362880, |r: int| None::<Direction>),
            order: seq![goal],
            depth: Seq::new(362880, |r: int| 0nat),
        }
    }

    /// The books after the search has met rank `r` for the first time,
    /// coming from rank `from`, and has noted move `tag` for it.
    pub open spec fn discover(self, r: int, tag: Direction, from: int) -> Search {
        Search {
            hints: self.hints.update(r, Some(tag)),
            order: self.order.push(r),
            depth: self.depth.update(r, self.depth[from] + 1),
        }
    }
}

/// A move with room leads to the rank of a board, and the opposite move
/// leads back.
pub proof fn lemma_next_rank(r: int, d: Direction)
    requires
        is_rank(r),
        room(r, d),
    ensures
        is_rank(next_rank(r, d)),
        0 <= next_rank(r, d) < 362880,
        next_rank(r, d) != r,
        board_of(next_rank(r, d)) == step(board_of(r), d),
        room(next_rank(r, d), d.reversed()),
        next_rank(next_rank(r, d), d.reversed()) == r,
{
    lemma_rank_of_board(r);
    let b = board_of(r);
    lemma_step(b, d);
    lemma_step_back(b, d);
    lemma_board_of_rank(step(b, d));
    assert(d.reversed().reversed() == d);
}

/// Every rank that the search has met stands in the order of meeting.
pub proof fn lemma_seen_is_listed(s: Search, r: int)
    requires
        s.shaped(),
        s.seen(r),
    ensures
        s.listed(r),
        is_rank(r),
{
    if r == s.goal() {
        assert(s.order[0] == r);
    }
    let i = choose|i: int| 0 <= i < s.order.len() && s.order[i] == r;
    assert(is_rank(s.order[i]));
}

/// Every rank in the order of meeting has been met.
pub proof fn lemma_listed_is_seen(s: Search, i: int)
    requires
        s.shaped(),
        0 <= i < s.order.len(),
    ensures
        s.seen(s.order[i]),
{
    assert(is_rank(s.order[i]));
    lemma_rank_of_board(s.order[i]);
    if i >= 1 {
        assert(s.hints[s.order[i]] is Some);
    }
}

/// A rank stands at one place in the order of meeting.
pub proof fn lemma_place(s: Search, i: int)
    requires
        s.shaped(),
        0 <= i < s.order.len(),
    ensures
        s.place(s.order[i]) == i,
{
    let j = s.place(s.order[i]);
    assert(0 <= j < s.order.len() && s.order[j] == s.order[i]);
    if j < i {
        assert(s.order[j] != s.order[i]);
    } else if i < j {
        assert(s.order[i] != s.order[j]);
    }
}

/// The order of meeting holds no more ranks than there are boards.
pub proof fn lemma_order_fits(s: Search)
    requires
        s.shaped(),
    ensures
        s.order.len() <= 362880,
{
    let all = vstd::set_lib::set_int_range(0, 362880);
    vstd::set_lib::lemma_int_range(0, 362880);
    assert(s.order.no_duplicates());
    s.order.unique_seq_to_set();
    assert forall|r: int| s.order.to_set().contains(r) implies all.contains(r) by {
        let i = choose|i: int| 0 <= i < s.order.len() && s.order[i] == r;
        assert(is_rank(s.order[i]));
        lemma_rank_of_board(r);
    }
    vstd::set_lib::lemma_len_subset(s.order.to_set(), all);
}

/// The books are in order before the search has looked at any board.
pub proof fn lemma_start(goal: int)
    requires
        is_rank(goal),
    ensures
        Search::start(goal).inv(0),
        Search::start(goal).goal() == goal,
{
    let s = Search::start(goal);
    lemma_rank_of_board(goal);
    assert(s.order[0] == goal);
    assert forall|r: int, d: Direction| s.seen(r) implies #[trigger] s.even(r, d) by {
        if room(r, d) && s.seen(next_rank(r, d)) {
            assert(next_rank(r, d) == goal);
        }
    }
    assert forall|r: int| 0 <= r < 362880 && (#[trigger] s.hints[r]) is Some implies s.listed(
        r,
    ) by {}
}

/// The books stay in order when the search, at work on the rank in place
/// `head`, meets a rank for the first time and notes the move back.
pub proof fn lemma_discover(s: Search, head: int, tag: Direction)
    requires
        s.inv(head),
        head < s.order.len(),
        room(s.order[head], tag.reversed()),
        !s.seen(next_rank(s.order[head], tag.reversed())),
    ensures
        s.discover(next_rank(s.order[head], tag.reversed()), tag, s.order[head]).inv(head),
        s.discover(next_rank(s.order[head], tag.reversed()), tag, s.order[head]).goal()
            == s.goal(),
{
    let f = s.order[head];
    let mv = tag.reversed();
    let y = next_rank(f, mv);
    let t = s.discover(y, tag, f);
    assert(is_rank(s.order[head]));
    lemma_next_rank(f, mv);
    lemma_listed_is_seen(s, head);
    assert(mv.reversed() == tag);
    assert(t.goal() == s.goal());
    assert(y != s.goal());
    assert forall|r: int| s.seen(r) implies t.seen(r) && r != y by {}
    assert(t.seen(y));
    assert(t.seen(f) && f != y);

    // shape
    assert forall|i: int| 0 <= i < t.order.len() implies is_rank(#[trigger] t.order[i]) && 0
        <= t.order[i] < 362880 by {
        if i < s.order.len() {
            assert(is_rank(s.order[i]));
        }
    }
    assert forall|i: int| 0 <= i < s.order.len() implies #[trigger] s.order[i] != y by {
        lemma_listed_is_seen(s, i);
    }
    assert forall|i: int, j: int| 0 <= i < j < t.order.len() implies t.order[i] != t.order[j] by {
        if j < s.order.len() {
            assert(s.order[i] != s.order[j]);
        } else {
            assert(s.order[i] != y);
        }
    }
    assert forall|i: int| 1 <= i < t.order.len() implies (#[trigger] t.hints[t.order[i]]) is Some by {
        if i < s.order.len() {
            assert(s.hints[s.order[i]] is Some);
            assert(s.order[i] != y);
        }
    }
    assert forall|r: int| 0 <= r < 362880 && (#[trigger] t.hints[r]) is Some implies t.listed(
        r,
    ) by {
        if r == y {
            assert(t.order[s.order.len() as int] == y);
        } else {
            assert(s.hints[r] is Some);
            let i = choose|i: int| 0 <= i < s.order.len() && s.order[i] == r;
            assert(t.order[i] == r);
        }
    }
    assert(t.shaped());

    // the moves noted
    assert forall|r: int| 0 <= r < 362880 && t.hints[r] is Some implies #[trigger] t.led(r) by {
        if r == y {
            assert(next_rank(y, tag) == f);
        } else {
            assert(s.hints[r] is Some);
            assert(s.led(r));
            let p = next_rank(r, s.hints[r]->0);
            assert(s.seen(p));
            assert(p != y);
        }
    }

    // depths across one move
    assert forall|r: int, d: Direction| t.seen(r) implies #[trigger] t.even(r, d) by {
        if room(r, d) && t.seen(next_rank(r, d)) {
            let z = next_rank(r, d);
            if r == y {
                if z != y {
                    assert(s.seen(z));
                    lemma_seen_is_listed(s, z);
                    let i = choose|i: int| 0 <= i < s.order.len() && s.order[i] == z;
                    assert(s.depth[s.order[i]] <= s.depth[s.order[head]] + 1);
                }
            } else {
                assert(s.seen(r));
                if z == y {
                    lemma_seen_is_listed(s, r);
                    let i = choose|i: int| 0 <= i < s.order.len() && s.order[i] == r;
                    if i < head {
                        assert(s.closed(s.order[i]));
                        assert(s.seen(next_rank(r, d)));
                    } else {
                        assert(s.depth[s.order[head]] <= s.depth[s.order[i]]);
                    }
                } else {
                    assert(s.seen(z));
                    assert(s.even(r, d));
                }
            }
        }
    }

    // the first met of the boards one move away
    assert forall|r: int, d: Direction| 0 <= r < 362880 && t.hints[r] is Some implies #[trigger] t.first(
        r,
        d,
    ) by {
        if room(r, d) && t.seen(next_rank(r, d)) {
            let z = next_rank(r, d);
            let last = s.order.len() as int;
            assert(t.order[last] == y);
            lemma_place(t, last);
            if r == y {
                assert(next_rank(y, tag) == f);
                assert(t.order[head] == f);
                lemma_place(t, head);
                if z != y {
                    assert(s.seen(z));
                    lemma_seen_is_listed(s, z);
                    let i = choose|i: int| 0 <= i < s.order.len() && s.order[i] == z;
                    assert(t.order[i] == z);
                    lemma_place(t, i);
                    if i < head {
                        assert(s.closed(s.order[i]));
                        lemma_next_rank(y, d);
                        assert(s.seen(next_rank(z, d.reversed())));
                    }
                }
            } else {
                assert(s.hints[r] is Some);
                assert(s.led(r));
                let p = next_rank(r, s.hints[r]->0);
                lemma_seen_is_listed(s, p);
                let i = choose|i: int| 0 <= i < s.order.len() && s.order[i] == p;
                assert(t.order[i] == p);
                lemma_place(t, i);
                lemma_place(s, i);
                if z != y {
                    assert(s.seen(z));
                    assert(s.first(r, d));
                    lemma_seen_is_listed(s, z);
                    let j = choose|j: int| 0 <= j < s.order.len() && s.order[j] == z;
                    assert(t.order[j] == z);
                    lemma_place(t, j);
                    lemma_place(s, j);
                }
            }
        }
    }

    // the order of depths
    assert forall|i: int, j: int| 0 <= i <= j < t.order.len() implies t.depth[#[trigger] t.order[i]]
        <= t.depth[#[trigger] t.order[j]] by {
        if i < s.order.len() {
            assert(s.order[i] != y);
            assert(s.depth[s.order[i]] <= s.depth[s.order[head]] + 1);
            if j < s.order.len() {
                assert(s.order[j] != y);
                assert(s.depth[s.order[i]] <= s.depth[s.order[j]]);
            }
        }
    }
    assert forall|i: int| 0 <= i < head implies t.closed(#[trigger] t.order[i]) by {
        assert(s.closed(s.order[i]));
        assert forall|d: Direction| room(t.order[i], d) implies t.seen(
            #[trigger] next_rank(t.order[i], d),
        ) by {
            assert(s.seen(next_rank(s.order[i], d)));
        }
    }
    assert forall|i: int| 0 <= i < t.order.len() implies t.depth[#[trigger] t.order[i]]
        <= t.depth[t.order[head]] + 1 by {
        if i < s.order.len() {
            assert(s.order[i] != y);
            assert(s.depth[s.order[i]] <= s.depth[s.order[head]] + 1);
        }
    }
}

/// The books stay in order when the search, having met every rank one move
/// from the rank in place `head`, goes on to the next place.
pub proof fn lemma_advance(s: Search, head: int)
    requires
        s.inv(head),
        head < s.order.len(),
        s.closed(s.order[head]),
    ensures
        s.inv(head + 1),
{
    if head + 1 < s.order.len() {
        assert forall|i: int| 0 <= i < s.order.len() implies s.depth[#[trigger] s.order[i]]
            <= s.depth[s.order[head + 1]] + 1 by {
            assert(s.depth[s.order[i]] <= s.depth[s.order[head]] + 1);
            assert(s.depth[s.order[head]] <= s.depth[s.order[head + 1]]);
        }
    }
}

/// After the search, the depth of a rank that it has met is a number of
/// moves that leads from that board to the goal.
pub proof fn lemma_depth_solves(s: Search, r: int)
    requires
        s.complete(),
        s.seen(r),
    ensures
        solves_in(board_of(r), board_of(s.goal()), s.depth[r]),
    decreases s.depth[r],
{
    if r != s.goal() {
        assert(s.led(r));
        let d = s.hints[r]->0;
        let p = next_rank(r, d);
        lemma_seen_is_listed(s, r);
        lemma_next_rank(r, d);
        lemma_depth_solves(s, p);
        lemma_solves_by(board_of(r), board_of(s.goal()), s.depth[p], d);
    }
}

/// After the search, every board from which `n` moves lead to the goal has
/// been met, at a depth of at most `n`.
pub proof fn lemma_solved_is_seen(s: Search, b: Seq<u8>, n: nat)
    requires
        s.complete(),
        is_board(b),
        solves_in(b, board_of(s.goal()), n),
    ensures
        s.seen(rank_of(b)),
        s.depth[rank_of(b)] <= n,
    decreases n,
{
    lemma_listed_is_seen(s, 0);
    lemma_seen_is_listed(s, s.goal());
    lemma_rank_of_board(s.goal());
    lemma_board_of_rank(b);
    if n > 0 {
        let d = lemma_solves_first(b, board_of(s.goal()), n);
        let c = step(b, d);
        lemma_step(b, d);
        lemma_solved_is_seen(s, c, (n - 1) as nat);
        let rc = rank_of(c);
        assert(next_rank(rank_of(b), d) == rc);
        lemma_next_rank(rank_of(b), d);
        lemma_seen_is_listed(s, rc);
        let i = choose|i: int| 0 <= i < s.order.len() && s.order[i] == rc;
        assert(s.closed(s.order[i]));
        assert(s.seen(next_rank(rc, d.reversed())));
        assert(s.even(rc, d.reversed()));
    }
}

/// After the search, the depth of a rank that it has met is the least
/// number of moves that leads from that board to the goal.
pub proof fn lemma_depth_is_distance(s: Search, r: int)
    requires
        s.complete(),
        s.seen(r),
    ensures
        is_distance(board_of(r), board_of(s.goal()), s.depth[r]),
        distance(board_of(r), board_of(s.goal())) == s.depth[r],
        solvable(board_of(r), board_of(s.goal())),
{
    let b = board_of(r);
    let g = board_of(s.goal());
    lemma_seen_is_listed(s, r);
    lemma_rank_of_board(r);
    lemma_depth_solves(s, r);
    assert forall|m: nat| m < s.depth[r] implies !solves_in(b, g, m) by {
        if solves_in(b, g, m) {
            lemma_solved_is_seen(s, b, m);
        }
    }
    lemma_distance_unique(b, g, s.depth[r]);
}

/// The least number of moves, where there is one, is the distance.
pub proof fn lemma_distance_unique(b: Seq<u8>, goal: Seq<u8>, n: nat)
    requires
        is_distance(b, goal, n),
    ensures
        distance(b, goal) == n,
{
    let k = distance(b, goal);
    assert(is_distance(b, goal, k));
    if k < n {
        assert(!solves_in(b, goal, k));
    } else if n < k {
        assert(!solves_in(b, goal, n));
    }
}

} // verus!
