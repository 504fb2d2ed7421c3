//! The table of hints: for every board from which the goal can be reached,
//! a move that brings the goal one move nearer.

use vstd::prelude::*;
use vstd::slice::slice_subrange;
use rand::seq::IteratorRandom;
use crate::direction::Direction;
use crate::moves::{can_step, lemma_step, step};
use crate::parity::{lemma_solvable_parity, parity};
use crate::rank::{board_of, is_board, lemma_board_of_rank, rank_of};
use crate::search::{
    distance, lemma_advance, lemma_depth_is_distance, lemma_discover, lemma_listed_is_seen,
    lemma_next_rank, lemma_order_fits, lemma_place, lemma_seen_is_listed, lemma_solved_is_seen,
    lemma_start, next_rank, room, solvable, solves_in, Search,
};
use crate::state::{State, NUMBER_OF_STATES};

verus! {

/// The books that a table, the boards met and their depths make up.
spec fn books_of<S: State>(
    hints: Seq<Option<Direction>>,
    states: Seq<S>,
    depth: Seq<nat>,
) -> Search {
    Search { hints, order: states.map_values(|s: S| rank_of(s.board())), depth }
}

/// Whether move `d` leads from `b` to a board that is one move nearer to
/// `goal` than `b` is.
pub open spec fn nears(b: Seq<u8>, d: Direction, goal: Seq<u8>) -> bool {
    &&& can_step(b, d)
    &&& solvable(step(b, d), goal)
    &&& distance(step(b, d), goal) + 1 == distance(b, goal)
}

/// For a goal board, the boards from which it can be reached, each with a
/// move that brings the goal one move nearer.
pub struct Hinter<S: State> {
    hint_map: Vec<Option<Direction>>,
    states: Vec<S>,
    depth: Ghost<Seq<nat>>,
}

impl<S: State> Hinter<S> {
    /// The books of the search that filled the table.
    spec fn books(&self) -> Search {
        books_of(self.hint_map@, self.states@, self.depth@)
    }

    /// Whether the table is that of a finished search from a goal board.
    pub closed spec fn wf(&self) -> bool {
        &&& self.books().complete()
        &&& forall|i: int| 0 <= i < self.states.len() ==> (#[trigger] self.states[i]).wf()
    }

    /// The goal board.
    pub closed spec fn goal(&self) -> Seq<u8> {
        self.states[0].board()
    }

    /// The move that the table holds for board `b`, if it holds one.
    pub closed spec fn hint_for(&self, b: Seq<u8>) -> Option<Direction> {
        self.hint_map@[rank_of(b)]
    }

    /// The place of board `b` in the order in which the search met the
    /// boards; the goal has place 0.
    pub closed spec fn met_at(&self, b: Seq<u8>) -> int {
        self.books().place(rank_of(b))
    }

    /// Whether the move that the table holds for a board leads to the board
    /// that the search met first among the boards one move away.
    pub open spec fn first_met_wins(&self) -> bool {
        forall|b: Seq<u8>, e: Direction|
            is_board(b) && self.hint_for(b) is Some && can_step(b, e) && solvable(
                step(b, e),
                self.goal(),
            ) ==> self.met_at(step(b, self.hint_for(b)->0)) <= #[trigger] self.met_at(step(b, e))
    }

    /// Whether the search met the boards in the order of their distances
    /// from the goal.
    pub open spec fn met_by_distance(&self) -> bool {
        forall|a: Seq<u8>, b: Seq<u8>|
            is_board(a) && is_board(b) && solvable(a, self.goal()) && solvable(b, self.goal())
                && #[trigger] self.met_at(a) <= #[trigger] self.met_at(b) ==> distance(
                a,
                self.goal(),
            ) <= distance(b, self.goal())
    }

    /// Searches breadth first from `goal` through the boards that are one
    /// move from a board already met, and notes for each board, when it is
    /// first met, the move that leads back to the board it was met from.
    /// The goal itself gets no move.
    #[verifier::loop_isolation(false)]
    pub fn new(goal: S) -> (hinter: Self)
        requires
            goal.wf(),
        ensures
            hinter.wf(),
            hinter.goal() == goal.board(),
            hinter.hint_for(goal.board()) is None,
            forall|b: Seq<u8>|
                is_board(b) ==> ((#[trigger] hinter.hint_for(b)) is Some <==> b != goal.board()
                    && solvable(b, goal.board())),
            forall|b: Seq<u8>|
                is_board(b) && (#[trigger] hinter.hint_for(b)) is Some ==> nears(
                    b,
                    hinter.hint_for(b)->0,
                    goal.board(),
                ),
            hinter.met_at(goal.board()) == 0,
            hinter.met_by_distance(),
            hinter.first_met_wins(),
    {
        let mut hint_map: Vec<Option<Direction>> = Vec::new();
        let mut n: u32 = 0;
        while n < NUMBER_OF_STATES
            invariant
                n <= NUMBER_OF_STATES,
                hint_map.len() == n,
                forall|r: int| 0 <= r < n ==> hint_map[r] is None,
            decreases NUMBER_OF_STATES - n,
        {
            hint_map.push(None);
            n += 1;
        }
        let goal_rank = State::hash(&goal) as usize;
        let ghost goal_board = goal.board();
        proof {
            goal.lemma_board_valid();
        }
        let mut states: Vec<S> = Vec::new();
        states.push(goal);
        let ghost mut depth: Seq<nat> = Seq::new(362880, |r: int| 0nat);
        proof {
            lemma_board_of_rank(goal_board);
            lemma_start(goal_rank as int);
            let s = books_of(hint_map@, states@, depth);
            assert(s.hints =~= Search::start(goal_rank as int).hints);
            assert(s.order =~= Search::start(goal_rank as int).order);
            assert(s == Search::start(goal_rank as int));
        }
        let mut head: usize = 0;
        while head < states.len()
            invariant
                books_of(hint_map@, states@, depth).inv(head as int),
                books_of(hint_map@, states@, depth).goal() == goal_rank,
                states[0].board() == goal_board,
                states.len() <= 362880,
                forall|i: int| 0 <= i < states.len() ==> (#[trigger] states[i]).wf(),
            decreases 362880 - head,
        {
            let neighbors = states[head].neighbors();
            let ghost from = states[head as int].board();
            let ghost f = rank_of(from);
            let ghost found = neighbors@;
            proof {
                states[head as int].lemma_board_valid();
                lemma_board_of_rank(from);
                assert(books_of(hint_map@, states@, depth).order[head as int] == f);
            }
            for entry in it: neighbors.into_iter()
                invariant
                    it.seq() == found,
                    head < states.len(),
                    states[head as int].board() == from,
                    books_of(hint_map@, states@, depth).inv(head as int),
                    books_of(hint_map@, states@, depth).goal() == goal_rank,
                    states[0].board() == goal_board,
                    states.len() <= 362880,
                    forall|i: int| 0 <= i < states.len() ==> (#[trigger] states[i]).wf(),
                    forall|k: int|
                        0 <= k < it.index() ==> books_of(hint_map@, states@, depth).seen(
                            rank_of((#[trigger] found[k]).1.board()),
                        ),
            {
                let ghost before = books_of(hint_map@, states@, depth);
                let ghost k = it.index();
                assert(entry == found[k]);
                let (direction, neighbor) = entry;
                let r = State::hash(&neighbor) as usize;
                proof {
                    assert(before.order[head as int] == f);
                    assert(neighbor.board() == step(from, direction.reversed()));
                    assert(r == next_rank(f, direction.reversed()));
                }
                if r != goal_rank && hint_map[r].is_none() {
                    hint_map[r] = Some(direction);
                    states.push(neighbor);
                    proof {
                        depth = depth.update(r as int, depth[f] + 1);
                        lemma_discover(before, head as int, direction);
                        let after = books_of(hint_map@, states@, depth);
                        assert(after.order =~= before.order.push(r as int));
                        assert(after == before.discover(r as int, direction, f));
                        lemma_order_fits(after);
                    }
                }
            }
            proof {
                let s = books_of(hint_map@, states@, depth);
                assert(s.order[head as int] == f);
                assert forall|d: Direction| room(f, d) implies s.seen(#[trigger] next_rank(f, d)) by {
                    let k = choose|k: int|
                        0 <= k < found.len() && (#[trigger] found[k]).0 == d.reversed();
                    assert(found[k].0.reversed() == d);
                    assert(s.seen(rank_of(found[k].1.board())));
                }
                lemma_advance(s, head as int);
            }
            head += 1;
        }
        let hinter = Hinter { hint_map, states, depth: Ghost(depth) };
        proof {
            assert forall|b: Seq<u8>| is_board(b) implies ((#[trigger] hinter.hint_for(b)) is Some
                <==> b != goal_board && solvable(b, goal_board)) && (hinter.hint_for(b) is Some
                ==> nears(b, hinter.hint_for(b)->0, goal_board)) by {
                hinter.lemma_hints(b);
            }
            hinter.lemma_met_order();
            hinter.lemma_goal();
        }
        hinter
    }

    /// Returns the move that the table holds for the board of `s`: a move
    /// that brings the goal one move nearer. Returns `None` for the goal
    /// itself and for a board from which no moves lead to the goal.
    pub fn hint(&self, s: &S) -> (found: Option<&Direction>)
        requires
            self.wf(),
            s.wf(),
        ensures
            found is Some <==> self.hint_for(s.board()) is Some,
            found is Some ==> *found->0 == self.hint_for(s.board())->0,
            found is Some <==> s.board() != self.goal() && solvable(s.board(), self.goal()),
            found is Some ==> nears(s.board(), *found->0, self.goal()),
    {
        proof {
            s.lemma_board_valid();
            self.lemma_hints(s.board());
        }
        self.hint_map[State::hash(s) as usize].as_ref()
    }

    /// Returns one of the boards that the table holds a move for, picked at
    /// random.
    pub fn random_state(&self) -> (picked: Option<&S>)
        requires
            self.wf(),
        ensures
            picked is Some,
            picked->0.wf(),
            self.hint_for(picked->0.board()) is Some,
    {
        proof {
            self.lemma_has_keys();
        }
        let keys = slice_subrange(self.states.as_slice(), 1, self.states.len());
        let picked = choose_one(keys);
        proof {
            let i = keys@.index_of(*picked->0);
            assert(*picked->0 == self.states[i + 1]);
            assert(self.books().order[i + 1] == rank_of(picked->0.board()));
        }
        picked
    }

    /// The board that following the table's moves for `n` moves leads to
    /// from `b`; the way ends early at a board without a move.
    pub open spec fn follow(&self, b: Seq<u8>, n: nat) -> Seq<u8>
        decreases n,
    {
        if n == 0 {
            b
        } else {
            match self.hint_for(b) {
                Some(d) => self.follow(step(b, d), (n - 1) as nat),
                None => b,
            }
        }
    }

    /// The table holds a move for exactly the boards, other than the goal,
    /// from which moves lead to the goal, and the move it holds leads to a
    /// board that is one move nearer to the goal.
    pub proof fn lemma_hints(&self, b: Seq<u8>)
        requires
            self.wf(),
            is_board(b),
        ensures
            self.hint_for(b) is Some <==> b != self.goal() && solvable(b, self.goal()),
            self.hint_for(b) is Some ==> nears(b, self.hint_for(b)->0, self.goal()),
    {
        let s = self.books();
        let r = rank_of(b);
        let g = self.goal();
        self.lemma_books_goal();
        lemma_board_of_rank(b);
        if self.hint_for(b) is Some {
            lemma_depth_is_distance(s, r);
            assert(s.led(r));
            let d = self.hint_for(b)->0;
            lemma_next_rank(r, d);
            lemma_depth_is_distance(s, next_rank(r, d));
        }
        if b != g && solvable(b, g) {
            let n = choose|n: nat| solves_in(b, g, n);
            lemma_solved_is_seen(s, b, n);
        }
    }

    /// The search met the goal first and the other boards in the order of
    /// their distances from it, and where several moves lead from a board
    /// to boards nearer to the goal, the table holds the move to the one
    /// that the search met first.
    pub proof fn lemma_met_order(&self)
        requires
            self.wf(),
        ensures
            self.met_at(self.goal()) == 0,
            self.met_by_distance(),
            self.first_met_wins(),
    {
        let s = self.books();
        let g = self.goal();
        self.lemma_books_goal();
        lemma_place(s, 0);
        assert forall|b: Seq<u8>, e: Direction|
            is_board(b) && self.hint_for(b) is Some && can_step(b, e) && solvable(
                step(b, e),
                g,
            ) implies self.met_at(step(b, self.hint_for(b)->0)) <= #[trigger] self.met_at(
            step(b, e),
        ) by {
            let r = rank_of(b);
            lemma_board_of_rank(b);
            lemma_step(b, e);
            let n = choose|n: nat| solves_in(step(b, e), g, n);
            lemma_solved_is_seen(s, step(b, e), n);
            assert(s.first(r, e));
        }
        assert forall|a: Seq<u8>, b: Seq<u8>|
            is_board(a) && is_board(b) && solvable(a, g) && solvable(b, g)
                && #[trigger] self.met_at(a) <= #[trigger] self.met_at(b) implies distance(a, g)
            <= distance(b, g) by {
            let m = choose|m: nat| solves_in(a, g, m);
            let n = choose|n: nat| solves_in(b, g, n);
            lemma_solved_is_seen(s, a, m);
            lemma_solved_is_seen(s, b, n);
            lemma_board_of_rank(a);
            lemma_board_of_rank(b);
            lemma_seen_is_listed(s, rank_of(a));
            lemma_seen_is_listed(s, rank_of(b));
            let i = choose|i: int| 0 <= i < s.order.len() && s.order[i] == rank_of(a);
            let j = choose|j: int| 0 <= j < s.order.len() && s.order[j] == rank_of(b);
            lemma_place(s, i);
            lemma_place(s, j);
            assert(s.depth[s.order[i]] <= s.depth[s.order[j]]);
            lemma_depth_is_distance(s, rank_of(a));
            lemma_depth_is_distance(s, rank_of(b));
        }
    }

    /// The table holds no move for a board that has not the parity of the
    /// goal.
    pub proof fn lemma_parity(&self, b: Seq<u8>)
        requires
            self.wf(),
            is_board(b),
            parity(b) != parity(self.goal()),
        ensures
            self.hint_for(b) is None,
    {
        self.lemma_hints(b);
        if solvable(b, self.goal()) {
            lemma_solvable_parity(b, self.goal());
        }
    }

    /// The goal of the table is a board, and the table holds no move for it.
    pub proof fn lemma_goal(&self)
        requires
            self.wf(),
        ensures
            is_board(self.goal()),
            self.hint_for(self.goal()) is None,
    {
        self.lemma_books_goal();
    }

    /// The goal stands first in the books.
    proof fn lemma_books_goal(&self)
        requires
            self.wf(),
        ensures
            is_board(self.goal()),
            self.books().goal() == rank_of(self.goal()),
            board_of(self.books().goal()) == self.goal(),
            self.hint_for(self.goal()) is None,
    {
        assert(self.states[0].wf());
        self.states[0].lemma_board_valid();
        lemma_board_of_rank(self.goal());
    }

    /// The table holds a move for at least one board.
    proof fn lemma_has_keys(&self)
        requires
            self.wf(),
        ensures
            self.states.len() >= 2,
            forall|i: int|
                1 <= i < self.states.len() ==> (#[trigger] self.states[i]).wf() && self.hint_for(
                    self.states[i].board(),
                ) is Some,
    {
        let s = self.books();
        let g = s.goal();
        self.lemma_books_goal();
        crate::moves::lemma_blank(self.goal());
        let d = if room(g, Direction::Up) {
            Direction::Up
        } else {
            Direction::Down
        };
        assert(s.closed(s.order[0]));
        assert(s.seen(next_rank(g, d)));
        lemma_listed_is_seen(s, 0);
        lemma_seen_is_listed(s, g);
        lemma_next_rank(g, d);
        lemma_seen_is_listed(s, next_rank(g, d));
        assert forall|i: int| 1 <= i < self.states.len() implies (#[trigger] self.states[i]).wf()
            && self.hint_for(self.states[i].board()) is Some by {
            assert(s.hints[s.order[i]] is Some);
        }
    }

    /// Following the table's moves from a board from which moves lead to
    /// the goal arrives at the goal after as many moves as the board is
    /// away from it, and not before.
    pub proof fn lemma_follow(&self, b: Seq<u8>)
        requires
            self.wf(),
            is_board(b),
            solvable(b, self.goal()),
        ensures
            self.follow(b, distance(b, self.goal())) == self.goal(),
            forall|k: nat| k < distance(b, self.goal()) ==> #[trigger] self.follow(b, k) != self.goal(),
        decreases distance(b, self.goal()),
    {
        let g = self.goal();
        self.lemma_hints(b);
        if b == g {
            crate::search::lemma_distance_unique(b, g, 0);
        } else {
            let d = self.hint_for(b)->0;
            let c = step(b, d);
            lemma_step(b, d);
            self.lemma_follow(c);
            assert forall|k: nat| k < distance(b, g) implies #[trigger] self.follow(b, k) != g by {
                if k > 0 {
                    assert(self.follow(b, k) == self.follow(c, (k - 1) as nat));
                }
            }
        }
    }

    /// Two tables for one goal hold moves for the same boards, and the same
    /// move for every board from which only one move leads nearer to the goal.
    pub proof fn lemma_same_goal(&self, other: &Self, b: Seq<u8>)
        requires
            self.wf(),
            other.wf(),
            self.goal() == other.goal(),
            is_board(b),
        ensures
            self.hint_for(b) is Some <==> other.hint_for(b) is Some,
            (forall|d: Direction, e: Direction|
                nears(b, d, self.goal()) && nears(b, e, self.goal()) ==> d == e)
                ==> self.hint_for(b) == other.hint_for(b),
    {
        self.lemma_hints(b);
        other.lemma_hints(b);
    }
}

/// `rand::seq::IteratorRandom::choose` on the items of a slice, with the
/// generator of `rand::thread_rng`: the result is one of the items, and
/// `None` only where there is no item.
#[verifier::external_body]
fn choose_one<T>(items: &[T]) -> (picked: Option<&T>)
    ensures
        picked is None <==> items@.len() == 0,
        picked is Some ==> items@.contains(*picked->0),
{
    items.iter().choose(&mut rand::thread_rng())
}

} // verus!
