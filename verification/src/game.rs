//! The flow of a game: the menu, the play with its counts of moves and
//! hints, and the end, as states and the keys that lead from one to the next.

use vstd::prelude::*;
use crate::direction::Direction;
use crate::hint::Hinter;
use crate::moves::{can_step, step};
use crate::search::{lemma_step_keeps_solvable, solvable};
use crate::state::{HashState, State};

verus! {

/// The boards of the game.
pub type Board = HashState;

/// A key that the game reads; `Other` stands for all the rest.
#[derive(Debug, PartialEq, Eq, Clone, Copy, Structural)]
pub enum Key {
    Up,
    Down,
    Left,
    Right,
    Escape,
    R,
    H,
    S,
    Other,
}

/// A game under way.
#[derive(Debug, Clone, Copy)]
pub struct InGame {
    pub move_count: usize,
    pub hint_count: usize,
    pub initial: Board,
    pub board: Board,
    pub show_hint: bool,
}

/// A game that has reached the goal.
#[derive(Debug, Clone, Copy)]
pub struct Finish {
    pub move_count: usize,
    pub hint_count: usize,
    pub board: Board,
}

/// Where the game stands.
#[derive(Debug)]
pub enum Status {
    Menu,
    InGame(InGame),
    Finish(Finish),
}

impl InGame {
    /// Whether the game is one for `goal`: moves lead to the goal from the
    /// board it began with and from the board it has come to.
    pub open spec fn wf(&self, goal: Seq<u8>) -> bool {
        &&& self.initial.wf()
        &&& self.board.wf()
        &&& solvable(self.initial.board(), goal)
        &&& solvable(self.board.board(), goal)
    }

    /// Whether `next` is this game after one more move, in direction `d`.
    pub open spec fn moved(&self, d: Direction, next: InGame) -> bool {
        &&& next.move_count == self.move_count + 1
        &&& next.hint_count == self.hint_count
        &&& next.initial == self.initial
        &&& next.board.wf()
        &&& next.board.board() == step(self.board.board(), d)
        &&& !next.show_hint
    }

    /// Whether `next` is this game begun again.
    pub open spec fn reset(&self, next: InGame) -> bool {
        &&& next.move_count == 0
        &&& next.hint_count == 0
        &&& next.initial == self.initial
        &&& next.board == self.initial
        &&& !next.show_hint
    }

    /// Whether `next` is this game with one more hint asked for, and shown.
    pub open spec fn hinted(&self, next: InGame) -> bool {
        &&& next.move_count == self.move_count
        &&& next.hint_count == self.hint_count + 1
        &&& next.initial == self.initial
        &&& next.board == self.board
        &&& next.show_hint
    }

    /// Whether `end` is the end of this game.
    pub open spec fn finished(&self, end: Finish) -> bool {
        &&& end.move_count == self.move_count
        &&& end.hint_count == self.hint_count
        &&& end.board == self.board
    }

    /// Returns the game after a move in `direction`: one more move counted
    /// and no hint shown where the blank has room, the game as it is where
    /// it has none.
    pub fn move_board(&self, direction: Direction) -> (next: InGame)
        requires
            self.board.wf(),
            can_step(self.board.board(), direction) ==> self.move_count < usize::MAX,
        ensures
            can_step(self.board.board(), direction) ==> self.moved(direction, next),
            !can_step(self.board.board(), direction) ==> next == *self,
            forall|goal: Seq<u8>| self.wf(goal) ==> #[trigger] next.wf(goal),
    {
        let moved = match direction {
            Direction::Up => self.board.up(),
            Direction::Down => self.board.down(),
            Direction::Left => self.board.left(),
            Direction::Right => self.board.right(),
        };
        if let Some(new_board) = moved {
            proof {
                self.board.lemma_board_valid();
                assert forall|goal: Seq<u8>| self.wf(goal) implies solvable(
                    new_board.board(),
                    goal,
                ) by {
                    lemma_step_keeps_solvable(self.board.board(), goal, direction);
                }
            }
            InGame {
                move_count: self.move_count + 1,
                hint_count: self.hint_count,
                initial: self.initial,
                board: new_board,
                show_hint: false,
            }
        } else {
            *self
        }
    }

    /// Returns the move to show to the player: the table's move for the
    /// board, where a hint was asked for and the board is not the goal.
    pub fn shown_hint(&self, goal: &Board, hinter: &Hinter<Board>) -> (hint: Option<Direction>)
        requires
            hinter.wf(),
            goal.wf(),
            hinter.goal() == goal.board(),
            self.wf(goal.board()),
        ensures
            hint is Some <==> self.show_hint && self.board != *goal,
            hint is Some ==> hinter.hint_for(self.board.board()) == hint,
    {
        proof {
            lemma_same_board(self.board, *goal);
        }
        if self.show_hint && !(self.board == *goal) {
            match hinter.hint(&self.board) {
                Some(direction) => Some(*direction),
                None => None,
            }
        } else {
            None
        }
    }
}

/// Two boards are one value exactly when they hold the same labels.
pub proof fn lemma_same_board(a: Board, b: Board)
    requires
        a.wf(),
        b.wf(),
    ensures
        a == b <==> a.board() == b.board(),
{
    a.lemma_rank();
    b.lemma_rank();
}

impl Status {
    /// Whether the state is that of a game for `goal`.
    pub open spec fn wf(&self, goal: Seq<u8>) -> bool {
        match self {
            Status::InGame(in_game) => in_game.wf(goal),
            _ => true,
        }
    }

    /// Whether the state is the beginning of a game from one of the boards
    /// that the table holds a move for.
    pub open spec fn fresh(&self, hinter: &Hinter<Board>) -> bool {
        &&& self matches Status::InGame(in_game)
        &&& in_game.move_count == 0
        &&& in_game.hint_count == 0
        &&& in_game.board == in_game.initial
        &&& !in_game.show_hint
        &&& in_game.initial.wf()
        &&& hinter.hint_for(in_game.initial.board()) is Some
    }

    /// Begins a game from a board picked at random among those that the
    /// table holds a move for.
    pub fn start(hinter: &Hinter<Board>) -> (status: Status)
        requires
            hinter.wf(),
        ensures
            status.fresh(hinter),
            status.wf(hinter.goal()),
    {
        let initial = *hinter.random_state().unwrap();
        proof {
            initial.lemma_board_valid();
            hinter.lemma_hints(initial.board());
        }
        Status::InGame(
            InGame { move_count: 0, hint_count: 0, initial, board: initial, show_hint: false },
        )
    }

    /// What a key does in the menu: `S` begins a game, `Escape` ends the
    /// program, and nothing else changes anything.
    pub open spec fn after_menu(
        key: Option<Key>,
        hinter: &Hinter<Board>,
        next: Option<Status>,
    ) -> bool {
        match key {
            Some(Key::S) => next is Some && next->0.fresh(hinter),
            Some(Key::Escape) => next is None,
            _ => next == Some(Status::Menu),
        }
    }

    /// What a key does after the end of a game: `R` begins another game,
    /// `Escape` leads to the menu, and nothing else changes anything.
    pub open spec fn after_finish(
        finish: Finish,
        key: Option<Key>,
        hinter: &Hinter<Board>,
        next: Option<Status>,
    ) -> bool {
        match key {
            Some(Key::R) => next is Some && next->0.fresh(hinter),
            Some(Key::Escape) => next == Some(Status::Menu),
            _ => next == Some(Status::Finish(finish)),
        }
    }

    /// What a key does in a game: at the goal the game is over, whatever
    /// the key. Else a direction key moves the blank where it has room,
    /// `Escape` leads to the menu, `R` begins the game again from its first
    /// board, `H` shows a hint, and nothing else changes anything.
    pub open spec fn after_in_game(
        in_game: InGame,
        key: Option<Key>,
        goal: Board,
        next: Option<Status>,
    ) -> bool {
        if in_game.board == goal {
            next matches Some(Status::Finish(end)) && in_game.finished(end)
        } else {
            match key {
                Some(Key::Up) => Self::after_move(in_game, Direction::Up, next),
                Some(Key::Down) => Self::after_move(in_game, Direction::Down, next),
                Some(Key::Left) => Self::after_move(in_game, Direction::Left, next),
                Some(Key::Right) => Self::after_move(in_game, Direction::Right, next),
                Some(Key::Escape) => next == Some(Status::Menu),
                Some(Key::R) => next matches Some(Status::InGame(again)) && in_game.reset(again),
                Some(Key::H) => next matches Some(Status::InGame(with)) && in_game.hinted(with),
                _ => next == Some(Status::InGame(in_game)),
            }
        }
    }

    /// What a direction key does in a game that is not over.
    pub open spec fn after_move(in_game: InGame, d: Direction, next: Option<Status>) -> bool {
        if can_step(in_game.board.board(), d) {
            next matches Some(Status::InGame(then)) && in_game.moved(d, then)
        } else {
            next == Some(Status::InGame(in_game))
        }
    }

    /// Whether the counts of a game leave room for what `key` adds.
    pub open spec fn counts_fit(in_game: InGame, key: Option<Key>) -> bool {
        match key {
            Some(Key::Up) => can_step(in_game.board.board(), Direction::Up)
                ==> in_game.move_count < usize::MAX,
            Some(Key::Down) => can_step(in_game.board.board(), Direction::Down)
                ==> in_game.move_count < usize::MAX,
            Some(Key::Left) => can_step(in_game.board.board(), Direction::Left)
                ==> in_game.move_count < usize::MAX,
            Some(Key::Right) => can_step(in_game.board.board(), Direction::Right)
                ==> in_game.move_count < usize::MAX,
            Some(Key::H) => in_game.hint_count < usize::MAX,
            _ => true,
        }
    }

    /// Returns the state that follows the menu on `key`, or `None` to end
    /// the program.
    pub fn on_menu(key: Option<Key>, hinter: &Hinter<Board>) -> (next: Option<Status>)
        requires
            hinter.wf(),
        ensures
            Self::after_menu(key, hinter, next),
            next is Some ==> next->0.wf(hinter.goal()),
    {
        match key {
            Some(Key::S) => Some(Status::start(hinter)),
            Some(Key::Escape) => None,
            _ => Some(Status::Menu),
        }
    }

    /// Returns the state that follows the end of a game on `key`.
    pub fn on_finish(finish: &Finish, key: Option<Key>, hinter: &Hinter<Board>) -> (next: Option<
        Status,
    >)
        requires
            hinter.wf(),
        ensures
            Self::after_finish(*finish, key, hinter, next),
            next is Some,
            next->0.wf(hinter.goal()),
    {
        match key {
            Some(Key::R) => Some(Status::start(hinter)),
            Some(Key::Escape) => Some(Status::Menu),
            _ => Some(Status::Finish(*finish)),
        }
    }

    /// Returns the state that follows a game under way on `key`.
    pub fn in_game(in_game: &InGame, key: Option<Key>, goal: &Board) -> (next: Option<Status>)
        requires
            in_game.board.wf(),
            in_game.board != *goal ==> Self::counts_fit(*in_game, key),
        ensures
            Self::after_in_game(*in_game, key, *goal, next),
            next is Some,
            forall|g: Seq<u8>| in_game.wf(g) ==> #[trigger] next->0.wf(g),
    {
        if in_game.board == *goal {
            return Some(
                Status::Finish(
                    Finish {
                        move_count: in_game.move_count,
                        hint_count: in_game.hint_count,
                        board: in_game.board,
                    },
                ),
            );
        }
        match key {
            Some(Key::Up) => Some(Status::InGame(in_game.move_board(Direction::Up))),
            Some(Key::Down) => Some(Status::InGame(in_game.move_board(Direction::Down))),
            Some(Key::Left) => Some(Status::InGame(in_game.move_board(Direction::Left))),
            Some(Key::Right) => Some(Status::InGame(in_game.move_board(Direction::Right))),
            Some(Key::Escape) => Some(Status::Menu),
            Some(Key::R) => Some(
                Status::InGame(
                    InGame {
                        move_count: 0,
                        hint_count: 0,
                        initial: in_game.initial,
                        board: in_game.initial,
                        show_hint: false,
                    },
                ),
            ),
            Some(Key::H) => Some(
                Status::InGame(
                    InGame {
                        move_count: in_game.move_count,
                        hint_count: in_game.hint_count + 1,
                        initial: in_game.initial,
                        board: in_game.board,
                        show_hint: true,
                    },
                ),
            ),
            _ => Some(Status::InGame(*in_game)),
        }
    }
}

} // verus!
