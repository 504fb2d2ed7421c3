use eight_puzzle_core::direction::Direction;
use eight_puzzle_core::game::Finish;
use eight_puzzle_core::game::InGame;
use eight_puzzle_core::game::Key;
use eight_puzzle_core::game::Status;
use eight_puzzle_core::hint::Hinter;
use eight_puzzle_core::state::HashState;
use eight_puzzle_core::state::State;

const GOAL: [u8; 9] = [1, 2, 3, 4, 0, 5, 6, 7, 8];

fn game_at(array: &[u8; 9]) -> InGame {
    let board = HashState::from_array(array);
    InGame {
        move_count: 3,
        hint_count: 1,
        initial: HashState::from_array(&[0, 1, 3, 4, 2, 5, 6, 7, 8]),
        board,
        show_hint: true,
    }
}

fn in_game_of(status: Option<Status>) -> InGame {
    match status {
        Some(Status::InGame(in_game)) => in_game,
        other => panic!("not a game under way: {:?}", other),
    }
}

#[test]
fn a_legal_move_is_counted_and_hides_the_hint() {
    let game = game_at(&[1, 0, 3, 4, 2, 5, 6, 7, 8]);
    let next = game.move_board(Direction::Left);
    assert_eq!(next.move_count, 4);
    assert_eq!(next.hint_count, 1);
    assert_eq!(next.initial, game.initial);
    assert_eq!(next.board.to_array(), [0, 1, 3, 4, 2, 5, 6, 7, 8]);
    assert!(!next.show_hint);
}

#[test]
fn a_move_without_room_changes_nothing() {
    let game = game_at(&[1, 0, 3, 4, 2, 5, 6, 7, 8]);
    let next = game.move_board(Direction::Up);
    assert_eq!(next.move_count, 3);
    assert_eq!(next.hint_count, 1);
    assert_eq!(next.board, game.board);
    assert!(next.show_hint);
}

#[test]
fn the_menu_reads_s_and_escape() {
    let goal = HashState::from_array(&GOAL);
    let hinter = Hinter::new(goal);
    let started = in_game_of(Status::on_menu(Some(Key::S), &hinter));
    assert_eq!(started.move_count, 0);
    assert_eq!(started.hint_count, 0);
    assert_eq!(started.board, started.initial);
    assert!(!started.show_hint);
    assert!(hinter.hint(&started.initial).is_some());
    assert!(Status::on_menu(Some(Key::Escape), &hinter).is_none());
    assert!(matches!(Status::on_menu(Some(Key::H), &hinter), Some(Status::Menu)));
    assert!(matches!(Status::on_menu(None, &hinter), Some(Status::Menu)));
}

#[test]
fn a_game_at_the_goal_is_over_whatever_the_key() {
    let goal = HashState::from_array(&GOAL);
    let game = game_at(&GOAL);
    for key in [None, Some(Key::Up), Some(Key::Escape), Some(Key::R), Some(Key::H)] {
        match Status::in_game(&game, key, &goal) {
            Some(Status::Finish(end)) => {
                assert_eq!(end.move_count, 3);
                assert_eq!(end.hint_count, 1);
                assert_eq!(end.board, goal);
            }
            other => panic!("not the end of a game: {:?}", other),
        }
    }
}

#[test]
fn direction_keys_move_the_blank() {
    let goal = HashState::from_array(&GOAL);
    let game = game_at(&[1, 0, 3, 4, 2, 5, 6, 7, 8]);
    let down = in_game_of(Status::in_game(&game, Some(Key::Down), &goal));
    assert_eq!(down.board.to_array(), [1, 2, 3, 4, 0, 5, 6, 7, 8]);
    assert_eq!(down.move_count, 4);
    let left = in_game_of(Status::in_game(&game, Some(Key::Left), &goal));
    assert_eq!(left.board.to_array(), [0, 1, 3, 4, 2, 5, 6, 7, 8]);
    let right = in_game_of(Status::in_game(&game, Some(Key::Right), &goal));
    assert_eq!(right.board.to_array(), [1, 3, 0, 4, 2, 5, 6, 7, 8]);
    let up = in_game_of(Status::in_game(&game, Some(Key::Up), &goal));
    assert_eq!(up.board, game.board);
    assert_eq!(up.move_count, 3);
    assert!(up.show_hint);
}

#[test]
fn the_other_keys_of_a_game() {
    let goal = HashState::from_array(&GOAL);
    let game = game_at(&[1, 0, 3, 4, 2, 5, 6, 7, 8]);
    assert!(matches!(
        Status::in_game(&game, Some(Key::Escape), &goal),
        Some(Status::Menu)
    ));
    let again = in_game_of(Status::in_game(&game, Some(Key::R), &goal));
    assert_eq!(again.move_count, 0);
    assert_eq!(again.hint_count, 0);
    assert_eq!(again.board, game.initial);
    assert_eq!(again.initial, game.initial);
    assert!(!again.show_hint);
    let mut quiet = game;
    quiet.show_hint = false;
    let hinted = in_game_of(Status::in_game(&quiet, Some(Key::H), &goal));
    assert_eq!(hinted.hint_count, 2);
    assert_eq!(hinted.move_count, 3);
    assert_eq!(hinted.board, game.board);
    assert!(hinted.show_hint);
    for key in [None, Some(Key::S), Some(Key::Other)] {
        let same = in_game_of(Status::in_game(&game, key, &goal));
        assert_eq!(same.move_count, 3);
        assert_eq!(same.hint_count, 1);
        assert_eq!(same.board, game.board);
        assert!(same.show_hint);
    }
}

#[test]
fn the_keys_after_the_end() {
    let goal = HashState::from_array(&GOAL);
    let hinter = Hinter::new(goal);
    let end = Finish {
        move_count: 7,
        hint_count: 2,
        board: goal,
    };
    let started = in_game_of(Status::on_finish(&end, Some(Key::R), &hinter));
    assert_eq!(started.move_count, 0);
    assert_ne!(started.board, goal);
    assert!(matches!(
        Status::on_finish(&end, Some(Key::Escape), &hinter),
        Some(Status::Menu)
    ));
    match Status::on_finish(&end, Some(Key::Up), &hinter) {
        Some(Status::Finish(same)) => {
            assert_eq!(same.move_count, 7);
            assert_eq!(same.hint_count, 2);
            assert_eq!(same.board, goal);
        }
        other => panic!("not the end of a game: {:?}", other),
    }
}

#[test]
fn a_hint_is_shown_only_when_asked_for() {
    let goal = HashState::from_array(&GOAL);
    let hinter = Hinter::new(goal);
    let game = game_at(&[1, 0, 3, 4, 2, 5, 6, 7, 8]);
    assert_eq!(game.shown_hint(&goal, &hinter), Some(Direction::Down));
    let mut quiet = game;
    quiet.show_hint = false;
    assert_eq!(quiet.shown_hint(&goal, &hinter), None);
    let at_goal = game_at(&GOAL);
    assert_eq!(at_goal.shown_hint(&goal, &hinter), None);
}

#[test]
fn a_game_starts_from_a_board_with_a_hint() {
    let goal = HashState::from_array(&GOAL);
    let hinter = Hinter::new(goal);
    for _ in 0..20 {
        let started = in_game_of(Some(Status::start(&hinter)));
        assert_eq!(started.move_count, 0);
        assert_eq!(started.hint_count, 0);
        assert_eq!(started.board, started.initial);
        assert!(!started.show_hint);
        assert_ne!(started.initial, goal);
        assert!(hinter.hint(&started.initial).is_some());
    }
}
