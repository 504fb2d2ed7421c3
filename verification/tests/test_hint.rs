use eight_puzzle_core::direction::Direction;
use eight_puzzle_core::hint::Hinter;
use eight_puzzle_core::state::HashState;
use eight_puzzle_core::state::State;
use eight_puzzle_core::state::NUMBER_OF_STATES;
use permutator::Permutation;
use std::collections::VecDeque;

const GOAL: [u8; 9] = [1, 2, 3, 4, 0, 5, 6, 7, 8];

fn follow(state: &HashState, direction: Direction) -> Option<HashState> {
    match direction {
        Direction::Up => state.up(),
        Direction::Down => state.down(),
        Direction::Left => state.left(),
        Direction::Right => state.right(),
    }
}

fn all_states() -> Vec<HashState> {
    let mut states: Vec<HashState> = Vec::new();
    [0u8, 1, 2, 3, 4, 5, 6, 7, 8].permutation().for_each(|v| {
        let v: [u8; 9] = [v[0], v[1], v[2], v[3], v[4], v[5], v[6], v[7], v[8]];
        states.push(HashState::from_array(&v));
    });
    states
}

fn distances_from(goal: &HashState) -> Vec<Option<u32>> {
    let mut distance: Vec<Option<u32>> = vec![None; NUMBER_OF_STATES as usize];
    let mut queue: VecDeque<HashState> = VecDeque::new();
    distance[goal.hash() as usize] = Some(0);
    queue.push_back(*goal);
    while let Some(state) = queue.pop_front() {
        let here: u32 = distance[state.hash() as usize].unwrap();
        for (_, neighbor) in state.neighbors() {
            let slot = &mut distance[neighbor.hash() as usize];
            if slot.is_none() {
                *slot = Some(here + 1);
                queue.push_back(neighbor);
            }
        }
    }
    distance
}

fn parity(state: &HashState) -> usize {
    let array = state.to_array();
    let mut inversions: usize = 0;
    for j in 0..9 {
        for i in 0..j {
            if array[i] != 0 && array[j] != 0 && array[i] > array[j] {
                inversions += 1;
            }
        }
    }
    inversions % 2
}

#[test]
fn hints_are_for_the_boards_of_the_parity_of_the_goal() {
    let goal = HashState::from_array(&[8, 7, 6, 5, 4, 3, 2, 1, 0]);
    let hinter = Hinter::new(goal);
    for state in all_states() {
        let met = state == goal || hinter.hint(&state).is_some();
        assert_eq!(met, parity(&state) == parity(&goal));
    }
}

#[test]
fn the_goal_has_no_hint() {
    let goal = HashState::from_array(&GOAL);
    let hinter = Hinter::new(goal);
    assert_eq!(hinter.hint(&goal), None);
}

#[test]
fn boards_one_move_from_the_goal() {
    let goal = HashState::from_array(&GOAL);
    let hinter = Hinter::new(goal);
    assert_eq!(
        hinter.hint(&HashState::from_array(&[1, 0, 3, 4, 2, 5, 6, 7, 8])),
        Some(&Direction::Down)
    );
    assert_eq!(
        hinter.hint(&HashState::from_array(&[1, 2, 3, 4, 7, 5, 6, 0, 8])),
        Some(&Direction::Up)
    );
    assert_eq!(
        hinter.hint(&HashState::from_array(&[1, 2, 3, 0, 4, 5, 6, 7, 8])),
        Some(&Direction::Right)
    );
    assert_eq!(
        hinter.hint(&HashState::from_array(&[1, 2, 3, 4, 5, 0, 6, 7, 8])),
        Some(&Direction::Left)
    );
}

#[test]
fn a_board_two_moves_from_the_goal() {
    let goal = HashState::from_array(&GOAL);
    let hinter = Hinter::new(goal);
    let start = HashState::from_array(&[0, 1, 3, 4, 2, 5, 6, 7, 8]);
    assert_eq!(hinter.hint(&start), Some(&Direction::Right));
    let next = start.right().unwrap();
    assert_eq!(hinter.hint(&next), Some(&Direction::Down));
    assert_eq!(next.down(), Some(goal));
}

#[test]
fn a_board_with_two_labels_exchanged_has_no_hint() {
    let goal = HashState::from_array(&GOAL);
    let hinter = Hinter::new(goal);
    assert_eq!(
        hinter.hint(&HashState::from_array(&[2, 1, 3, 4, 0, 5, 6, 7, 8])),
        None
    );
}

#[test]
fn half_of_the_boards_lead_to_the_goal() {
    let goal = HashState::from_array(&GOAL);
    let hinter = Hinter::new(goal);
    let with_hint = all_states()
        .iter()
        .filter(|s| hinter.hint(s).is_some())
        .count();
    assert_eq!(with_hint + 1, 181440);
    assert_eq!(2 * (with_hint + 1), NUMBER_OF_STATES as usize);
}

#[test]
fn half_of_the_boards_lead_to_another_goal() {
    let goal = HashState::from_array(&[1, 2, 3, 4, 5, 6, 7, 8, 0]);
    let hinter = Hinter::new(goal);
    let with_hint = all_states()
        .iter()
        .filter(|s| hinter.hint(s).is_some())
        .count();
    assert_eq!(with_hint + 1, 181440);
}

#[test]
fn hints_are_for_the_boards_that_lead_to_the_goal() {
    let goal = HashState::from_array(&GOAL);
    let hinter = Hinter::new(goal);
    let distance = distances_from(&goal);
    for state in all_states() {
        let reachable = distance[state.hash() as usize].is_some();
        assert_eq!(hinter.hint(&state).is_some(), reachable && state != goal);
    }
}

#[test]
fn every_hint_leads_one_move_nearer() {
    let goal = HashState::from_array(&GOAL);
    let hinter = Hinter::new(goal);
    let distance = distances_from(&goal);
    for state in all_states() {
        if let Some(direction) = hinter.hint(&state) {
            let next = follow(&state, *direction).unwrap();
            let before: u32 = distance[state.hash() as usize].unwrap();
            let after: u32 = distance[next.hash() as usize].unwrap();
            assert_eq!(after + 1, before);
        }
    }
}

#[test]
fn following_hints_arrives_after_the_distance() {
    let goal = HashState::from_array(&GOAL);
    let hinter = Hinter::new(goal);
    let distance = distances_from(&goal);
    for start in all_states() {
        if hinter.hint(&start).is_none() {
            continue;
        }
        let mut state = start;
        let mut moves: u32 = 0;
        while let Some(direction) = hinter.hint(&state) {
            state = follow(&state, *direction).unwrap();
            moves += 1;
            assert!(moves <= 31);
        }
        assert_eq!(state, goal);
        assert_eq!(Some(moves), distance[start.hash() as usize]);
    }
}

#[test]
fn two_tables_for_one_goal_agree() {
    let goal = HashState::from_array(&GOAL);
    let first = Hinter::new(goal);
    let second = Hinter::new(goal);
    for state in all_states() {
        assert_eq!(first.hint(&state), second.hint(&state));
    }
}

#[test]
fn a_random_state_has_a_hint() {
    let goal = HashState::from_array(&GOAL);
    let hinter = Hinter::new(goal);
    let mut distinct: Vec<HashState> = Vec::new();
    for _ in 0..100 {
        let state = *hinter.random_state().unwrap();
        assert_ne!(state, goal);
        assert!(hinter.hint(&state).is_some());
        if !distinct.contains(&state) {
            distinct.push(state);
        }
    }
    assert!(distinct.len() > 1);
}
