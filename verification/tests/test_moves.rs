use eight_puzzle_core::direction::Direction;
use eight_puzzle_core::state::HashState;
use eight_puzzle_core::state::State;
use permutator::Permutation;

fn board_with_blank_at(cell: usize) -> HashState {
    let mut array: [u8; 9] = [0; 9];
    let mut label: u8 = 1;
    for i in 0..9 {
        if i != cell {
            array[i] = label;
            label += 1;
        }
    }
    HashState::from_array(&array)
}

fn moved(state: &HashState, direction: Direction) -> Option<HashState> {
    match direction {
        Direction::Up => state.up(),
        Direction::Down => state.down(),
        Direction::Left => state.left(),
        Direction::Right => state.right(),
    }
}

#[test]
fn neighbor_count_goes_by_the_place_of_the_blank() {
    for cell in [0usize, 2, 6, 8] {
        assert_eq!(board_with_blank_at(cell).neighbors().len(), 2);
    }
    for cell in [1usize, 3, 5, 7] {
        assert_eq!(board_with_blank_at(cell).neighbors().len(), 3);
    }
    assert_eq!(board_with_blank_at(4).neighbors().len(), 4);
}

#[test]
fn neighbors_come_in_a_fixed_order() {
    let centre = HashState::from_array(&[1, 2, 3, 4, 0, 5, 6, 7, 8]);
    let expected = vec![
        (Direction::Down, HashState::from_array(&[1, 0, 3, 4, 2, 5, 6, 7, 8])),
        (Direction::Up, HashState::from_array(&[1, 2, 3, 4, 7, 5, 6, 0, 8])),
        (Direction::Right, HashState::from_array(&[1, 2, 3, 0, 4, 5, 6, 7, 8])),
        (Direction::Left, HashState::from_array(&[1, 2, 3, 4, 5, 0, 6, 7, 8])),
    ];
    assert_eq!(centre.neighbors(), expected);
}

#[test]
fn each_neighbor_carries_the_move_back() {
    [0u8, 1, 2, 3, 4, 5, 6, 7, 8].permutation().for_each(|v| {
        let v: [u8; 9] = [v[0], v[1], v[2], v[3], v[4], v[5], v[6], v[7], v[8]];
        let state = HashState::from_array(&v);
        for (direction, neighbor) in state.neighbors() {
            assert_ne!(neighbor, state);
            assert_eq!(moved(&neighbor, direction), Some(state));
        }
    })
}

#[test]
fn directional_moves_from_a_corner() {
    let corner = HashState::from_array(&[3, 1, 0, 2, 4, 6, 5, 7, 8]);
    assert_eq!(corner.up(), None);
    assert_eq!(corner.right(), None);
    assert_eq!(
        corner.down().map(|s| s.to_array()),
        Some([3, 1, 6, 2, 4, 0, 5, 7, 8])
    );
    assert_eq!(
        corner.left().map(|s| s.to_array()),
        Some([3, 0, 1, 2, 4, 6, 5, 7, 8])
    );
}

#[test]
fn directional_moves_from_an_edge() {
    let edge = HashState::from_array(&[1, 4, 6, 0, 5, 2, 8, 3, 7]);
    assert_eq!(edge.left(), None);
    assert_eq!(
        edge.up().map(|s| s.to_array()),
        Some([0, 4, 6, 1, 5, 2, 8, 3, 7])
    );
    assert_eq!(
        edge.down().map(|s| s.to_array()),
        Some([1, 4, 6, 8, 5, 2, 0, 3, 7])
    );
    assert_eq!(
        edge.right().map(|s| s.to_array()),
        Some([1, 4, 6, 5, 0, 2, 8, 3, 7])
    );
}

#[test]
fn directional_moves_from_the_centre() {
    let centre = HashState::from_array(&[1, 2, 3, 4, 0, 5, 6, 7, 8]);
    assert_eq!(
        centre.up().map(|s| s.to_array()),
        Some([1, 0, 3, 4, 2, 5, 6, 7, 8])
    );
    assert_eq!(
        centre.down().map(|s| s.to_array()),
        Some([1, 2, 3, 4, 7, 5, 6, 0, 8])
    );
    assert_eq!(
        centre.left().map(|s| s.to_array()),
        Some([1, 2, 3, 0, 4, 5, 6, 7, 8])
    );
    assert_eq!(
        centre.right().map(|s| s.to_array()),
        Some([1, 2, 3, 4, 5, 0, 6, 7, 8])
    );
}

#[test]
fn room_goes_by_row_and_column() {
    for cell in 0usize..9 {
        let state = board_with_blank_at(cell);
        assert_eq!(state.up().is_some(), cell >= 3);
        assert_eq!(state.down().is_some(), cell < 6);
        assert_eq!(state.left().is_some(), cell % 3 != 0);
        assert_eq!(state.right().is_some(), cell % 3 != 2);
    }
}

#[test]
fn a_move_and_its_opposite_cancel() {
    let directions = [
        Direction::Up,
        Direction::Down,
        Direction::Left,
        Direction::Right,
    ];
    [0u8, 1, 2, 3, 4, 5, 6, 7, 8].permutation().for_each(|v| {
        let v: [u8; 9] = [v[0], v[1], v[2], v[3], v[4], v[5], v[6], v[7], v[8]];
        let state = HashState::from_array(&v);
        for direction in directions {
            if let Some(next) = moved(&state, direction) {
                assert_eq!(moved(&next, direction.opposite()), Some(state));
            }
        }
    })
}

#[test]
fn down_then_up_returns() {
    let state = HashState::from_array(&[3, 1, 0, 2, 4, 6, 5, 7, 8]);
    let below = state.down().unwrap();
    assert_eq!(below.up(), Some(state));
}

#[test]
fn move_blank_tries_only_the_cells_it_is_given() {
    let state = HashState::from_array(&[1, 2, 3, 4, 0, 5, 6, 7, 8]);
    assert_eq!(state.move_blank(&[0, 1, 2, 3], 3), None);
    assert_eq!(state.move_blank(&[], 1), None);
    assert_eq!(
        state.move_blank(&[3, 4], 3).map(|s| s.to_array()),
        Some([1, 2, 3, 4, 7, 5, 6, 0, 8])
    );
    assert_eq!(
        state.move_blank(&[4], -4).map(|s| s.to_array()),
        Some([0, 2, 3, 4, 1, 5, 6, 7, 8])
    );
}

#[test]
fn direction_names_and_opposites() {
    assert_eq!(Direction::Up.name(), "Up");
    assert_eq!(Direction::Down.name(), "Down");
    assert_eq!(Direction::Left.name(), "Left");
    assert_eq!(Direction::Right.name(), "Right");
    assert_eq!(Direction::Up.opposite(), Direction::Down);
    assert_eq!(Direction::Down.opposite(), Direction::Up);
    assert_eq!(Direction::Left.opposite(), Direction::Right);
    assert_eq!(Direction::Right.opposite(), Direction::Left);
}
