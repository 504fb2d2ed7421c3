use eight_puzzle_core::state::is_permutation;
use eight_puzzle_core::state::HashState;
use eight_puzzle_core::state::State;
use eight_puzzle_core::state::NUMBER_OF_STATES;
use permutator::Permutation;

#[test]
fn number_of_states_is_nine_factorial() {
    assert_eq!(NUMBER_OF_STATES, 9 * 8 * 7 * 6 * 5 * 4 * 3 * 2);
}

#[test]
fn ranks_follow_the_order_of_the_arrangements() {
    assert_eq!(HashState::from_array(&[0, 1, 2, 3, 4, 5, 6, 7, 8]).hash(), 0);
    assert_eq!(HashState::from_array(&[0, 1, 2, 3, 4, 5, 6, 8, 7]).hash(), 1);
    assert_eq!(HashState::from_array(&[0, 1, 2, 3, 4, 5, 7, 6, 8]).hash(), 2);
    assert_eq!(HashState::from_array(&[1, 0, 2, 3, 4, 5, 6, 7, 8]).hash(), 40320);
    assert_eq!(HashState::from_array(&[3, 1, 0, 2, 4, 6, 5, 7, 8]).hash(), 126006);
    assert_eq!(HashState::from_array(&[8, 7, 6, 5, 4, 3, 2, 1, 0]).hash(), 362879);
}

#[test]
fn every_rank_belongs_to_one_arrangement() {
    let mut met: Vec<bool> = vec![false; NUMBER_OF_STATES as usize];
    let mut count: u32 = 0;
    [0u8, 1, 2, 3, 4, 5, 6, 7, 8].permutation().for_each(|v| {
        let v: [u8; 9] = [v[0], v[1], v[2], v[3], v[4], v[5], v[6], v[7], v[8]];
        let rank = HashState::from_array(&v).hash() as usize;
        assert!(!met[rank]);
        met[rank] = true;
        count += 1;
    });
    assert_eq!(count, NUMBER_OF_STATES);
    assert!(met.iter().all(|m| *m));
}

#[test]
fn equal_boards_are_equal_states() {
    let a = HashState::from_array(&[1, 2, 3, 4, 0, 5, 6, 7, 8]);
    let b = HashState::from_array(&[1, 2, 3, 4, 0, 5, 6, 7, 8]);
    let c = HashState::from_array(&[1, 2, 3, 0, 4, 5, 6, 7, 8]);
    assert_eq!(a, b);
    assert_ne!(a, c);
    assert_eq!(a.hash(), b.hash());
    assert_ne!(a.hash(), c.hash());
}

#[test]
fn only_full_arrangements_are_boards() {
    assert!(is_permutation(&[0, 1, 2, 3, 4, 5, 6, 7, 8]));
    assert!(is_permutation(&[1, 2, 3, 4, 0, 5, 6, 7, 8]));
    assert!(is_permutation(&[8, 7, 6, 5, 4, 3, 2, 1, 0]));
    assert!(!is_permutation(&[0, 1, 2, 3, 4, 5, 6, 7, 7]));
    assert!(!is_permutation(&[0, 0, 2, 3, 4, 5, 6, 7, 8]));
    assert!(!is_permutation(&[1, 2, 3, 4, 5, 6, 7, 8, 9]));
    assert!(!is_permutation(&[0, 1, 2, 3, 4, 5, 6, 7, 255]));
}
