use hanoi::solver::{replay, solve, solve_puzzle, total_moves, Move};
use hanoi::state::Tower;

#[test]
fn new_stacks_all_disks_on_a() {
    let t = Tower::new(3);
    assert_eq!(t.peg(0).as_slice(), &[3, 2, 1]);
    assert!(t.peg(1).is_empty());
    assert!(t.peg(2).is_empty());
    assert_eq!(t.disk_count(), 3);
    assert_eq!(t.last_moved(), None);
    assert_eq!(t.destination_peg(), 2);
}

#[test]
fn zero_disks_is_a_valid_empty_puzzle() {
    let t = Tower::new(0);
    assert!(t.peg(0).is_empty());
    assert!(t.peg(1).is_empty());
    assert!(t.peg(2).is_empty());
    assert_eq!(t.disk_count(), 0);
}

#[test]
fn move_disk_pops_and_pushes() {
    let mut t = Tower::new(2);
    t.move_disk(0, 1);
    assert_eq!(t.peg(0).as_slice(), &[2]);
    assert_eq!(t.peg(1).as_slice(), &[1]);
    assert!(t.peg(2).is_empty());
    assert_eq!(t.last_moved(), Some(1));
}

#[test]
fn one_disk_solution() {
    let moves = solve(1, 0, 2, 1);
    assert_eq!(moves, vec![Move { disk: 1, from: 0, to: 2 }]);
}

#[test]
fn two_disk_solution() {
    let moves = solve(2, 0, 2, 1);
    assert_eq!(
        moves,
        vec![
            Move { disk: 1, from: 0, to: 1 },
            Move { disk: 2, from: 0, to: 2 },
            Move { disk: 1, from: 1, to: 2 },
        ]
    );
}

#[test]
fn zero_disks_need_no_moves() {
    assert!(solve(0, 0, 2, 1).is_empty());
}

#[test]
fn three_disk_solution_reaches_the_goal() {
    let moves = solve(3, 0, 2, 1);
    assert_eq!(moves.len(), 7);
    let mut t = Tower::new(3);
    replay(&mut t, &moves);
    assert!(t.peg(0).is_empty());
    assert!(t.peg(1).is_empty());
    assert_eq!(t.peg(2).as_slice(), &[3, 2, 1]);
}

#[test]
fn solving_is_deterministic() {
    for n in 0..=8 {
        let first = solve(n, 0, 2, 1);
        let second = solve(n, 0, 2, 1);
        assert_eq!(first, second);
    }
}

#[test]
fn move_count_is_two_to_the_n_minus_one() {
    for n in 1..=10u32 {
        let moves = solve(n, 0, 2, 1);
        assert_eq!(moves.len() as u64, (1u64 << n) - 1);
        assert_eq!(moves.len() as u64, total_moves(n));
    }
}

#[test]
fn twenty_disks_take_a_million_moves() {
    let moves = solve(20, 0, 2, 1);
    assert_eq!(moves.len(), 1_048_575);
    assert_eq!(total_moves(20), 1_048_575);
}

#[test]
fn total_moves_formula() {
    assert_eq!(total_moves(0), 0);
    assert_eq!(total_moves(1), 1);
    assert_eq!(total_moves(3), 7);
    assert_eq!(total_moves(63), u64::MAX / 2);
}

fn pegs_strictly_decrease(t: &Tower) -> bool {
    (0..3).all(|i| t.peg(i).windows(2).all(|w| w[0] > w[1]))
}

fn move_is_legal(t: &Tower, m: &Move) -> bool {
    m.from < 3
        && m.to < 3
        && m.from != m.to
        && t.peg(m.from).last() == Some(&m.disk)
        && match t.peg(m.to).last() {
            None => true,
            Some(&top) => top > m.disk,
        }
}

#[test]
fn every_move_is_legal_and_keeps_pegs_ordered() {
    for n in 1..=8u32 {
        let mut t = Tower::new(n);
        assert!(pegs_strictly_decrease(&t));
        for m in solve(n, 0, 2, 1).iter() {
            assert!(move_is_legal(&t, m));
            t.move_disk(m.from, m.to);
            assert!(pegs_strictly_decrease(&t));
        }
    }
}

#[test]
fn full_solve_moves_every_disk_to_peg_c() {
    for n in 1..=8u32 {
        let mut t = Tower::new(n);
        let moves = solve(n, 0, 2, 1);
        replay(&mut t, &moves);
        assert!(t.peg(0).is_empty());
        assert!(t.peg(1).is_empty());
        let expected: Vec<u32> = (1..=n).rev().collect();
        assert_eq!(t.peg(2).as_slice(), expected.as_slice());
    }
}

#[test]
fn solve_puzzle_finishes_on_peg_c() {
    let t = solve_puzzle(4);
    assert!(t.peg(0).is_empty());
    assert!(t.peg(1).is_empty());
    assert_eq!(t.peg(2).as_slice(), &[4, 3, 2, 1]);
    assert_eq!(t.disk_count(), 4);
}

#[test]
fn replay_records_the_last_move() {
    let mut t = Tower::new(2);
    let moves = solve(2, 0, 2, 1);
    replay(&mut t, &moves);
    assert_eq!(t.last_moved(), Some(1));
}
