use aoc::solutions::solution_22::{part2 as rescue, Data as Cave, Equipment, QEntry, Queue};
use aoc::util::mat2::Pos;

fn state(d: usize) -> QEntry {
    QEntry { d, p: Pos::new(d % 3, d % 5), e: Equipment::Torch }
}

#[test]
fn queue_hands_out_the_fewest_minutes_first() {
    let mut q = Queue::new();
    for d in [9usize, 4, 7, 1, 8, 1, 3, 12, 0, 5] {
        q.push(state(d));
    }
    assert_eq!(q.len(), 10);
    let mut out = Vec::new();
    while let Some(entry) = q.pop() {
        assert_eq!(entry, state(entry.d));
        out.push(entry.d);
    }
    assert_eq!(out, vec![0, 1, 1, 3, 4, 5, 7, 8, 9, 12]);
    assert_eq!(q.len(), 0);
    assert_eq!(q.pop(), None);
}

#[test]
fn rescue_takes_forty_five_minutes() {
    let cave = Cave { depth: 510, target: Pos::new(10, 10) };
    assert_eq!(rescue(&cave), Ok(45));
}

#[test]
fn rescue_at_the_mouth_takes_no_time() {
    let cave = Cave { depth: 510, target: Pos::new(0, 0) };
    assert_eq!(rescue(&cave), Ok(0));
}

#[test]
fn rescue_one_step_away() {
    let cave = Cave { depth: 510, target: Pos::new(1, 0) };
    assert_eq!(rescue(&cave), Ok(1));
}
