use threadkit::philosophers::{DiningTable, Philosopher, Step, MEALS, NUM_PHILOSOPHERS};
use threadkit::philosophers_monitor::DiningTable as MonitorTable;

#[test]
fn forks_are_taken_lower_number_first() {
    let t = DiningTable::new();
    assert_eq!(t.fork_order(0), (0, 1));
    assert_eq!(t.fork_order(1), (1, 2));
    assert_eq!(t.fork_order(3), (3, 4));
    assert_eq!(t.fork_order(4), (0, 4));
    for id in 0..NUM_PHILOSOPHERS {
        let (a, b) = t.fork_order(id);
        assert!(a < b);
    }
}

#[test]
fn neighbours_cannot_eat_together() {
    let mut t = MonitorTable::new();
    assert!(t.take_forks(0));
    assert!(!t.take_forks(1));
    assert!(!t.take_forks(4));
    assert!(t.take_forks(2));
    t.put_forks(0);
    assert!(t.take_forks(4));
}

#[test]
fn put_forks_lets_a_neighbour_eat() {
    let mut t = MonitorTable::new();
    assert!(t.take_forks(3));
    assert!(!t.take_forks(2));
    t.put_forks(3);
    assert!(t.take_forks(2));
}

#[test]
fn two_philosophers_at_most_eat_at_once() {
    let mut t = MonitorTable::new();
    let mut eating = 0;
    for id in 0..NUM_PHILOSOPHERS {
        if t.take_forks(id) {
            eating += 1;
        }
    }
    assert_eq!(eating, 2);
}

#[test]
fn first_and_last_philosopher_share_their_first_fork() {
    let t = DiningTable::new();
    assert_eq!(t.fork_order(0).0, t.fork_order(NUM_PHILOSOPHERS - 1).0);
}

#[test]
fn greedy_first_forks_leave_someone_free_to_eat() {
    // Everyone grabs its first fork if it can; someone then finds its second free.
    let t = DiningTable::new();
    let mut owner: [Option<usize>; NUM_PHILOSOPHERS] = [None; NUM_PHILOSOPHERS];
    let mut holding = [false; NUM_PHILOSOPHERS];
    for id in 0..NUM_PHILOSOPHERS {
        let (first, _) = t.fork_order(id);
        if owner[first].is_none() {
            owner[first] = Some(id);
            holding[id] = true;
        }
    }
    assert!(!holding[NUM_PHILOSOPHERS - 1]);
    let can_eat: Vec<usize> = (0..NUM_PHILOSOPHERS)
        .filter(|&id| holding[id] && owner[t.fork_order(id).1].is_none())
        .collect();
    assert_eq!(can_eat, vec![3]);
}

#[test]
fn monitor_table_always_has_an_eater_or_free_pair() {
    let mut t = MonitorTable::new();
    assert!(t.take_forks(1));
    assert!(t.take_forks(3));
    // Philosophers 1 and 3 eat; 0, 2 and 4 find a fork taken.
    assert!(!t.take_forks(0));
    assert!(!t.take_forks(2));
    assert!(!t.take_forks(4));
    t.put_forks(1);
    assert!(t.take_forks(0));
}

#[test]
fn philosopher_eats_ten_meals_holding_both_forks() {
    let t = DiningTable::new();
    for id in 0..NUM_PHILOSOPHERS {
        let (first, second) = t.fork_order(id);
        let mut p = Philosopher::new(&t, id);
        let mut steps = Vec::new();
        loop {
            let s = p.next_step();
            if s == Step::Done {
                break;
            }
            steps.push(s);
        }
        assert_eq!(steps.len(), 50);
        let meals = steps.iter().filter(|s| **s == Step::Eat).count();
        assert_eq!(meals, MEALS);
        for round in steps.chunks(5) {
            assert_eq!(
                round,
                &[Step::Think, Step::TakeFork(first), Step::TakeFork(second), Step::Eat, Step::PutDown]
            );
        }
        assert_eq!(p.next_step(), Step::Done);
        assert_eq!(p.next_step(), Step::Done);
    }
}

#[test]
fn last_philosopher_takes_fork_zero_first() {
    let t = DiningTable::new();
    let mut p = Philosopher::new(&t, 4);
    assert_eq!(p.next_step(), Step::Think);
    assert_eq!(p.next_step(), Step::TakeFork(0));
    assert_eq!(p.next_step(), Step::TakeFork(4));
    assert_eq!(p.next_step(), Step::Eat);
    assert_eq!(p.next_step(), Step::PutDown);
    assert_eq!(p.next_step(), Step::Think);
}
