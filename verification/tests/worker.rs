use wspool::threadpool::{Probe, Step, Worker, BACKOFF_SECS};
use wspool::wsqueue1::WsQueue;

/// Plays one round of `worker` over `queues`, none of them shared: a queue
/// marked in `held` answers as one whose lock is held elsewhere.
fn play_round<T>(worker: &Worker, queues: &mut Vec<WsQueue<T>>, held: &[usize]) -> Step<T> {
    let mut step = worker.begin(false, queues.len());
    loop {
        step = match step {
            Step::Pop { queue } => {
                let probe = Probe::taken(queues[queue].pop());
                worker.advance(queues.len(), queue, probe)
            }
            Step::Steal { queue } => {
                let probe = if held.contains(&queue) {
                    Probe::Contended
                } else {
                    Probe::taken(queues[queue].steal())
                };
                worker.advance(queues.len(), queue, probe)
            }
            rest => return rest,
        };
    }
}

fn seeded(items: &[char]) -> WsQueue<char> {
    let mut q = WsQueue::new();
    for item in items {
        q.push(*item);
    }
    q
}

fn found<T>(step: Step<T>) -> Option<(T, usize)> {
    match step {
        Step::Run { task, from } => Some((task, from)),
        _ => None,
    }
}

#[test]
fn worker_keeps_its_index() {
    assert_eq!(Worker::new(0).id, 0);
    assert_eq!(Worker::new(7).id, 7);
    assert_eq!(Worker::new(7), Worker { id: 7 });
}

#[test]
fn backoff_is_one_second() {
    assert_eq!(BACKOFF_SECS, 1);
}

#[test]
fn round_begins_with_own_queue() {
    let step: Step<u8> = Worker::new(2).begin(false, 3);
    assert!(matches!(step, Step::Pop { queue: 2 }));
}

#[test]
fn stop_signal_ends_the_loop() {
    let step: Step<u8> = Worker::new(0).begin(true, 3);
    assert!(matches!(step, Step::Exit));
    let step: Step<u8> = Worker::new(5).begin(true, 3);
    assert!(matches!(step, Step::Exit));
}

#[test]
fn worker_without_queue_retries() {
    let step: Step<u8> = Worker::new(3).begin(false, 3);
    assert!(matches!(step, Step::Retry));
    let step: Step<u8> = Worker::new(0).begin(false, 0);
    assert!(matches!(step, Step::Retry));
}

#[test]
fn found_task_is_run() {
    let w = Worker::new(1);
    let step = w.advance(4, 1, Probe::Found('x'));
    assert!(matches!(step, Step::Run { task: 'x', from: 1 }));
    let step = w.advance(4, 3, Probe::Found('y'));
    assert!(matches!(step, Step::Run { task: 'y', from: 3 }));
}

#[test]
fn scan_visits_peers_in_ascending_order() {
    let w = Worker::new(2);
    let step: Step<u8> = w.advance(5, 2, Probe::Empty);
    assert!(matches!(step, Step::Steal { queue: 0 }));
    let step: Step<u8> = w.advance(5, 0, Probe::Empty);
    assert!(matches!(step, Step::Steal { queue: 1 }));
    let step: Step<u8> = w.advance(5, 1, Probe::Empty);
    assert!(matches!(step, Step::Steal { queue: 3 }));
    let step: Step<u8> = w.advance(5, 3, Probe::Contended);
    assert!(matches!(step, Step::Steal { queue: 4 }));
    let step: Step<u8> = w.advance(5, 4, Probe::Empty);
    assert!(matches!(step, Step::Backoff));
}

#[test]
fn scan_of_first_worker_starts_at_second_queue() {
    let w = Worker::new(0);
    let step: Step<u8> = w.advance(3, 0, Probe::Empty);
    assert!(matches!(step, Step::Steal { queue: 1 }));
    let step: Step<u8> = w.advance(3, 1, Probe::Empty);
    assert!(matches!(step, Step::Steal { queue: 2 }));
    let step: Step<u8> = w.advance(3, 2, Probe::Empty);
    assert!(matches!(step, Step::Backoff));
}

#[test]
fn scan_of_last_worker_ends_before_its_own_queue() {
    let w = Worker::new(2);
    let step: Step<u8> = w.advance(3, 1, Probe::Empty);
    assert!(matches!(step, Step::Backoff));
}

#[test]
fn lone_worker_backs_off_at_once() {
    let w = Worker::new(0);
    let step: Step<u8> = w.advance(1, 0, Probe::Empty);
    assert!(matches!(step, Step::Backoff));
}

#[test]
fn scan_ends_at_the_largest_index() {
    let w = Worker::new(0);
    let step: Step<u8> = w.advance(usize::MAX, usize::MAX - 1, Probe::Empty);
    assert!(matches!(step, Step::Backoff));
    let w = Worker::new(usize::MAX);
    let step: Step<u8> = w.advance(usize::MAX, usize::MAX, Probe::Empty);
    assert!(matches!(step, Step::Steal { queue: 0 }));
}

#[test]
fn probe_of_a_removal() {
    assert!(matches!(Probe::taken(Some(3)), Probe::Found(3)));
    assert!(matches!(Probe::<u8>::taken(None), Probe::Empty));
}

#[test]
fn owner_pops_newest_thief_steals_oldest() {
    let mut queues = vec![seeded(&['a', 'b', 'c']), seeded(&['a', 'b', 'c'])];
    let owner = Worker::new(0);
    let thief = Worker::new(1);

    // The thief first works off its own queue, newest first.
    assert_eq!(found(play_round(&thief, &mut queues, &[])), Some(('c', 1)));
    assert_eq!(found(play_round(&thief, &mut queues, &[])), Some(('b', 1)));
    assert_eq!(found(play_round(&thief, &mut queues, &[])), Some(('a', 1)));

    // The owner of the first queue pops its newest item.
    assert_eq!(found(play_round(&owner, &mut queues, &[])), Some(('c', 0)));

    // The thief, its own queue now empty, receives what is left of the
    // first queue in the order in which it was pushed.
    assert_eq!(found(play_round(&thief, &mut queues, &[])), Some(('a', 0)));
    assert_eq!(found(play_round(&thief, &mut queues, &[])), Some(('b', 0)));
    assert!(matches!(play_round(&thief, &mut queues, &[]), Step::Backoff));
    assert!(matches!(play_round(&owner, &mut queues, &[]), Step::Backoff));
}

#[test]
fn owner_exhausts_its_queue_by_pop() {
    let mut queues = vec![seeded(&['a', 'b', 'c']), seeded(&[])];
    let owner = Worker::new(0);
    assert_eq!(found(play_round(&owner, &mut queues, &[])), Some(('c', 0)));
    assert_eq!(found(play_round(&owner, &mut queues, &[])), Some(('b', 0)));
    assert_eq!(found(play_round(&owner, &mut queues, &[])), Some(('a', 0)));
    assert!(matches!(play_round(&owner, &mut queues, &[]), Step::Backoff));
}

#[test]
fn thief_takes_from_lowest_busy_peer() {
    let mut queues = vec![seeded(&[]), seeded(&[]), seeded(&['p', 'q']), seeded(&['r'])];
    let thief = Worker::new(1);
    assert_eq!(found(play_round(&thief, &mut queues, &[])), Some(('p', 2)));
    assert_eq!(found(play_round(&thief, &mut queues, &[])), Some(('q', 2)));
    assert_eq!(found(play_round(&thief, &mut queues, &[])), Some(('r', 3)));
    assert!(matches!(play_round(&thief, &mut queues, &[]), Step::Backoff));
}

#[test]
fn thief_passes_over_a_held_queue() {
    let mut queues = vec![seeded(&['a']), seeded(&[]), seeded(&['b'])];
    let thief = Worker::new(1);
    assert_eq!(found(play_round(&thief, &mut queues, &[0])), Some(('b', 2)));
    assert_eq!(queues[0].len(), 1);
    assert!(matches!(play_round(&thief, &mut queues, &[0]), Step::Backoff));
    assert_eq!(found(play_round(&thief, &mut queues, &[])), Some(('a', 0)));
}

#[test]
fn round_takes_at_most_one_task() {
    let mut queues = vec![seeded(&['a', 'b']), seeded(&['c', 'd'])];
    let w = Worker::new(0);
    assert_eq!(found(play_round(&w, &mut queues, &[])), Some(('b', 0)));
    assert_eq!(queues[0].len(), 1);
    assert_eq!(queues[1].len(), 2);
}
