use worker_pool::pool::PoolError;
use worker_pool::pool::submission_outcome;
use worker_pool::pool::Inbox;
use worker_pool::pool::ThreadPool;
use worker_pool::worker::next_action;
use worker_pool::worker::WorkerAction;

type Handler = fn(&mut Vec<usize>, usize);
type Pool = ThreadPool<Handler, usize>;

fn append(log: &mut Vec<usize>, index: usize) {
    log.push(index);
}

fn append_twice(log: &mut Vec<usize>, index: usize) {
    log.push(index);
    log.push(index);
}

/// Runs one worker's loop to its end on the calling thread, each job writing
/// to the worker's own log. Only meaningful once the pool has been closed.
fn run_worker(inbox: &Inbox<Handler, usize>) -> Vec<usize> {
    let mut log: Vec<usize> = Vec::new();
    loop {
        match next_action(inbox.receiver().recv().ok()) {
            WorkerAction::Run((handler, connection)) => handler(&mut log, connection),
            WorkerAction::Stop => break,
        }
    }
    log
}

#[test]
fn zero_size_is_rejected() {
    let r = Pool::new(0);
    assert!(matches!(r, Err(PoolError::InvalidSize)));
}

#[test]
fn construction_makes_one_channel_per_worker() {
    for n in 1..6usize {
        let (pool, receivers) = Pool::new(n).unwrap();
        assert_eq!(pool.size(), n);
        assert_eq!(receivers.len(), n);
        assert!(!pool.is_closed());
        for (w, inbox) in receivers.iter().enumerate() {
            assert_eq!(inbox.worker(), w);
        }
    }
}

#[test]
fn teardown_lets_every_worker_stop() {
    let (mut pool, receivers) = Pool::new(4).unwrap();
    pool.close();
    assert!(pool.is_closed());
    assert_eq!(pool.size(), 4);
    let mut stopped: usize = 0;
    for receiver in &receivers {
        assert!(run_worker(receiver).is_empty());
        stopped += 1;
    }
    assert_eq!(stopped, 4);
}

#[test]
fn two_workers_four_jobs() {
    let (mut pool, receivers) = Pool::new(2).unwrap();
    for k in 0..4usize {
        assert_eq!(pool.execute(append, k), Ok(()));
    }
    pool.close();
    assert_eq!(run_worker(&receivers[0]), vec![0, 2]);
    assert_eq!(run_worker(&receivers[1]), vec![1, 3]);
}

#[test]
fn job_k_goes_to_worker_k_mod_n() {
    let n: usize = 3;
    let m: usize = 11;
    let (mut pool, receivers) = Pool::new(n).unwrap();
    for k in 0..m {
        assert_eq!(pool.execute(append, k), Ok(()));
    }
    pool.close();
    for (w, receiver) in receivers.iter().enumerate() {
        let expected: Vec<usize> = (0..m).filter(|k| k % n == w).collect();
        assert_eq!(run_worker(receiver), expected);
    }
}

#[test]
fn routing_repeats_across_runs() {
    let mut runs: Vec<Vec<Vec<usize>>> = Vec::new();
    for _ in 0..3 {
        let (mut pool, receivers) = Pool::new(4).unwrap();
        for k in 0..9usize {
            assert_eq!(pool.execute(append, k), Ok(()));
        }
        pool.close();
        runs.push(receivers.iter().map(run_worker).collect());
    }
    assert_eq!(runs[0], runs[1]);
    assert_eq!(runs[1], runs[2]);
    assert_eq!(runs[0][0], vec![0, 4, 8]);
}

#[test]
fn one_worker_runs_jobs_one_after_another() {
    let (mut pool, receivers) = Pool::new(1).unwrap();
    assert_eq!(pool.execute(append_twice, 0), Ok(()));
    assert_eq!(pool.execute(append, 1), Ok(()));
    pool.close();
    assert_eq!(run_worker(&receivers[0]), vec![0, 0, 1]);
}

#[test]
fn size_three_torn_down_with_no_jobs() {
    let (mut pool, receivers) = Pool::new(3).unwrap();
    pool.close();
    for receiver in &receivers {
        assert_eq!(run_worker(receiver), Vec::<usize>::new());
    }
}

#[test]
fn execute_after_teardown_fails() {
    let (mut pool, receivers) = Pool::new(2).unwrap();
    assert_eq!(pool.execute(append, 0), Ok(()));
    pool.close();
    assert_eq!(pool.execute(append, 1), Err(PoolError::Submission));
    assert_eq!(pool.execute(append, 2), Err(PoolError::Submission));
    assert_eq!(run_worker(&receivers[0]), vec![0]);
    assert_eq!(run_worker(&receivers[1]), Vec::<usize>::new());
}

#[test]
fn execute_to_a_gone_worker_fails_and_moves_on() {
    let (mut pool, mut receivers) = Pool::new(2).unwrap();
    let second = receivers.pop().unwrap();
    drop(receivers);
    // worker 0 is gone: its job is refused, and the turn still passes to worker 1
    assert_eq!(pool.execute(append, 0), Err(PoolError::Submission));
    assert_eq!(pool.execute(append, 1), Ok(()));
    assert_eq!(pool.execute(append, 2), Err(PoolError::Submission));
    pool.close();
    assert_eq!(run_worker(&second), vec![1]);
}

#[test]
fn worker_runs_a_job_that_arrives() {
    assert!(matches!(next_action(Some(7u32)), WorkerAction::Run(7)));
}

#[test]
fn worker_stops_when_channel_closes() {
    assert!(matches!(next_action::<u32>(None), WorkerAction::Stop));
}

#[test]
fn delivered_submission_succeeds() {
    assert_eq!(submission_outcome(true), Ok(()));
}

#[test]
fn undelivered_submission_fails() {
    assert_eq!(submission_outcome(false), Err(PoolError::Submission));
}

#[test]
fn seven_jobs_on_three_workers() {
    let (mut pool, receivers) = Pool::new(3).unwrap();
    for k in 0..7usize {
        assert_eq!(pool.execute(append, 10 * k), Ok(()));
    }
    pool.close();
    assert_eq!(run_worker(&receivers[0]), vec![0, 30, 60]);
    assert_eq!(run_worker(&receivers[1]), vec![10, 40]);
    assert_eq!(run_worker(&receivers[2]), vec![20, 50]);
}

#[test]
fn channels_start_empty() {
    let (_pool, receivers) = Pool::new(2).unwrap();
    for inbox in &receivers {
        assert!(inbox.receiver().try_recv().is_err());
    }
}

#[test]
fn inbox_gives_up_its_receiver() {
    let (mut pool, mut receivers) = Pool::new(1).unwrap();
    let receiver = receivers.pop().unwrap().into_receiver();
    assert_eq!(pool.execute(append, 5), Ok(()));
    let (_, connection) = receiver.try_recv().unwrap();
    assert_eq!(connection, 5);
}
