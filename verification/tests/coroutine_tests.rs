use minikernel::coroutine::Executor;
use minikernel::coroutine::Poll;
use minikernel::coroutine::State;
use minikernel::coroutine::Task;

#[test]
fn waiter_alternates() {
    let mut t = Task { state: State::Running };
    assert_eq!(t.waiter(), Poll::Pending);
    assert_eq!(t.state, State::Halted);
    assert_eq!(t.waiter(), Poll::Ready);
    assert_eq!(t.state, State::Running);
}

#[test]
fn run_polls_round_robin_and_drains() {
    let mut exec = Executor::new();
    for _ in 1..=3 {
        exec.push(2);
    }
    let log = exec.run();
    // FIFO polling with re-queue at the tail: three full rounds.
    assert_eq!(log, vec![0, 1, 2, 0, 1, 2, 0, 1, 2]);
    assert_eq!(exec.tasks.len(), 0);
}

#[test]
fn run_drops_ready_tasks_immediately() {
    let mut exec = Executor::new();
    exec.push(0);
    exec.push(1);
    let log = exec.run();
    // Task 0 finishes on its first poll; task 1 needs two rounds.
    assert_eq!(log, vec![0, 1, 1]);
    assert_eq!(exec.tasks.len(), 0);
}
