use minikernel::kernel::DownResult;
use minikernel::kernel::Kernel;
use minikernel::kernel::LockResult;
use minikernel::kernel::SignalResult;
use minikernel::kernel::ThreadState;
use minikernel::kernel::UnlockResult;
use minikernel::kernel::UpResult;
use minikernel::kernel::WaitResult;
use minikernel::kernel::AGAIN;
use minikernel::kernel::DEADLOCK_ERR;
use minikernel::kernel::INVALID;

/// Yields and dispatches until the given global thread id is running.
fn switch_to(k: &mut Kernel, gtid: usize) {
    for _ in 0..256 {
        if k.current == Some(gtid) {
            return;
        }
        if k.current.is_some() {
            k.yield_();
        }
        k.schedule().unwrap();
    }
    panic!("thread {} never became current", gtid);
}

fn boot() -> Kernel {
    let mut k = Kernel::new(8);
    assert_eq!(k.schedule(), Some(0));
    k
}

#[test]
fn sem_rendezvous_round_trip() {
    // Process A: semaphore_create(0) -> id 0; T1 blocks in down; T2's up
    // unblocks T1, whose pending down completes with code 0.
    let mut k = boot();
    assert_eq!(k.semaphore_create(0), 0);
    assert_eq!(k.thread_create(0, 0), 1);
    assert_eq!(k.thread_create(0, 0), 2);
    switch_to(&mut k, 1);
    let d = k.semaphore_down(0);
    assert_eq!(d, DownResult::Waiting);
    assert_eq!(d.code(), 0);
    assert_eq!(k.threads[1].state, ThreadState::Blocked);
    switch_to(&mut k, 2);
    assert_eq!(k.semaphore_up(0), UpResult::Woke(1));
    assert_eq!(k.threads[1].state, ThreadState::Ready);
    assert_eq!(k.procs[0].semaphores[0].count, 0);
    assert_eq!(k.procs[0].semaphores[0].waiters.len(), 0);
}

#[test]
fn deadlock_detected_on_circular_wait() {
    // Three threads, three unit resources: each holds one and requests the
    // next; the closing request is refused with -0xdead.
    let mut k = boot();
    assert_eq!(k.enable_deadlock_detect(true), 0);
    for _ in 0..3 {
        k.semaphore_create(1);
    }
    assert_eq!(k.thread_create(0, 0), 1);
    assert_eq!(k.thread_create(0, 0), 2);
    assert_eq!(k.thread_create(0, 0), 3);
    switch_to(&mut k, 1);
    assert_eq!(k.semaphore_down(0), DownResult::Acquired);
    switch_to(&mut k, 2);
    assert_eq!(k.semaphore_down(1), DownResult::Acquired);
    switch_to(&mut k, 3);
    assert_eq!(k.semaphore_down(2), DownResult::Acquired);
    switch_to(&mut k, 1);
    assert_eq!(k.semaphore_down(1), DownResult::Waiting);
    switch_to(&mut k, 2);
    assert_eq!(k.semaphore_down(2), DownResult::Waiting);
    switch_to(&mut k, 3);
    let d = k.semaphore_down(0);
    assert_eq!(d, DownResult::Refused);
    assert_eq!(d.code(), DEADLOCK_ERR);
    // The refused request left the semaphore untouched.
    assert_eq!(k.procs[0].semaphores[0].count, 0);
    assert_eq!(k.threads[3].state, ThreadState::Running);
}

#[test]
fn no_false_positive_when_resources_suffice() {
    // Two resource classes of two units; every blocking request admits a
    // finishing order, so none is refused, and releases wake FIFO heads.
    let mut k = boot();
    assert_eq!(k.enable_deadlock_detect(true), 0);
    assert_eq!(k.semaphore_create(2), 0);
    assert_eq!(k.semaphore_create(2), 1);
    for i in 1..=4 {
        assert_eq!(k.thread_create(0, 0), i as isize);
    }
    switch_to(&mut k, 1);
    assert_eq!(k.semaphore_down(1), DownResult::Acquired);
    switch_to(&mut k, 2);
    assert_eq!(k.semaphore_down(0), DownResult::Acquired);
    switch_to(&mut k, 3);
    assert_eq!(k.semaphore_down(0), DownResult::Acquired);
    switch_to(&mut k, 4);
    assert_eq!(k.semaphore_down(1), DownResult::Acquired);
    switch_to(&mut k, 1);
    assert_eq!(k.semaphore_down(0), DownResult::Waiting);
    switch_to(&mut k, 3);
    assert_eq!(k.semaphore_down(1), DownResult::Waiting);
    // Releases complete the blocked downs in FIFO order.
    switch_to(&mut k, 2);
    assert_eq!(k.semaphore_up(0), UpResult::Woke(1));
    switch_to(&mut k, 4);
    assert_eq!(k.semaphore_up(1), UpResult::Woke(3));
    assert_eq!(k.threads[1].state, ThreadState::Ready);
    assert_eq!(k.threads[3].state, ThreadState::Ready);
}

#[test]
fn mutex_self_relock_refused() {
    let mut k = boot();
    assert_eq!(k.enable_deadlock_detect(true), 0);
    assert_eq!(k.mutex_blocking_create(), 0);
    let l = k.mutex_lock(0);
    assert_eq!(l, LockResult::Acquired);
    assert_eq!(l.code(), 0);
    let l2 = k.mutex_lock(0);
    assert_eq!(l2, LockResult::Refused);
    assert_eq!(l2.code(), DEADLOCK_ERR);
    assert_eq!(k.mutex_unlock(0), UnlockResult::Released);
}

#[test]
fn blocking_mutex_fifo_handover() {
    let mut k = boot();
    assert_eq!(k.mutex_blocking_create(), 0);
    assert_eq!(k.thread_create(0, 0), 1);
    assert_eq!(k.thread_create(0, 0), 2);
    switch_to(&mut k, 1);
    assert_eq!(k.mutex_lock(0), LockResult::Acquired);
    switch_to(&mut k, 2);
    assert_eq!(k.mutex_lock(0), LockResult::Waiting);
    switch_to(&mut k, 1);
    assert_eq!(k.mutex_unlock(0), UnlockResult::Handed(2));
    assert_eq!(k.procs[0].mutexes[0].owner, Some(2));
    assert_eq!(k.threads[2].state, ThreadState::Ready);
}

#[test]
fn spin_mutex_retries_and_guards_counter() {
    // Two threads, two increments each, under the spin mutex: the final
    // count is exactly 4, and a held spin mutex answers a retry, never a
    // block.
    let mut k = boot();
    assert_eq!(k.mutex_create(), 0);
    assert_eq!(k.thread_create(0, 0), 1);
    assert_eq!(k.thread_create(0, 0), 2);
    let mut counter: usize = 0;
    for _ in 0..2 {
        switch_to(&mut k, 1);
        assert_eq!(k.mutex_lock(0), LockResult::Acquired);
        switch_to(&mut k, 2);
        let r = k.mutex_lock(0);
        assert_eq!(r, LockResult::SpinRetry);
        assert_eq!(r.code(), AGAIN);
        assert_eq!(k.threads[2].state, ThreadState::Running);
        switch_to(&mut k, 1);
        let c = counter;
        counter = c + 1;
        assert_eq!(k.mutex_unlock(0), UnlockResult::Released);
        switch_to(&mut k, 2);
        assert_eq!(k.mutex_lock(0), LockResult::Acquired);
        let c = counter;
        counter = c + 1;
        assert_eq!(k.mutex_unlock(0), UnlockResult::Released);
    }
    assert_eq!(counter, 4);
}

#[test]
fn condvar_wait_and_signal() {
    // The condvar test's shape: the waiter releases the mutex and parks;
    // the signaler, holding the mutex, wakes it; the waiter re-acquires
    // the mutex on handover before it runs on.
    let mut k = boot();
    assert_eq!(k.condvar_create(), 0);
    assert_eq!(k.mutex_blocking_create(), 0);
    assert_eq!(k.thread_create(0, 0), 1);
    assert_eq!(k.thread_create(0, 0), 2);
    switch_to(&mut k, 2);
    assert_eq!(k.mutex_lock(0), LockResult::Acquired);
    assert_eq!(k.condvar_wait(0, 0), WaitResult::Waiting);
    assert_eq!(k.procs[0].mutexes[0].owner, None);
    assert_eq!(k.threads[2].state, ThreadState::Blocked);
    switch_to(&mut k, 1);
    assert_eq!(k.mutex_lock(0), LockResult::Acquired);
    assert_eq!(k.condvar_signal(0), SignalResult::Woke(2));
    // Woken but the mutex is held: parked on the mutex queue.
    assert_eq!(k.threads[2].state, ThreadState::Blocked);
    assert_eq!(k.mutex_unlock(0), UnlockResult::Handed(2));
    assert_eq!(k.procs[0].mutexes[0].owner, Some(2));
    assert_eq!(k.threads[2].state, ThreadState::Ready);
    // A signal with nobody parked does nothing.
    assert_eq!(k.condvar_signal(0), SignalResult::Empty);
}

#[test]
fn threads_exit_codes_reaped() {
    let mut k = boot();
    assert_eq!(k.thread_create(0, 0), 1);
    assert_eq!(k.thread_create(0, 0), 2);
    assert_eq!(k.thread_create(0, 0), 3);
    for tid in 1..=3usize {
        assert_eq!(k.waittid(tid), AGAIN);
        switch_to(&mut k, tid);
        k.exit(tid as i32);
        k.schedule();
        switch_to(&mut k, 0);
        assert_eq!(k.waittid(tid), tid as isize);
        assert_eq!(k.waittid(tid), INVALID);
    }
    assert_eq!(k.waittid(0), INVALID);
    assert_eq!(k.waittid(9), INVALID);
}

#[test]
fn spawn_priority_and_waitpid() {
    let mut k = boot();
    assert_eq!(k.set_priority(1), INVALID);
    assert_eq!(k.set_priority(4), 4);
    let pid = k.spawn(0);
    assert_eq!(pid, 1);
    assert_eq!(k.spawn(99), INVALID);
    let mut status: i32 = 7;
    assert_eq!(k.waitpid(1, &mut status), AGAIN);
    assert_eq!(k.waitpid(5, &mut status), INVALID);
    let child_main = 1usize;
    switch_to(&mut k, child_main);
    k.exit(42);
    k.schedule();
    switch_to(&mut k, 0);
    assert_eq!(k.waitpid(1, &mut status), 1);
    assert_eq!(status, 42);
    assert_eq!(k.waitpid(1, &mut status), INVALID);
}

#[test]
fn waitpid_wildcard() {
    let mut k = boot();
    let mut status: i32 = 0;
    assert_eq!(k.waitpid(-1, &mut status), INVALID);
    let a = k.spawn(0);
    let b = k.spawn(0);
    assert_eq!((a, b), (1, 2));
    assert_eq!(k.waitpid(-1, &mut status), AGAIN);
    switch_to(&mut k, 2);
    k.exit(5);
    k.schedule();
    switch_to(&mut k, 0);
    assert_eq!(k.waitpid(-1, &mut status), 2);
    assert_eq!(status, 5);
    assert_eq!(k.waitpid(-1, &mut status), AGAIN);
}

#[test]
fn fork_and_mailbox_ipc() {
    // The IPC test's shape: a handshake down, an ack back, and a
    // truncated oversized payload.
    let mut k = boot();
    let child = k.fork();
    assert_eq!(child, 1);
    let child_main = 1usize;
    let handshake = [0u8, 1, 2, 3, 4, 5, 6, 7, 8];
    assert_eq!(k.mail_write(1, &handshake), 9);
    switch_to(&mut k, child_main);
    let mut buf = vec![0u8; 512];
    assert_eq!(k.mail_read(&mut buf), 9);
    assert_eq!(&buf[..9], &handshake);
    assert_eq!(k.mail_write(0, &[0, b'O', b'K']), 3);
    let big = vec![0x5au8; 288];
    assert_eq!(k.mail_write(0, &big), 256);
    switch_to(&mut k, 0);
    let mut ack = vec![0u8; 3];
    assert_eq!(k.mail_read(&mut ack), 3);
    assert_eq!(ack, vec![0, b'O', b'K']);
    let mut payload = vec![0u8; 512];
    assert_eq!(k.mail_read(&mut payload), 256);
    assert!(payload[..256].iter().all(|&x| x == 0x5a));
    // An unknown destination is rejected.
    assert_eq!(k.mail_write(999, &[0x12, 0x34]), INVALID);
}

#[test]
fn mailbox_self_capacity() {
    // The self-test's shape: a full queue rejects any write, even a
    // zero-length one; a zero-length read reports 0 on a non-empty queue;
    // one read frees exactly one slot.
    let mut k = boot();
    assert_eq!(k.getpid(), 0);
    let me = k.getpid();
    let mut empty: Vec<u8> = vec![];
    assert_eq!(k.mail_read(&mut empty), INVALID);
    for i in 0..16u8 {
        assert_eq!(k.mail_write(me, &[i]), 1);
    }
    assert_eq!(k.mail_write(me, &[0xff]), INVALID);
    assert_eq!(k.mail_write(me, &[]), INVALID);
    assert_eq!(k.mail_read(&mut empty), 0);
    let mut single = vec![0u8; 1];
    assert_eq!(k.mail_read(&mut single), 1);
    assert_eq!(single[0], 1);
    assert_eq!(k.mail_write(me, &[]), 0);
    for expected in 2..16u8 {
        assert_eq!(k.mail_read(&mut single), 1);
        assert_eq!(single[0], expected);
    }
    assert_eq!(k.mail_read(&mut single), 0);
    assert_eq!(k.mail_read(&mut single), INVALID);
    assert_eq!(k.mail_read(&mut empty), INVALID);
}

#[test]
fn clock_and_sleep() {
    let mut k = boot();
    assert_eq!(k.get_time(), 0);
    k.sleep(500);
    k.sleep_blocking(250);
    assert_eq!(k.get_time(), 750);
}
