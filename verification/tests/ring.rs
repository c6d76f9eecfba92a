use chronos_vfs::consumer::{PollOutcome, RingBufferPoller};
use chronos_vfs::nvm_core::{BatchExecutor, CommandRingBuffer};

#[test]
fn ring_is_first_in_first_out() {
    let mut ring: CommandRingBuffer<u64> = CommandRingBuffer::new(4);
    assert_eq!(ring.push(10), Ok(()));
    assert_eq!(ring.push(20), Ok(()));
    assert_eq!(ring.push(30), Ok(()));
    assert_eq!(ring.pop(), Some(10));
    assert_eq!(ring.pop(), Some(20));
    assert_eq!(ring.pop(), Some(30));
    assert_eq!(ring.pop(), None);
}

#[test]
fn ring_rejects_push_when_full() {
    let mut ring: CommandRingBuffer<u64> = CommandRingBuffer::new(2);
    assert_eq!(ring.push(1), Ok(()));
    assert_eq!(ring.push(2), Ok(()));
    assert_eq!(ring.push(3), Err(3));
    assert_eq!(ring.pop(), Some(1));
    assert_eq!(ring.push(4), Ok(()));
    assert_eq!(ring.pop(), Some(2));
    assert_eq!(ring.pop(), Some(4));
    assert_eq!(ring.pop(), None);
}

#[test]
fn ring_of_capacity_one_alternates() {
    let mut ring: CommandRingBuffer<u64> = CommandRingBuffer::new(1);
    for i in 0..100u64 {
        assert_eq!(ring.push(i), Ok(()));
        assert_eq!(ring.push(i + 1000), Err(i + 1000));
        assert_eq!(ring.pop(), Some(i));
        assert_eq!(ring.pop(), None);
    }
}

#[test]
fn ring_wraps_around_its_slots_many_times() {
    let mut ring: CommandRingBuffer<u64> = CommandRingBuffer::new(8);
    let mut next_in: u64 = 0;
    let mut next_out: u64 = 0;
    for round in 0..50u64 {
        let burst = round % 9;
        for _ in 0..burst {
            match ring.push(next_in) {
                Ok(()) => next_in += 1,
                Err(v) => assert_eq!(v, next_in),
            }
        }
        assert!(next_in - next_out <= 8);
        for _ in 0..(round % 5) {
            if let Some(v) = ring.pop() {
                assert_eq!(v, next_out);
                next_out += 1;
            }
        }
    }
    while let Some(v) = ring.pop() {
        assert_eq!(v, next_out);
        next_out += 1;
    }
    assert_eq!(next_in, next_out);
}

#[test]
fn ring_holds_owned_values() {
    let mut ring: CommandRingBuffer<String> = CommandRingBuffer::new(2);
    assert_eq!(ring.push("a".to_string()), Ok(()));
    assert_eq!(ring.push("b".to_string()), Ok(()));
    assert_eq!(ring.push("c".to_string()), Err("c".to_string()));
    assert_eq!(ring.pop(), Some("a".to_string()));
}

#[test]
fn batch_executes_up_to_batch_size_in_order() {
    let mut ring: CommandRingBuffer<u64> = CommandRingBuffer::new(8);
    for v in 1..=5u64 {
        assert_eq!(ring.push(v), Ok(()));
    }
    let mut seen = Vec::new();
    {
        let mut exec = BatchExecutor::new(&mut ring);
        let n = exec.execute_batch(3, |cmd| seen.push(cmd));
        assert_eq!(n, 3);
    }
    assert_eq!(seen, vec![1, 2, 3]);
    assert_eq!(ring.pop(), Some(4));
}

#[test]
fn batch_stops_when_ring_runs_empty() {
    let mut ring: CommandRingBuffer<u64> = CommandRingBuffer::new(4);
    assert_eq!(ring.push(7), Ok(()));
    assert_eq!(ring.push(8), Ok(()));
    let mut seen = Vec::new();
    let mut exec = BatchExecutor::new(&mut ring);
    let n = exec.execute_batch(10, |cmd| seen.push(cmd));
    assert_eq!(n, 2);
    assert_eq!(exec.execute_batch(10, |_cmd| panic!("ring should be empty")), 0);
    assert_eq!(seen, vec![7, 8]);
}

#[test]
fn batch_of_zero_executes_nothing() {
    let mut ring: CommandRingBuffer<u64> = CommandRingBuffer::new(4);
    assert_eq!(ring.push(7), Ok(()));
    let mut exec = BatchExecutor::new(&mut ring);
    assert_eq!(exec.execute_batch(0, |_cmd| panic!("nothing should run")), 0);
    assert_eq!(ring.pop(), Some(7));
}

#[test]
fn poller_is_ready_with_oldest_command() {
    let mut ring: CommandRingBuffer<u64> = CommandRingBuffer::new(4);
    assert_eq!(ring.push(42), Ok(()));
    assert_eq!(ring.push(43), Ok(()));
    let mut poller = RingBufferPoller::new(&mut ring, 128);
    assert!(matches!(poller.poll(), PollOutcome::Ready(42)));
    assert!(matches!(poller.poll(), PollOutcome::Ready(43)));
    assert!(matches!(poller.poll(), PollOutcome::Pending));
}

#[test]
fn poller_with_zero_spin_limit_is_pending_on_empty_ring() {
    let mut ring: CommandRingBuffer<u64> = CommandRingBuffer::new(2);
    let mut poller = RingBufferPoller::new(&mut ring, 0);
    assert!(matches!(poller.poll(), PollOutcome::Pending));
    assert_eq!(poller.spin_limit, 0);
}
