use chronos_vfs::consumer::{consumer_step, RawTick, StateEngine, CONSUMER_SPIN_LIMIT, MAX_TICK_INDEX};

#[test]
fn new_engine_has_processed_nothing() {
    let engine = StateEngine::new(0x1337);
    assert_eq!(engine.processed_events, 0);
}

#[test]
fn virtual_node_mixes_id_seed_and_salt() {
    let engine = StateEngine::new(0x1337);
    assert_eq!(engine.calculate_virtual_node(5), 0xdeadbeefcafedaad);
    assert_eq!(engine.calculate_virtual_node(0), 0xDEADBEEFCAFEBABE);
    let wrapping = StateEngine::new(u64::MAX);
    assert_eq!(wrapping.calculate_virtual_node(2), 2u64.wrapping_mul(u64::MAX) ^ 0xDEADBEEFCAFEBABE);
}

#[test]
fn process_command_counts_each_command() {
    let mut engine = StateEngine::new(7);
    engine.process_command(1);
    engine.process_command(99);
    engine.process_command(0);
    assert_eq!(engine.processed_events, 3);
}

#[test]
fn process_command_counter_wraps() {
    let mut engine = StateEngine::new(7);
    engine.processed_events = usize::MAX;
    engine.process_command(5);
    assert_eq!(engine.processed_events, 0);
}

#[test]
fn generate_tick_exact_values() {
    let engine = StateEngine::new(0x1337);
    assert_eq!(engine.generate_tick(0), RawTick { timestamp: 1600000000000, price_bucket: 0, volume_bucket: 0 });
    assert_eq!(engine.generate_tick(1), RawTick { timestamp: 1600000000100, price_bucket: 6545, volume_bucket: 124 });
    assert_eq!(engine.generate_tick(2), RawTick { timestamp: 1600000000200, price_bucket: 3090, volume_bucket: 248 });
    assert_eq!(
        engine.generate_tick(41666666666),
        RawTick { timestamp: 5766666666600, price_bucket: 9235, volume_bucket: 189 }
    );
}

#[test]
fn generate_tick_is_deterministic_and_sequential() {
    let a = StateEngine::new(99);
    let b = StateEngine::new(99);
    for i in 0..200u64 {
        let t = a.generate_tick(i);
        assert_eq!(t, b.generate_tick(i));
        assert_eq!(a.generate_tick(i + 1).timestamp, t.timestamp + 100);
        assert!(t.price_bucket < 10000);
        assert!(t.volume_bucket < 500);
    }
}

#[test]
fn generate_tick_at_largest_index() {
    let engine = StateEngine::new(3);
    let t = engine.generate_tick(MAX_TICK_INDEX);
    assert_eq!(t.timestamp, 1600000000000 + MAX_TICK_INDEX * 100);
}

#[test]
fn consumer_step_stops_on_zero() {
    let mut engine = StateEngine::new(1);
    assert!(consumer_step(&mut engine, 5));
    assert!(consumer_step(&mut engine, 6));
    assert!(!consumer_step(&mut engine, 0));
    assert_eq!(engine.processed_events, 2);
    assert_eq!(CONSUMER_SPIN_LIMIT, 128);
}
