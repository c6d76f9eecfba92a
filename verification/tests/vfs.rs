use chronos_vfs::consumer::{RawTick, StateEngine};
use chronos_vfs::vfs::{GenerativeFile, VirtualFileSystem, TICK_SIZE};

#[test]
fn open_generative_file_seeds_from_name_length() {
    let engine = StateEngine::new(0x1337);
    let vfs = VirtualFileSystem::new(&engine);
    let file = vfs.open_generative_file("simulacion_red.dat", 10_000_000_000_000);
    assert_eq!(file.name, "simulacion_red.dat");
    assert_eq!(file.logical_size, 10_000_000_000_000);
    assert_eq!(file.seed, 16045676568502756426);
    assert_eq!(file.seed, engine.calculate_virtual_node(0xCAFE_BABE ^ 18));
}

#[test]
fn open_generative_file_uses_byte_length() {
    let engine = StateEngine::new(0x1337);
    let vfs = VirtualFileSystem::new(&engine);
    let file = vfs.open_generative_file("ñ", 10);
    assert_eq!(file.seed, 16045676568502642906);
}

#[test]
fn read_chunk_yields_whole_ticks_from_offset() {
    let engine = StateEngine::new(0x1337);
    let file = GenerativeFile::new("f", 0, 10_000, &engine);
    let mut ticks = Vec::new();
    assert_eq!(file.read_chunk(24, 100, &mut ticks), 96);
    assert_eq!(ticks.len(), 4);
    for (k, t) in ticks.iter().enumerate() {
        assert_eq!(*t, engine.generate_tick(1 + k as u64));
    }
    assert_eq!(ticks[0], RawTick { timestamp: 1600000000100, price_bucket: 6545, volume_bucket: 124 });
}

#[test]
fn read_chunk_unaligned_offset_starts_at_containing_tick() {
    let engine = StateEngine::new(0x1337);
    let file = GenerativeFile::new("f", 0, 10_000, &engine);
    let mut ticks = vec![engine.generate_tick(9)];
    assert_eq!(file.read_chunk(30, 48, &mut ticks), 48);
    assert_eq!(ticks, vec![engine.generate_tick(1), engine.generate_tick(2)]);
}

#[test]
fn read_chunk_truncates_at_end_of_file() {
    let engine = StateEngine::new(5);
    let file = GenerativeFile::new("f", 0, 100, &engine);
    let mut ticks = Vec::new();
    assert_eq!(file.read_chunk(48, 4096, &mut ticks), 48);
    assert_eq!(ticks, vec![engine.generate_tick(2), engine.generate_tick(3)]);
    assert_eq!(file.read_chunk(100, 4096, &mut ticks), 0);
    assert!(ticks.is_empty());
}

#[test]
fn read_chunk_smaller_than_a_tick_is_empty() {
    let engine = StateEngine::new(5);
    let file = GenerativeFile::new("f", 0, 1000, &engine);
    let mut ticks = vec![engine.generate_tick(0)];
    assert_eq!(file.read_chunk(0, (TICK_SIZE - 1) as usize, &mut ticks), 0);
    assert!(ticks.is_empty());
}

#[test]
fn adjacent_chunks_concatenate() {
    let engine = StateEngine::new(77);
    let file = GenerativeFile::new("f", 0, 100_000, &engine);
    let mut a = Vec::new();
    let mut b = Vec::new();
    let mut whole = Vec::new();
    file.read_chunk(240, 480, &mut a);
    file.read_chunk(720, 500, &mut b);
    file.read_chunk(240, 980, &mut whole);
    a.extend(b);
    assert_eq!(a, whole);
}

#[test]
fn can_read_chunk_matches_panicking_inputs() {
    let engine = StateEngine::new(5);
    let file = GenerativeFile::new("f", 0, 100, &engine);
    assert!(file.can_read_chunk(0, 4096));
    assert!(file.can_read_chunk(100, 10));
    assert!(!file.can_read_chunk(101, 0));
    let big = GenerativeFile::new("g", 0, u64::MAX, &engine);
    assert!(!big.can_read_chunk(u64::MAX, 1));
    assert!(big.can_read_chunk(24, 24));
    assert!(!big.can_read_chunk(u64::MAX - 48, 48));
}

#[test]
fn chunks_concatenate_across_end_of_file() {
    let engine = StateEngine::new(77);
    let file = GenerativeFile::new("f", 0, 1000, &engine);
    let mut a = Vec::new();
    let mut b = Vec::new();
    let mut whole = Vec::new();
    let got = file.read_chunk(960, 48, &mut a);
    assert_eq!(got, 24);
    file.read_chunk(960 + got as u64, 100, &mut b);
    file.read_chunk(960, 148, &mut whole);
    a.extend(b);
    assert_eq!(a, whole);
    assert_eq!(whole.len(), 1);
}
