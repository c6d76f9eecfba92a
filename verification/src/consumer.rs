use vstd::prelude::*;

use crate::nvm_core::CommandRingBuffer;

verus! {

/// The constant mixed into every virtual node identifier.
pub const NODE_SALT: u64 = 0xDEADBEEFCAFEBABE;

/// The timestamp of the tick with index 0, in milliseconds.
pub const EPOCH_MS: u64 = 1600000000000;

/// The logical time between two consecutive ticks, in milliseconds.
pub const TICK_INTERVAL_MS: u64 = 100;

/// The largest tick index whose timestamp fits in a `u64`.
pub const MAX_TICK_INDEX: u64 = 184467424737095516;

/// How many times the consumer loop spins on an empty ring before yielding.
pub const CONSUMER_SPIN_LIMIT: usize = 128;

/// The integer components from which a market tick is derived.
///
/// The tick's price is `50000 + (price_bucket - 5000) / 100` and its volume is
/// `volume_bucket + 1.5`; those two are floating-point values and are formed
/// by whoever lays the tick out for the wire.
#[derive(Clone, Copy, Debug, PartialEq, Eq, Structural)]
pub struct RawTick {
    pub timestamp: u64,
    /// In `0..10000`.
    pub price_bucket: u64,
    /// In `0..500`.
    pub volume_bucket: u64,
}

/// The identifier of the virtual node that `id` maps to under `base_seed`.
pub open spec fn spec_virtual_node(base_seed: u64, id: u64) -> u64 {
    id.wrapping_mul(base_seed) ^ NODE_SALT
}

/// The xorshift mix of a tick index with the engine's base seed.
pub open spec fn spec_tick_entropy(base_seed: u64, tick_index: u64) -> u64 {
    let s0 = tick_index.wrapping_mul(base_seed);
    let s1 = s0 ^ (s0 << 13u64);
    let s2 = s1 ^ (s1 >> 7u64);
    s2 ^ (s2 << 17u64)
}

/// The tick with index `tick_index`.
pub open spec fn spec_tick(base_seed: u64, tick_index: u64) -> RawTick {
    let seed = spec_tick_entropy(base_seed, tick_index);
    RawTick {
        timestamp: (EPOCH_MS + tick_index * TICK_INTERVAL_MS) as u64,
        price_bucket: seed % 10000,
        volume_bucket: (seed >> 16u64) % 500,
    }
}

/// A virtual node identifier, once the salt is taken off, is the product of
/// the id and the base seed modulo 2^64. In particular id 1 maps the seed `s`
/// to `s ^ NODE_SALT`, so distinct seeds give distinct nodes.
pub proof fn lemma_virtual_node_is_salted_product(base_seed: u64, id: u64)
    ensures
        (spec_virtual_node(base_seed, id) ^ NODE_SALT) as int == (id as int * base_seed as int)
            % 0x1_0000_0000_0000_0000,
        spec_virtual_node(base_seed, 1) == base_seed ^ NODE_SALT,
{
    let p = id.wrapping_mul(base_seed);
    lemma_xor_cancel(p, NODE_SALT);
    assert(1 * base_seed as int == base_seed as int);
    lemma_xor_cancel(1u64.wrapping_mul(base_seed), NODE_SALT);
}

proof fn lemma_xor_cancel(x: u64, y: u64)
    by (bit_vector)
    ensures
        (x ^ y) ^ y == x,
{
}

/// Undoes the xorshift mix of `spec_tick_entropy`, one shift step at a time,
/// last step first.
pub open spec fn spec_unmix(e: u64) -> u64 {
    let a = e ^ (e << 17u64) ^ (e << 34u64) ^ (e << 51u64);
    let b = a ^ (a >> 7u64) ^ (a >> 14u64) ^ (a >> 21u64) ^ (a >> 28u64) ^ (a >> 35u64) ^ (a >> 42u64) ^ (a
        >> 49u64) ^ (a >> 56u64) ^ (a >> 63u64);
    b ^ (b << 13u64) ^ (b << 26u64) ^ (b << 39u64) ^ (b << 52u64)
}

proof fn lemma_unshift_left_13(x: u64)
    by (bit_vector)
    ensures
        ({
            let y = x ^ (x << 13u64);
            y ^ (y << 13u64) ^ (y << 26u64) ^ (y << 39u64) ^ (y << 52u64)
        }) == x,
{
}

proof fn lemma_unshift_right_7(x: u64)
    by (bit_vector)
    ensures
        ({
            let y = x ^ (x >> 7u64);
            y ^ (y >> 7u64) ^ (y >> 14u64) ^ (y >> 21u64) ^ (y >> 28u64) ^ (y >> 35u64) ^ (y >> 42u64) ^ (y
                >> 49u64) ^ (y >> 56u64) ^ (y >> 63u64)
        }) == x,
{
}

proof fn lemma_unshift_left_17(x: u64)
    by (bit_vector)
    ensures
        ({
            let y = x ^ (x << 17u64);
            y ^ (y << 17u64) ^ (y << 34u64) ^ (y << 51u64)
        }) == x,
{
}

/// A tick's entropy is an invertible mix of the product of its index and
/// the base seed modulo 2^64: undoing the mix gives back that product.
pub proof fn lemma_tick_entropy_unmixes(base_seed: u64, tick_index: u64)
    ensures
        spec_unmix(spec_tick_entropy(base_seed, tick_index)) as int == (tick_index as int * base_seed as int)
            % 0x1_0000_0000_0000_0000,
{
    let s0 = tick_index.wrapping_mul(base_seed);
    let s1 = s0 ^ (s0 << 13u64);
    let s2 = s1 ^ (s1 >> 7u64);
    lemma_unshift_left_17(s2);
    lemma_unshift_right_7(s1);
    lemma_unshift_left_13(s0);
}

/// Distinct base seeds give distinct entropy to the tick with index 1.
pub proof fn lemma_tick_entropy_injective_in_seed(seed_a: u64, seed_b: u64)
    ensures
        seed_a != seed_b ==> spec_tick_entropy(seed_a, 1) != spec_tick_entropy(seed_b, 1),
{
    lemma_tick_entropy_unmixes(seed_a, 1);
    lemma_tick_entropy_unmixes(seed_b, 1);
}

/// The tick with index `tick_index` is stamped `tick_index` intervals after
/// the epoch.
pub proof fn lemma_tick_timestamp(base_seed: u64, tick_index: u64)
    requires
        tick_index <= MAX_TICK_INDEX,
    ensures
        spec_tick(base_seed, tick_index).timestamp == EPOCH_MS + tick_index * TICK_INTERVAL_MS,
{
    assert(tick_index * TICK_INTERVAL_MS <= MAX_TICK_INDEX * TICK_INTERVAL_MS) by (nonlinear_arith)
        requires
            tick_index <= MAX_TICK_INDEX,
    ;
}

/// A tick's price bucket is its entropy modulo 10000, and its volume bucket
/// is its entropy without the low 16 bits, modulo 500.
pub proof fn lemma_tick_buckets(base_seed: u64, tick_index: u64)
    ensures
        spec_tick(base_seed, tick_index).price_bucket as int == spec_tick_entropy(base_seed, tick_index) as int
            % 10000,
        spec_tick(base_seed, tick_index).volume_bucket as int == (spec_tick_entropy(base_seed, tick_index) as int
            / 0x1_0000) % 500,
{
    let e = spec_tick_entropy(base_seed, tick_index);
    lemma_shift_right_16(e);
}

proof fn lemma_shift_right_16(e: u64)
    by (bit_vector)
    ensures
        e >> 16u64 == e / 0x1_0000,
{
}

/// Ticks are sequential: each tick's timestamp is one tick interval after
/// the previous tick's.
pub proof fn lemma_ticks_sequential(base_seed: u64, tick_index: u64)
    requires
        tick_index < MAX_TICK_INDEX,
    ensures
        spec_tick(base_seed, (tick_index + 1) as u64).timestamp == spec_tick(base_seed, tick_index).timestamp
            + TICK_INTERVAL_MS,
{
    assert(tick_index * TICK_INTERVAL_MS <= MAX_TICK_INDEX * TICK_INTERVAL_MS) by (nonlinear_arith)
        requires
            tick_index <= MAX_TICK_INDEX,
    ;
    assert((tick_index + 1) * TICK_INTERVAL_MS == tick_index * TICK_INTERVAL_MS + TICK_INTERVAL_MS) by (nonlinear_arith);
}

/// Computes virtual state from a base seed and counts processed commands.
pub struct StateEngine {
    base_seed: u64,
    /// How many commands the engine has processed (wrapping on overflow).
    pub processed_events: usize,
}

impl StateEngine {
    /// The seed that every derived value starts from.
    pub closed spec fn spec_base_seed(&self) -> u64 {
        self.base_seed
    }

    /// The value of `processed_events`.
    pub closed spec fn spec_processed_events(&self) -> usize {
        self.processed_events
    }

    /// Creates an engine that has processed nothing yet.
    pub fn new(seed: u64) -> (engine: Self)
        ensures
            engine.spec_base_seed() == seed,
            engine.spec_processed_events() == 0,
    {
        StateEngine { base_seed: seed, processed_events: 0 }
    }

    /// Processes one command: derives its virtual state and counts it.
    pub fn process_command(&mut self, cmd: u64)
        ensures
            final(self).spec_base_seed() == old(self).spec_base_seed(),
            final(self).spec_processed_events() == old(self).spec_processed_events().wrapping_add(1),
    {
        let _virtual_state = self.calculate_virtual_node(cmd);
        self.processed_events = self.processed_events.wrapping_add(1);
    }

    /// The virtual node identifier of `id`.
    pub fn calculate_virtual_node(&self, id: u64) -> (node: u64)
        ensures
            node == spec_virtual_node(self.spec_base_seed(), id),
    {
        id.wrapping_mul(self.base_seed) ^ NODE_SALT
    }

    /// Derives the tick with logical index `tick_index`, deterministically.
    pub fn generate_tick(&self, tick_index: u64) -> (tick: RawTick)
        requires
            tick_index <= MAX_TICK_INDEX,
        ensures
            tick == spec_tick(self.spec_base_seed(), tick_index),
            tick.price_bucket < 10000,
            tick.volume_bucket < 500,
    {
        assert(tick_index * TICK_INTERVAL_MS <= MAX_TICK_INDEX * TICK_INTERVAL_MS) by (nonlinear_arith)
            requires
                tick_index <= MAX_TICK_INDEX,
        ;
        let timestamp = EPOCH_MS + tick_index * TICK_INTERVAL_MS;
        let mut seed = tick_index.wrapping_mul(self.base_seed);
        seed = seed ^ (seed << 13u64);
        seed = seed ^ (seed >> 7u64);
        seed = seed ^ (seed << 17u64);
        RawTick { timestamp, price_bucket: seed % 10000, volume_bucket: (seed >> 16u64) % 500 }
    }
}


/// Tells the processor that the caller is busy-waiting.
///
/// Calls `core::hint::spin_loop`, which has no effect that a program can
/// observe; nothing is promised of it.
#[verifier::external_body]
fn spin_loop_hint() {
    core::hint::spin_loop()
}

/// The outcome of one poll of a ring.
pub enum PollOutcome<T> {
    /// A command was taken from the ring.
    Ready(T),
    /// The ring stayed empty; the caller should wake up later and poll again.
    Pending,
}

/// Polls a command ring, spinning a bounded number of times before giving up.
pub struct RingBufferPoller<'a, T> {
    /// The ring that is polled.
    pub ring: &'a mut CommandRingBuffer<T>,
    /// How many empty reads one poll allows.
    pub spin_limit: usize,
}

impl<'a, T> RingBufferPoller<'a, T> {
    /// Creates a poller over `ring` that spins at most `spin_limit` times.
    pub fn new(ring: &'a mut CommandRingBuffer<T>, spin_limit: usize) -> (poller: Self)
        ensures
            *poller.ring == *old(ring),
            *final(poller.ring) == *final(ring),
            poller.spin_limit == spin_limit,
    {
        RingBufferPoller { ring, spin_limit }
    }

    /// Takes the oldest command if there is one; otherwise spins until the
    /// spin limit is reached and reports `Pending`, leaving the ring as it was.
    pub fn poll(&mut self) -> (res: PollOutcome<T>)
        requires
            old(self).ring.wf(),
        ensures
            final(self).ring.wf(),
            final(self).ring.spec_capacity() == old(self).ring.spec_capacity(),
            final(self).spin_limit == old(self).spin_limit,
            old(self).ring@.len() > 0 ==> res == PollOutcome::Ready(old(self).ring@[0])
                && final(self).ring@ == old(self).ring@.drop_first(),
            old(self).ring@.len() == 0 ==> res is Pending && final(self).ring@ == old(self).ring@,
    {
        let mut spins: usize = 0;
        loop
            invariant
                self.ring.wf(),
                self.ring.spec_capacity() == old(self).ring.spec_capacity(),
                self.spin_limit == old(self).spin_limit,
                spins == 0 || spins < self.spin_limit,
                spins > 0 ==> old(self).ring@.len() == 0,
                self.ring@ == old(self).ring@,
            decreases self.spin_limit - spins + 1,
        {
            if let Some(cmd) = self.ring.pop() {
                return PollOutcome::Ready(cmd);
            }
            spins = spins + 1;
            if spins >= self.spin_limit {
                return PollOutcome::Pending;
            }
            spin_loop_hint();
        }
    }
}

/// One step of the consumer loop on a command taken from the ring: the
/// command `0` stops the loop; any other command is processed by `engine`.
/// Returns whether the loop goes on.
pub fn consumer_step(engine: &mut StateEngine, cmd: u64) -> (keep_running: bool)
    ensures
        keep_running == (cmd != 0),
        final(engine).spec_base_seed() == old(engine).spec_base_seed(),
        cmd == 0 ==> final(engine).spec_processed_events() == old(engine).spec_processed_events(),
        cmd != 0 ==> final(engine).spec_processed_events()
            == old(engine).spec_processed_events().wrapping_add(1),
{
    if cmd == 0 {
        return false;
    }
    engine.process_command(cmd);
    true
}

} // verus!
