use vstd::prelude::*;

use crate::consumer::{
    lemma_tick_timestamp, spec_tick, spec_virtual_node, RawTick, StateEngine, EPOCH_MS, MAX_TICK_INDEX,
    TICK_INTERVAL_MS,
};

verus! {

broadcast use vstd::string::to_string_from_display_ensures_for_str;

/// The size in bytes of one tick as laid out on the wire.
pub const TICK_SIZE: u64 = 24;

/// The identifier of the root node of every virtual file system.
pub const ROOT_NODE_ID: u64 = 0xCAFE_BABE;

/// How many bytes a read of `size` bytes at `offset` covers in a file of
/// `logical_size` bytes: the read is cut short at the end of the file.
pub open spec fn spec_bytes_to_read(offset: u64, size: usize, logical_size: u64) -> int {
    if offset + size > logical_size {
        logical_size - offset
    } else {
        size as int
    }
}

/// How many whole ticks such a read yields.
pub open spec fn spec_chunk_ticks(offset: u64, size: usize, logical_size: u64) -> int {
    spec_bytes_to_read(offset, size, logical_size) / (TICK_SIZE as int)
}

/// A read of `size` bytes at `offset` can be served: its end does not
/// overflow, it does not start past the end of the file, and every tick it
/// yields has a representable timestamp.
pub open spec fn spec_chunk_readable(offset: u64, size: usize, logical_size: u64) -> bool {
    &&& offset + size <= u64::MAX
    &&& offset <= logical_size
    &&& spec_chunk_ticks(offset, size, logical_size) == 0
        || offset / TICK_SIZE + spec_chunk_ticks(offset, size, logical_size) - 1 <= MAX_TICK_INDEX
}

/// The ticks that such a read yields: consecutive ticks starting at the one
/// in which `offset` falls.
pub open spec fn spec_chunk(base_seed: u64, offset: u64, size: usize, logical_size: u64) -> Seq<RawTick> {
    Seq::new(
        spec_chunk_ticks(offset, size, logical_size) as nat,
        |i: int| spec_tick(base_seed, (offset / TICK_SIZE + i) as u64),
    )
}

/// A readable chunk holds the whole ticks that fit in the bytes asked for,
/// cut at the end of the file, and its `k`-th tick is the tick with absolute
/// index `offset / 24 + k`: its timestamp is that many intervals after the
/// epoch.
pub proof fn lemma_chunk_ticks_are_absolute(base_seed: u64, offset: u64, size: usize, logical_size: u64)
    requires
        spec_chunk_readable(offset, size, logical_size),
    ensures
        ({
            let chunk = spec_chunk(base_seed, offset, size, logical_size);
            let avail = if offset + size <= logical_size { size as int } else { logical_size - offset };
            &&& chunk.len() * 24 <= avail < chunk.len() * 24 + 24
            &&& forall|k: int| 0 <= k < chunk.len() ==> (#[trigger] chunk[k]).timestamp == EPOCH_MS + (offset / 24
                + k) * TICK_INTERVAL_MS
        }),
{
    let chunk = spec_chunk(base_seed, offset, size, logical_size);
    assert forall|k: int| 0 <= k < chunk.len() implies (#[trigger] chunk[k]).timestamp == EPOCH_MS + (offset
        / 24 + k) * TICK_INTERVAL_MS by {
        lemma_tick_timestamp(base_seed, (offset / TICK_SIZE + k) as u64);
    }
}

/// Reading is gap-free: a read of `first` bytes at a tick-aligned `offset`,
/// followed by a read of `second` bytes where the first one stopped, yields
/// together exactly the ticks of one read of `first + second` bytes at
/// `offset`, also when the reads are cut short at the end of the file.
pub proof fn lemma_chunks_concatenate(base_seed: u64, offset: u64, first: usize, second: usize, logical_size: u64)
    requires
        offset % TICK_SIZE == 0,
        first % (TICK_SIZE as usize) == 0,
        first + second <= usize::MAX,
        offset + first + second <= u64::MAX,
        offset <= logical_size,
    ensures
        spec_chunk(base_seed, offset, first, logical_size) + spec_chunk(
            base_seed,
            (offset + spec_chunk(base_seed, offset, first, logical_size).len() * TICK_SIZE) as u64,
            second,
            logical_size,
        ) == spec_chunk(base_seed, offset, (first + second) as usize, logical_size),
{
    let a = spec_chunk_ticks(offset, first, logical_size);
    let start = offset / TICK_SIZE;
    let next = (offset + a * 24) as u64;
    let whole = spec_chunk_ticks(offset, (first + second) as usize, logical_size);
    let b = spec_chunk_ticks(next, second, logical_size);
    if offset + first > logical_size {
        assert(a == (logical_size - offset) / 24);
        assert(a * 24 <= logical_size - offset < a * 24 + 24);
        assert(whole == a);
        assert(b == 0);
    } else {
        assert(a * 24 == first);
        assert(next == offset + first);
        assert(whole == a + b);
    }
    assert(next / 24 == start + a);
    assert(spec_chunk(base_seed, offset, first, logical_size) + spec_chunk(base_seed, next, second, logical_size)
        =~= spec_chunk(base_seed, offset, (first + second) as usize, logical_size));
}

/// A named node of the virtual file system.
pub struct VirtualNode {
    pub name: String,
    pub id: u64,
}

/// A file whose contents are computed on demand rather than stored.
pub struct GenerativeFile<'a> {
    pub name: String,
    pub seed: u64,
    pub logical_size: u64,
    engine: &'a StateEngine,
}

impl<'a> GenerativeFile<'a> {
    /// The engine that computes the file's contents.
    pub closed spec fn spec_engine(&self) -> StateEngine {
        *self.engine
    }

    /// The file's name.
    pub closed spec fn spec_name(&self) -> Seq<char> {
        self.name@
    }

    /// The file's seed.
    pub closed spec fn spec_seed(&self) -> u64 {
        self.seed
    }

    /// The file's size in bytes.
    pub closed spec fn spec_logical_size(&self) -> u64 {
        self.logical_size
    }

    /// Creates a file of `logical_size` bytes whose contents `engine` computes.
    pub fn new(name: &str, seed: u64, logical_size: u64, engine: &'a StateEngine) -> (file: Self)
        ensures
            file.spec_name() == name@,
            file.spec_seed() == seed,
            file.spec_logical_size() == logical_size,
            file.spec_engine() == *engine,
    {
        GenerativeFile { name: name.to_string(), seed, logical_size, engine }
    }

    /// Whether `read_chunk(offset, size, ..)` can be served.
    pub fn can_read_chunk(&self, offset: u64, size: usize) -> (ok: bool)
        ensures
            ok == spec_chunk_readable(offset, size, self.spec_logical_size()),
    {
        if offset > u64::MAX - (size as u64) || offset > self.logical_size {
            return false;
        }
        let mut bytes_to_read = size as u64;
        if offset + bytes_to_read > self.logical_size {
            bytes_to_read = self.logical_size - offset;
        }
        let num_ticks = bytes_to_read / TICK_SIZE;
        num_ticks == 0 || (offset / TICK_SIZE <= MAX_TICK_INDEX && num_ticks - 1 <= MAX_TICK_INDEX - offset / TICK_SIZE)
    }

    /// Computes the chunk of `size` bytes at `offset`, cut short at the end of
    /// the file. The ticks of the chunk go to `out_ticks`, which is replaced;
    /// the result is the number of bytes they take on the wire. A trailing
    /// part of less than one tick is left out.
    pub fn read_chunk(&self, offset: u64, size: usize, out_ticks: &mut Vec<RawTick>) -> (valid_bytes: usize)
        requires
            spec_chunk_readable(offset, size, self.spec_logical_size()),
        ensures
            final(out_ticks)@ == spec_chunk(
                self.spec_engine().spec_base_seed(),
                offset,
                size,
                self.spec_logical_size(),
            ),
            valid_bytes == final(out_ticks)@.len() * TICK_SIZE,
            valid_bytes <= size,
    {
        let tick_size = TICK_SIZE;
        let start_tick_index = offset / tick_size;
        let mut bytes_to_read = size as u64;
        if offset + bytes_to_read > self.logical_size {
            bytes_to_read = self.logical_size - offset;
        }
        assert(bytes_to_read <= size);
        assert((bytes_to_read / 24) * 24 <= bytes_to_read) by (nonlinear_arith);
        let num_ticks = (bytes_to_read / tick_size) as usize;
        let valid_bytes = num_ticks * (tick_size as usize);
        out_ticks.clear();
        if valid_bytes == 0 {
            assert(out_ticks@ =~= spec_chunk(self.engine.spec_base_seed(), offset, size, self.logical_size));
            return 0;
        }
        let mut i: usize = 0;
        while i < num_ticks
            invariant
                i <= num_ticks,
                num_ticks == spec_chunk_ticks(offset, size, self.logical_size),
                start_tick_index == offset / TICK_SIZE,
                spec_chunk_readable(offset, size, self.logical_size),
                out_ticks@.len() == i,
                forall|k: int| 0 <= k < i ==> #[trigger] out_ticks@[k] == spec_tick(
                    self.engine.spec_base_seed(),
                    (start_tick_index + k) as u64,
                ),
            decreases num_ticks - i,
        {
            let current_tick_index = start_tick_index + (i as u64);
            out_ticks.push(self.engine.generate_tick(current_tick_index));
            i = i + 1;
        }
        assert(out_ticks@ =~= spec_chunk(self.engine.spec_base_seed(), offset, size, self.logical_size));
        valid_bytes
    }
}

/// A virtual file system rooted at a fixed node, whose files are computed by
/// one engine.
pub struct VirtualFileSystem<'a> {
    engine: &'a StateEngine,
    root: VirtualNode,
}

impl<'a> VirtualFileSystem<'a> {
    /// The engine behind every file of the system.
    pub closed spec fn spec_engine(&self) -> StateEngine {
        *self.engine
    }

    /// The identifier of the root node.
    pub closed spec fn spec_root_id(&self) -> u64 {
        self.root.id
    }

    /// The name of the root node.
    pub closed spec fn spec_root_name(&self) -> Seq<char> {
        self.root.name@
    }

    /// Creates the file system with its root node.
    pub fn new(engine: &'a StateEngine) -> (fs: Self)
        ensures
            fs.spec_engine() == *engine,
            fs.spec_root_id() == ROOT_NODE_ID,
            fs.spec_root_name() == "root"@,
    {
        VirtualFileSystem { engine, root: VirtualNode { name: "root".to_string(), id: ROOT_NODE_ID } }
    }

    /// Opens the generative file `name` of `logical_size` bytes. Its seed is
    /// the virtual node of the root identifier mixed with the byte length of
    /// the name.
    pub fn open_generative_file(&self, name: &str, logical_size: u64) -> (file: GenerativeFile<'a>)
        ensures
            file.spec_name() == name@,
            file.spec_logical_size() == logical_size,
            file.spec_engine() == self.spec_engine(),
            file.spec_seed() == spec_virtual_node(
                self.spec_engine().spec_base_seed(),
                self.spec_root_id() ^ (name.len() as u64),
            ),
    {
        let seed_basis = self.root.id ^ (name.len() as u64);
        let file_seed = self.engine.calculate_virtual_node(seed_basis);
        GenerativeFile::new(name, file_seed, logical_size, self.engine)
    }
}

} // verus!
