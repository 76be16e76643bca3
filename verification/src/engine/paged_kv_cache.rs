//! Paged key/value cache: a pool of fixed-size blocks and a block table per sequence.
use crate::base::backend::{Backend, DeviceCall, DeviceEvent};
use crate::base::dtype::DType;
use crate::base::error::{FractureError, Result};
use crate::base::program::{
    all_allocated, all_done, allocate_each, calls_of, error_of, frees, infos, joined, push_command,
    ran, ran_then, run_all, shape3, shaped, shapes_of, DeviceCommand,
};
use crate::base::tensor::{DeviceTensor, TensorInfo};
use crate::base::text::{decimal, numbered};
use crate::base::turboquant::blocks_in;
use crate::engine::block_table::{
    blocks_add_up, blocks_for, blocks_held, chunks_are_consecutive, chunks_from, has_slot,
    partitioned, slot, split_chunks, BlockTables, BlocksInfo, Chunk, BLOCK_SIZE,
};
use crate::engine::kv_cache::{invalid_handle, is_invalid_handle, CacheHandle};
use vstd::prelude::*;
use vstd::string::StringExecFns;

verus! {

broadcast use vstd::std_specs::hash::group_hash_axioms;

/// Bytes of one block across all layers: K and V, two bytes per element.
pub open spec fn block_bytes(num_layers: usize, num_kv_heads: usize, head_dim: usize) -> int {
    BLOCK_SIZE * num_kv_heads * head_dim * 2 * 2 * num_layers
}

/// Computing [`block_bytes`] from the left never leaves `usize`.
pub open spec fn block_bytes_fit(num_layers: usize, num_kv_heads: usize, head_dim: usize) -> bool {
    &&& BLOCK_SIZE * num_kv_heads <= usize::MAX
    &&& BLOCK_SIZE * num_kv_heads * head_dim * 2 * 2 <= usize::MAX
    &&& block_bytes(num_layers, num_kv_heads, head_dim) <= usize::MAX
}

fn count_block_bytes(num_layers: usize, num_kv_heads: usize, head_dim: usize) -> (res: usize)
    requires
        block_bytes_fit(num_layers, num_kv_heads, head_dim),
    ensures
        res == block_bytes(num_layers, num_kv_heads, head_dim),
{
    assert(0 <= BLOCK_SIZE * num_kv_heads * head_dim) by (nonlinear_arith);
    BLOCK_SIZE * num_kv_heads * head_dim * 2 * 2 * num_layers
}

/// Compute the number of paged KV cache blocks that fit in the given memory budget.
///
/// `gpu_available`: available device memory in bytes after loading weights.
/// `scratch_reserve`: bytes reserved for scratch tensors during forward passes.
pub fn compute_num_blocks(
    gpu_available: usize,
    scratch_reserve: usize,
    num_layers: usize,
    num_kv_heads: usize,
    head_dim: usize,
) -> (res: usize)
    requires
        block_bytes_fit(num_layers, num_kv_heads, head_dim),
    ensures
        res == blocks_in(
            gpu_available as int,
            scratch_reserve as int,
            block_bytes(num_layers, num_kv_heads, head_dim),
        ),
{
    let cache_budget: usize = gpu_available.saturating_sub(scratch_reserve);
    let bytes_per_block: usize = count_block_bytes(num_layers, num_kv_heads, head_dim);
    if bytes_per_block == 0 {
        return 0;
    }
    cache_budget / bytes_per_block
}

/// Pre-allocated pool of KV cache blocks in device memory.
///
/// Each block stores K and V data for `BLOCK_SIZE` tokens for every layer.
/// Blocks are allocated at pool creation and returned to a free list when released.
pub struct BlockPool {
    /// The tensors of each block: K of layer 0, V of layer 0, K of layer 1, and so on.
    /// Each is `[BLOCK_SIZE, num_kv_heads, head_dim]` FP16.
    blocks: Vec<Vec<DeviceTensor>>,
    /// Stack of free block IDs. Pop to allocate, push to free.
    free_list: Vec<usize>,
    /// Total blocks in the pool.
    capacity: usize,
    num_layers: usize,
    num_kv_heads: usize,
    head_dim: usize,
}

impl BlockPool {
    /// The tensors of each block: K of layer 0, V of layer 0, K of layer 1, and so on.
    pub closed spec fn tensors(&self) -> Seq<Seq<TensorInfo>> {
        self.blocks@.map_values(|b: Vec<DeviceTensor>| infos(b@))
    }

    /// The free blocks. The last one is given out next.
    pub closed spec fn free(&self) -> Seq<usize> {
        self.free_list@
    }

    /// The number of blocks.
    pub closed spec fn size(&self) -> usize {
        self.capacity
    }

    /// Layers per block.
    pub closed spec fn layers(&self) -> usize {
        self.num_layers
    }

    /// Heads per row.
    pub closed spec fn kv_heads(&self) -> usize {
        self.num_kv_heads
    }

    /// Elements per head.
    pub closed spec fn dim(&self) -> usize {
        self.head_dim
    }

    /// The K tensor of a block and layer.
    pub open spec fn k(&self, block: int, layer: int) -> TensorInfo {
        self.tensors()[block][2 * layer]
    }

    /// The V tensor of a block and layer.
    pub open spec fn v(&self, block: int, layer: int) -> TensorInfo {
        self.tensors()[block][2 * layer + 1]
    }

    /// The shapes of the tensors of one block.
    pub open spec fn shapes(num_layers: usize, num_kv_heads: usize, head_dim: usize) -> Seq<
        Seq<usize>,
    > {
        Seq::new(2 * num_layers as nat, |i: int| seq![BLOCK_SIZE, num_kv_heads, head_dim])
    }

    /// Every block has its tensors; the size of a block fits in `usize`.
    pub open spec fn stored(&self) -> bool {
        &&& self.tensors().len() == self.size()
        &&& forall|b: int|
            0 <= b < self.size() ==> shaped(
                #[trigger] self.tensors()[b],
                Self::shapes(self.layers(), self.kv_heads(), self.dim()),
                DType::FP16,
            )
        &&& block_bytes_fit(self.layers(), self.kv_heads(), self.dim())
    }

    /// The tensors are in order, and the free list names blocks of the pool, each at most
    /// once.
    pub open spec fn wf(&self) -> bool {
        &&& self.stored()
        &&& forall|i: int| 0 <= i < self.free().len() ==> #[trigger] self.free()[i] < self.size()
        &&& self.free().no_duplicates()
    }

    /// The blocks and their tensors are the same; the free lists may differ.
    pub open spec fn same_blocks(&self, other: &Self) -> bool {
        &&& self.tensors() == other.tensors()
        &&& self.size() == other.size()
        &&& self.layers() == other.layers()
        &&& self.kv_heads() == other.kv_heads()
        &&& self.dim() == other.dim()
    }

    /// The error of an allocation from an empty free list.
    pub open spec fn exhausted(&self) -> FractureError {
        FractureError::OutOfMemory {
            requested: block_bytes(self.layers(), self.kv_heads(), self.dim()) as usize,
            available: 0,
        }
    }

    /// The tensors of a block of these dimensions.
    pub open spec fn fits_block(
        ts: Seq<TensorInfo>,
        num_layers: usize,
        num_kv_heads: usize,
        head_dim: usize,
    ) -> bool {
        shaped(ts, Self::shapes(num_layers, num_kv_heads, head_dim), DType::FP16)
    }

    /// Creating a pool took the trace from `before` to `after` and gave `res`.
    ///
    /// On success all blocks are free, the lowest number on top, and their tensors
    /// are what the device gave, in order. On failure the blocks `made` had been
    /// completed, and the one after them failed with `cause`.
    pub open spec fn created(
        num_blocks: usize,
        num_layers: usize,
        num_kv_heads: usize,
        head_dim: usize,
        before: Seq<DeviceEvent>,
        after: Seq<DeviceEvent>,
        res: Result<BlockPool>,
    ) -> bool {
        match res {
            Ok(p) => {
                &&& p.wf()
                &&& p.size() == num_blocks
                &&& p.layers() == num_layers
                &&& p.kv_heads() == num_kv_heads
                &&& p.dim() == head_dim
                &&& p.free() == Seq::new(
                    num_blocks as nat,
                    |i: int| (num_blocks - 1 - i) as usize,
                )
                &&& ran(before, after, all_allocated(joined(p.tensors())), None)
            },
            Err(e) => exists|
                made: Seq<Seq<TensorInfo>>,
                part: Seq<TensorInfo>,
                cause: FractureError,
                text: Seq<char>,
            |
                #![trigger all_allocated(joined(made)), all_allocated(part), cause.reads(text)]
                {
                    &&& made.len() < num_blocks
                    &&& forall|b: int|
                        0 <= b < made.len() ==> Self::fits_block(
                            #[trigger] made[b],
                            num_layers,
                            num_kv_heads,
                            head_dim,
                        )
                    &&& Self::fits_block(part, num_layers, num_kv_heads, head_dim)
                    &&& ran(
                        before + all_allocated(joined(made)),
                        after,
                        all_allocated(part),
                        Some(cause),
                    )
                    &&& cause.reads(text)
                    &&& e.is_kv_cache(
                        "block pool alloc failed at block "@ + decimal(made.len()) + ": "@ + text,
                    )
                },
        }
    }

    /// Create a new block pool, pre-allocating all device memory.
    ///
    /// Allocates block by block, and in a block K and V of each layer in turn.
    /// Where an allocation fails, the error names the block.
    pub fn new<B: Backend>(
        num_blocks: usize,
        num_layers: usize,
        num_kv_heads: usize,
        head_dim: usize,
        backend: &mut B,
    ) -> (res: Result<Self>)
        requires
            block_bytes_fit(num_layers, num_kv_heads, head_dim),
        ensures
            Self::created(
                num_blocks,
                num_layers,
                num_kv_heads,
                head_dim,
                old(backend).trace(),
                final(backend).trace(),
                res,
            ),
    {
        let ghost before = backend.trace();
        let ghost spec_shapes = Self::shapes(num_layers, num_kv_heads, head_dim);
        let mut shapes: Vec<Vec<usize>> = Vec::new();
        let mut i: usize = 0;
        while i < num_layers
            invariant
                i <= num_layers,
                shapes_of(shapes@) =~= Seq::new(
                    2 * i as nat,
                    |i: int| seq![BLOCK_SIZE, num_kv_heads, head_dim],
                ),
            decreases num_layers - i,
        {
            let ghost got = shapes@;
            let k = shape3(BLOCK_SIZE, num_kv_heads, head_dim);
            let v = shape3(BLOCK_SIZE, num_kv_heads, head_dim);
            shapes.push(k);
            shapes.push(v);
            assert(shapes_of(shapes@) =~= shapes_of(got).push(k@).push(v@));
            i = i + 1;
        }
        assert(shapes_of(shapes@) =~= spec_shapes);
        let mut blocks: Vec<Vec<DeviceTensor>> = Vec::new();
        let ghost mut made: Seq<Seq<TensorInfo>> = Seq::empty();
        let mut block_id: usize = 0;
        assert(backend.trace() =~= before + all_allocated(joined(made)));
        while block_id < num_blocks
            invariant
                before == old(backend).trace(),
                block_id <= num_blocks,
                spec_shapes == Self::shapes(num_layers, num_kv_heads, head_dim),
                shapes_of(shapes@) == spec_shapes,
                made =~= blocks@.map_values(|b: Vec<DeviceTensor>| infos(b@)),
                made.len() == block_id,
                forall|b: int|
                    0 <= b < made.len() ==> shaped(#[trigger] made[b], spec_shapes, DType::FP16),
                ran(before, backend.trace(), all_allocated(joined(made)), None),
            decreases num_blocks - block_id,
        {
            let ghost middle = backend.trace();
            match allocate_each(backend, &shapes, DType::FP16) {
                Ok(tensors) => {
                    proof {
                        let one = infos(tensors@);
                        ran_then(
                            before,
                            middle,
                            backend.trace(),
                            all_allocated(joined(made)),
                            all_allocated(one),
                            None,
                        );
                        let next = made.push(one);
                        assert(next.drop_last() =~= made);
                        assert(all_allocated(joined(made)) + all_allocated(one) =~= all_allocated(
                            joined(next),
                        ));
                        made = next;
                    }
                    blocks.push(tensors);
                },
                Err(cause) => {
                    let text: String = cause.to_string();
                    let mut m: String = numbered(
                        "block pool alloc failed at block ",
                        block_id as u64,
                    );
                    m.append(": ");
                    m.append(text.as_str());
                    proof {
                        let part = choose|ts: Seq<TensorInfo>|
                            shaped(ts, spec_shapes, DType::FP16) && #[trigger] ran(
                                middle,
                                backend.trace(),
                                all_allocated(ts),
                                Some(cause),
                            );
                        assert(middle == before + all_allocated(joined(made)));
                        assert(cause.reads(text@));
                        assert(ran(
                            before + all_allocated(joined(made)),
                            backend.trace(),
                            all_allocated(part),
                            Some(cause),
                        ));
                    }
                    return Err(FractureError::KvCache(m));
                },
            }
            block_id = block_id + 1;
        }
        let mut free_list: Vec<usize> = Vec::new();
        let mut n: usize = num_blocks;
        while n > 0
            invariant
                n <= num_blocks,
                free_list@ =~= Seq::new(
                    (num_blocks - n) as nat,
                    |i: int| (num_blocks - 1 - i) as usize,
                ),
            decreases n,
        {
            n = n - 1;
            free_list.push(n);
        }
        let pool = BlockPool {
            blocks,
            free_list,
            capacity: num_blocks,
            num_layers,
            num_kv_heads,
            head_dim,
        };
        assert(pool.tensors() =~= made);
        Ok(pool)
    }

    /// Allocate a block from the free list. Returns the block ID.
    pub fn alloc_block(&mut self) -> (res: Result<usize>)
        requires
            old(self).stored(),
        ensures
            final(self).stored(),
            old(self).wf() ==> final(self).wf(),
            final(self).same_blocks(old(self)),
            res is Ok <==> old(self).free().len() > 0,
            res matches Ok(b) ==> b == old(self).free().last() && final(self).free() == old(
                self,
            ).free().drop_last(),
            res matches Err(e) ==> final(self).free() == old(self).free() && e == old(
                self,
            ).exhausted(),
    {
        match self.free_list.pop() {
            Some(b) => Ok(b),
            None => Err(
                FractureError::OutOfMemory { requested: self.bytes_per_block(), available: 0 },
            ),
        }
    }

    /// Return a block to the free list. The pool stays in order if the block is one of its
    /// own and was not free.
    pub fn free_block(&mut self, block_id: usize)
        ensures
            final(self).same_blocks(old(self)),
            final(self).free() == old(self).free().push(block_id),
            old(self).stored() ==> final(self).stored(),
            old(self).wf() && block_id < old(self).size() && !old(self).free().contains(block_id)
                ==> final(self).wf(),
    {
        self.free_list.push(block_id);
    }

    /// Get the K tensor for a specific block and layer.
    pub fn k_tensor(&self, block_id: usize, layer: usize) -> (res: &DeviceTensor)
        requires
            self.stored(),
            block_id < self.size(),
            layer < self.layers(),
        ensures
            res@ == self.k(block_id as int, layer as int),
    {
        assert(self.tensors()[block_id as int].len() == 2 * self.layers());
        let n: usize = self.blocks[block_id].len();
        assert(2 * layer + 1 < n);
        &self.blocks[block_id][2 * layer]
    }

    /// Get the V tensor for a specific block and layer.
    pub fn v_tensor(&self, block_id: usize, layer: usize) -> (res: &DeviceTensor)
        requires
            self.stored(),
            block_id < self.size(),
            layer < self.layers(),
        ensures
            res@ == self.v(block_id as int, layer as int),
    {
        assert(self.tensors()[block_id as int].len() == 2 * self.layers());
        let n: usize = self.blocks[block_id].len();
        assert(2 * layer + 1 < n);
        &self.blocks[block_id][2 * layer + 1]
    }

    /// Number of free blocks available.
    pub fn num_free(&self) -> (res: usize)
        ensures
            res == self.free().len(),
    {
        self.free_list.len()
    }

    /// Total blocks in the pool.
    pub fn capacity(&self) -> (res: usize)
        ensures
            res == self.size(),
    {
        self.capacity
    }

    /// Bytes per block across all layers.
    pub fn bytes_per_block(&self) -> (res: usize)
        requires
            block_bytes_fit(self.layers(), self.kv_heads(), self.dim()),
        ensures
            res == block_bytes(self.layers(), self.kv_heads(), self.dim()),
    {
        count_block_bytes(self.num_layers, self.num_kv_heads, self.head_dim)
    }

    /// The K tensors, block by block.
    pub open spec fn k_rows(&self) -> Seq<Seq<TensorInfo>> {
        Seq::new(
            self.size() as nat,
            |b: int| Seq::new(self.layers() as nat, |l: int| self.k(b, l)),
        )
    }

    /// The V tensors, block by block.
    pub open spec fn v_rows(&self) -> Seq<Seq<TensorInfo>> {
        Seq::new(
            self.size() as nat,
            |b: int| Seq::new(self.layers() as nat, |l: int| self.v(b, l)),
        )
    }

    /// Free all device memory: all K tensors, then all V tensors. Called on shutdown.
    pub fn destroy<B: Backend>(&self, backend: &mut B) -> (res: Result<()>)
        requires
            self.stored(),
        ensures
            ran(
                old(backend).trace(),
                final(backend).trace(),
                all_done(frees(joined(self.k_rows()) + joined(self.v_rows()))),
                error_of(res),
            ),
    {
        let mut commands: Vec<DeviceCommand> = Vec::new();
        let mut b: usize = 0;
        assert(self.k_rows().take(0) =~= Seq::empty());
        while b < self.capacity
            invariant
                self.stored(),
                b <= self.size(),
                calls_of(commands@) =~= frees(joined(self.k_rows().take(b as int))),
            decreases self.capacity - b,
        {
            let mut l: usize = 0;
            while l < self.num_layers
                invariant
                    self.stored(),
                    b < self.size(),
                    l <= self.layers(),
                    calls_of(commands@) =~= frees(
                        joined(self.k_rows().take(b as int)) + self.k_rows()[b as int].take(
                            l as int,
                        ),
                    ),
                decreases self.num_layers - l,
            {
                push_command(
                    &mut commands,
                    DeviceCommand::Free { tensor: self.k_tensor(b, l) },
                );
                l = l + 1;
            }
            assert(self.k_rows()[b as int].take(l as int) =~= self.k_rows()[b as int]);
            assert(self.k_rows().take(b + 1).drop_last() =~= self.k_rows().take(b as int));
            b = b + 1;
        }
        assert(self.k_rows().take(b as int) =~= self.k_rows());
        let ghost ks = joined(self.k_rows());
        b = 0;
        assert(self.v_rows().take(0) =~= Seq::empty());
        while b < self.capacity
            invariant
                self.stored(),
                b <= self.size(),
                calls_of(commands@) =~= frees(ks + joined(self.v_rows().take(b as int))),
            decreases self.capacity - b,
        {
            let mut l: usize = 0;
            while l < self.num_layers
                invariant
                    self.stored(),
                    b < self.size(),
                    l <= self.layers(),
                    calls_of(commands@) =~= frees(
                        ks + (joined(self.v_rows().take(b as int)) + self.v_rows()[b as int].take(
                            l as int,
                        )),
                    ),
                decreases self.num_layers - l,
            {
                push_command(
                    &mut commands,
                    DeviceCommand::Free { tensor: self.v_tensor(b, l) },
                );
                l = l + 1;
            }
            assert(self.v_rows()[b as int].take(l as int) =~= self.v_rows()[b as int]);
            assert(self.v_rows().take(b + 1).drop_last() =~= self.v_rows().take(b as int));
            b = b + 1;
        }
        assert(self.v_rows().take(b as int) =~= self.v_rows());
        run_all(backend, commands.as_slice())
    }
}

/// The copies that write one chunk of keys and values into its block.
///
/// `tensors` are those of the pool, see [`BlockPool::tensors`].
pub open spec fn chunk_calls(
    tensors: Seq<Seq<TensorInfo>>,
    table: Seq<usize>,
    layer: int,
    keys: TensorInfo,
    values: TensorInfo,
    c: Chunk,
) -> Seq<DeviceCall> {
    let block = table[c.block_index as int] as int;
    seq![
        DeviceCall::CopyRows {
            src: keys,
            dst: tensors[block][2 * layer],
            src_offset: c.written,
            dst_offset: c.offset,
            count: c.count,
        },
        DeviceCall::CopyRows {
            src: values,
            dst: tensors[block][2 * layer + 1],
            src_offset: c.written,
            dst_offset: c.offset,
            count: c.count,
        },
    ]
}

/// The copies that write all chunks, in order.
pub open spec fn append_calls(
    tensors: Seq<Seq<TensorInfo>>,
    table: Seq<usize>,
    layer: int,
    keys: TensorInfo,
    values: TensorInfo,
    chunks: Seq<Chunk>,
) -> Seq<DeviceCall>
    decreases chunks.len(),
{
    if chunks.len() == 0 {
        Seq::empty()
    } else {
        append_calls(tensors, table, layer, keys, values, chunks.drop_last()) + chunk_calls(
            tensors,
            table,
            layer,
            keys,
            values,
            chunks.last(),
        )
    }
}

/// The bookkeeping of a paged cache: the sequences and the free blocks.
#[verifier::ext_equal]
pub struct CacheModel {
    pub seqs: Map<u64, BlocksInfo>,
    pub free: Seq<usize>,
}

impl CacheModel {
    /// There are blocks for `n` more tokens. Only layer 0 takes blocks.
    pub open spec fn has_room(self, handle: CacheHandle, layer: int, n: int) -> bool {
        layer != 0 || self.seqs[handle.0].missing(n) <= self.free.len()
    }

    /// After `n` more tokens of a layer. Only layer 0 counts them in.
    pub open spec fn append(self, handle: CacheHandle, layer: int, n: int) -> CacheModel {
        if layer == 0 {
            CacheModel {
                seqs: self.seqs.insert(handle.0, self.seqs[handle.0].grown(self.free, n)),
                free: self.free.take(self.free.len() - self.seqs[handle.0].missing(n)),
            }
        } else {
            self
        }
    }

    /// After all free blocks went to a sequence.
    pub open spec fn drained(self, handle: CacheHandle) -> CacheModel {
        CacheModel {
            seqs: self.seqs.insert(handle.0, self.seqs[handle.0].drained(self.free)),
            free: Seq::empty(),
        }
    }
}

/// The bookkeeping of a paged cache, and the number that the next handle gets.
pub struct CacheState {
    pub model: CacheModel,
    pub next: u64,
}

impl CacheState {
    /// Each block is free or held once, and handles are numbered below the next one.
    pub open spec fn in_order(self, size: usize) -> bool {
        &&& partitioned(self.model.seqs, self.model.free, size)
        &&& forall|id: u64| #[trigger] self.model.seqs.contains_key(id) ==> id < self.next
    }
}

/// Adding a sequence took the cache from `before` to `after` and gave `res`. The handle
/// number is spent either way; an empty sequence gets one block, the last of the free ones.
pub open spec fn sequence_added(
    before: CacheState,
    after: CacheState,
    exhausted: FractureError,
    res: Result<CacheHandle>,
) -> bool {
    let m = before.model;
    &&& after.next == before.next + 1
    &&& if m.free.len() > 0 {
        &&& res == Ok::<CacheHandle, FractureError>(CacheHandle(before.next))
        &&& after.model == (CacheModel {
            seqs: m.seqs.insert(
                before.next,
                BlocksInfo { table: seq![m.free.last()], last_fill: 0, len: 0 },
            ),
            free: m.free.drop_last(),
        })
    } else {
        &&& res == Err::<CacheHandle, FractureError>(exhausted)
        &&& after.model == m
    }
}

/// The copies that append `n` tokens to a sequence whose length already counts them.
pub open spec fn write_calls(
    tensors: Seq<Seq<TensorInfo>>,
    s: BlocksInfo,
    layer: int,
    keys: TensorInfo,
    values: TensorInfo,
    n: int,
) -> Seq<DeviceCall> {
    append_calls(tensors, s.table, layer, keys, values, chunks_from(s.len - n, n, 0))
}

/// Paged KV cache manager. Manages a block pool and per-sequence block tables.
///
/// The engine calls `append_kv` to write new KV data (which grows the table as
/// needed) and reads via block tables passed to the paged attention kernel.
pub struct PagedKvCacheManager {
    pool: BlockPool,
    tables: BlockTables,
}

impl PagedKvCacheManager {
    /// The block pool.
    pub closed spec fn blocks(&self) -> BlockPool {
        self.pool
    }

    /// What is held of each sequence, by handle.
    pub closed spec fn sequences(&self) -> Map<u64, BlocksInfo> {
        self.tables.seqs()
    }

    /// The number that the next handle gets.
    pub closed spec fn next_handle(&self) -> u64 {
        self.tables.next_handle()
    }

    /// The bookkeeping.
    pub open spec fn model(&self) -> CacheModel {
        CacheModel { seqs: self.sequences(), free: self.blocks().free() }
    }

    /// The pool is in order; every sequence has just the blocks that its tokens need;
    /// each block is free or held once.
    pub open spec fn wf(&self) -> bool {
        &&& self.blocks().wf()
        &&& partitioned(self.sequences(), self.blocks().free(), self.blocks().size())
        &&& forall|id: u64| #[trigger]
            self.sequences().contains_key(id) ==> id < self.next_handle()
                && self.sequences()[id].wf() && self.sequences()[id].exact()
    }

    /// Whatever was done to the cache, no block stands twice in the tables of its
    /// sequences, and blocks add up: those in all tables and those that are free are
    /// together as many as the pool has.
    pub proof fn blocks_are_conserved(&self)
        requires
            self.wf(),
        ensures
            self.sequences().dom().finite(),
            forall|id: u64, i: int| #[trigger]
                has_slot(self.sequences(), id, i) ==> slot(self.sequences(), id, i)
                    < self.blocks().size(),
            forall|a: u64, i: int, b: u64, j: int|
                #![trigger has_slot(self.sequences(), a, i), has_slot(self.sequences(), b, j)]
                has_slot(self.sequences(), a, i) && has_slot(self.sequences(), b, j) && (a != b
                    || i != j) ==> slot(self.sequences(), a, i) != slot(self.sequences(), b, j),
            blocks_held(self.sequences()) + self.blocks().free().len() == self.blocks().size(),
    {
        self.tables.few_sequences();
        blocks_add_up(self.sequences(), self.blocks().free(), self.blocks().size());
    }

    /// Create a paged cache manager with a pre-allocated block pool.
    pub fn new<B: Backend>(
        num_blocks: usize,
        num_layers: usize,
        num_kv_heads: usize,
        head_dim: usize,
        backend: &mut B,
    ) -> (res: Result<Self>)
        requires
            block_bytes_fit(num_layers, num_kv_heads, head_dim),
        ensures
            BlockPool::created(
                num_blocks,
                num_layers,
                num_kv_heads,
                head_dim,
                old(backend).trace(),
                final(backend).trace(),
                match res {
                    Ok(m) => Ok(m.blocks()),
                    Err(e) => Err(e),
                },
            ),
            res matches Ok(m) ==> m.wf() && m.sequences() == Map::<u64, BlocksInfo>::empty()
                && m.next_handle() == 0,
    {
        match BlockPool::new(num_blocks, num_layers, num_kv_heads, head_dim, backend) {
            Ok(pool) => {
                let ghost free = pool.free();
                let m = PagedKvCacheManager { pool, tables: BlockTables::new() };
                proof {
                    assert forall|x: usize| x < num_blocks implies #[trigger] free.contains(x) by {
                        assert(free[num_blocks - 1 - x] == x);
                    }
                }
                Ok(m)
            },
            Err(e) => Err(e),
        }
    }

    /// Allocate a new sequence. Allocates one initial block.
    ///
    /// The handle number is spent even where no block is free.
    pub fn allocate(&mut self) -> (res: Result<CacheHandle>)
        requires
            old(self).wf(),
            old(self).next_handle() < u64::MAX,
        ensures
            final(self).wf(),
            final(self).blocks().same_blocks(&old(self).blocks()),
            sequence_added(
                CacheState { model: old(self).model(), next: old(self).next_handle() },
                CacheState { model: final(self).model(), next: final(self).next_handle() },
                old(self).blocks().exhausted(),
                res,
            ),
    {
        match self.tables.create(&mut self.pool.free_list, Ghost(self.pool.capacity)) {
            Some(h) => Ok(h),
            None => Err(
                FractureError::OutOfMemory {
                    requested: self.pool.bytes_per_block(),
                    available: 0,
                },
            ),
        }
    }

    /// What [`PagedKvCacheManager::append_kv`] does to the cache and the device.
    pub open spec fn appended(
        self,
        after: Self,
        handle: CacheHandle,
        layer: usize,
        keys: TensorInfo,
        values: TensorInfo,
        trace_before: Seq<DeviceEvent>,
        trace_after: Seq<DeviceEvent>,
        res: Result<()>,
    ) -> bool {
        let n = keys.shape[0] as int;
        let m = self.model();
        if !m.seqs.contains_key(handle.0) {
            &&& res matches Err(e) && is_invalid_handle(e, handle)
            &&& after.model() == m
            &&& trace_after == trace_before
        } else if !m.has_room(handle, layer as int, n) {
            &&& res matches Err(e) && e == self.blocks().exhausted()
            &&& after.model() == m
            &&& trace_after == trace_before
        } else {
            let t = m.append(handle, layer as int, n);
            &&& after.model() == t
            &&& ran(
                trace_before,
                trace_after,
                all_done(
                    write_calls(
                        self.blocks().tensors(),
                        t.seqs[handle.0],
                        layer as int,
                        keys,
                        values,
                        n,
                    ),
                ),
                error_of(res),
            )
        }
    }

    /// Append KV data for new tokens into the block pool.
    ///
    /// `keys` and `values` are `[num_new_tokens, num_kv_heads, head_dim]`. On layer 0
    /// the sequence grows by the new tokens and takes the blocks that they need; on
    /// the other layers the tokens counted in by layer 0 are written.
    ///
    /// Where too few blocks are free the sequence and the pool stay as they were.
    pub fn append_kv<B: Backend>(
        &mut self,
        handle: CacheHandle,
        layer: usize,
        keys: &DeviceTensor,
        values: &DeviceTensor,
        backend: &mut B,
    ) -> (res: Result<()>)
        requires
            old(self).wf(),
            old(self).sequences().contains_key(handle.0) ==> {
                let s = old(self).sequences()[handle.0];
                let n = keys@.shape[0];
                &&& keys@.shape.len() > 0
                &&& old(self).model().has_room(handle, layer as int, n as int) ==> {
                    &&& n > 0 ==> layer < old(self).blocks().layers()
                    &&& layer == 0 ==> s.len + n <= usize::MAX
                    &&& layer > 0 ==> n <= s.len
                }
            },
        ensures
            final(self).wf(),
            final(self).blocks().same_blocks(&old(self).blocks()),
            final(self).next_handle() == old(self).next_handle(),
            old(self).appended(
                *final(self),
                handle,
                layer,
                keys@,
                values@,
                old(backend).trace(),
                final(backend).trace(),
                res,
            ),
    {
        if self.tables.get(handle).is_none() {
            return Err(invalid_handle(handle));
        }
        let num_new: usize = keys.shape[0];
        if layer == 0 {
            let ok: bool = self.tables.reserve(
                &mut self.pool.free_list,
                handle,
                num_new,
                Ghost(self.pool.capacity),
            );
            if !ok {
                return Err(
                    FractureError::OutOfMemory {
                        requested: self.pool.bytes_per_block(),
                        available: 0,
                    },
                );
            }
        }
        let seq = match self.tables.get(handle) {
            Some(seq) => seq,
            None => {
                return Err(invalid_handle(handle));
            },
        };
        let table = seq.table();
        let start: usize = seq.len() - num_new;
        let chunks = split_chunks(start, num_new);
        let ghost tensors = self.pool.tensors();
        let mut commands: Vec<DeviceCommand> = Vec::new();
        let mut i: usize = 0;
        assert(chunks@.take(0) =~= Seq::empty());
        while i < chunks.len()
            invariant
                i <= chunks@.len(),
                self.wf(),
                tensors == self.pool.tensors(),
                self.sequences().contains_key(handle.0),
                table@ == self.sequences()[handle.0].table,
                start + num_new == self.sequences()[handle.0].len,
                start + num_new <= usize::MAX,
                chunks@ == chunks_from(start as int, num_new as int, 0),
                num_new > 0 ==> layer < self.pool.layers(),
                calls_of(commands@) =~= append_calls(
                    tensors,
                    table@,
                    layer as int,
                    keys@,
                    values@,
                    chunks@.take(i as int),
                ),
            decreases chunks@.len() - i,
        {
            let c = chunks[i];
            proof {
                chunks_are_consecutive(start as int, num_new as int, 0);
                assert(chunks@[i as int].block_index < blocks_for(start + num_new));
                assert(has_slot(self.sequences(), handle.0, c.block_index as int));
                assert(chunks@.take(i + 1).drop_last() =~= chunks@.take(i as int));
            }
            let block_id: usize = table[c.block_index];
            let k = DeviceCommand::CopyRows {
                src: keys,
                dst: self.pool.k_tensor(block_id, layer),
                src_offset: c.written,
                dst_offset: c.offset,
                count: c.count,
            };
            let v = DeviceCommand::CopyRows {
                src: values,
                dst: self.pool.v_tensor(block_id, layer),
                src_offset: c.written,
                dst_offset: c.offset,
                count: c.count,
            };
            push_command(&mut commands, k);
            push_command(&mut commands, v);
            i = i + 1;
        }
        assert(chunks@.take(i as int) =~= chunks@);
        run_all(backend, commands.as_slice())
    }

    /// Get the block table for a sequence (physical block IDs).
    pub fn block_table(&self, handle: CacheHandle) -> (res: Result<&[usize]>)
        ensures
            res is Ok <==> self.sequences().contains_key(handle.0),
            res matches Ok(t) ==> t@ == self.sequences()[handle.0].table,
            res matches Err(e) ==> is_invalid_handle(e, handle),
    {
        match self.tables.get(handle) {
            Some(seq) => Ok(seq.table()),
            None => Err(invalid_handle(handle)),
        }
    }

    /// Total tokens stored for a sequence.
    pub fn seq_len(&self, handle: CacheHandle) -> (res: Result<usize>)
        ensures
            res is Ok <==> self.sequences().contains_key(handle.0),
            res matches Ok(n) ==> n == self.sequences()[handle.0].len,
            res matches Err(e) ==> is_invalid_handle(e, handle),
    {
        match self.tables.get(handle) {
            Some(seq) => Ok(seq.len()),
            None => Err(invalid_handle(handle)),
        }
    }

    /// Number of valid tokens in the last block (needed by the attention kernel).
    pub fn last_block_tokens(&self, handle: CacheHandle) -> (res: Result<usize>)
        ensures
            res is Ok <==> self.sequences().contains_key(handle.0),
            res matches Ok(n) ==> n == self.sequences()[handle.0].last_fill,
            res matches Err(e) ==> is_invalid_handle(e, handle),
    {
        match self.tables.get(handle) {
            Some(seq) => Ok(seq.last_fill()),
            None => Err(invalid_handle(handle)),
        }
    }

    /// Free all blocks for a sequence, returning them to the pool.
    pub fn free(&mut self, handle: CacheHandle) -> (res: Result<()>)
        requires
            old(self).wf(),
        ensures
            final(self).wf(),
            final(self).blocks().same_blocks(&old(self).blocks()),
            final(self).next_handle() == old(self).next_handle(),
            res is Ok <==> old(self).sequences().contains_key(handle.0),
            final(self).sequences() == old(self).sequences().remove(handle.0),
            final(self).blocks().free() == if res is Ok {
                old(self).blocks().free() + old(self).sequences()[handle.0].table
            } else {
                old(self).blocks().free()
            },
            res matches Err(e) ==> is_invalid_handle(e, handle),
    {
        if self.tables.release(&mut self.pool.free_list, handle, Ghost(self.pool.capacity)) {
            Ok(())
        } else {
            Err(invalid_handle(handle))
        }
    }

    /// Number of free blocks available in the pool.
    pub fn num_free_blocks(&self) -> (res: usize)
        ensures
            res == self.blocks().free().len(),
    {
        self.pool.num_free()
    }

    /// Estimated number of additional tokens that can be stored.
    pub fn available_token_capacity(&self) -> (res: usize)
        requires
            self.blocks().free().len() * BLOCK_SIZE <= usize::MAX,
        ensures
            res == self.blocks().free().len() * BLOCK_SIZE,
    {
        self.pool.num_free() * BLOCK_SIZE
    }

    /// Access the block pool (for the attention kernel to get tensors).
    pub fn pool(&self) -> (res: &BlockPool)
        ensures
            *res == self.blocks(),
    {
        &self.pool
    }

    /// Destroy the pool, freeing all device memory.
    pub fn destroy<B: Backend>(&self, backend: &mut B) -> (res: Result<()>)
        requires
            self.wf(),
        ensures
            ran(
                old(backend).trace(),
                final(backend).trace(),
                all_done(
                    frees(joined(self.blocks().k_rows()) + joined(self.blocks().v_rows())),
                ),
                error_of(res),
            ),
    {
        self.pool.destroy(backend)
    }
}

} // verus!
