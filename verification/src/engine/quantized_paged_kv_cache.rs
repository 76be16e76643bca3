//! Paged cache of compressed keys and values.
use crate::base::backend::{Backend, DeviceCall, DeviceEvent};
use crate::base::dtype::DType;
use crate::base::error::{FractureError, Result};
use crate::base::program::{
    all_allocated, all_done, allocate_mixed, allocation_fails, calls_of, error_of, frees, infos,
    laid_out, layouts, push_command, ran, ran_then, ran_short, run_all, shape2, DeviceCommand,
    Layout, TensorSpec,
};
use crate::base::tensor::{DeviceTensor, TensorInfo};
use crate::base::turboquant::TurboQuantConfig;
use crate::engine::block_table::{
    blocks_add_up, blocks_for, blocks_held, chunks_are_consecutive, chunks_from, has_slot,
    partitioned, slot, split_chunks, BlockTables, BlocksInfo, Chunk, BLOCK_SIZE,
};
use crate::engine::kv_cache::{invalid_handle, is_invalid_handle, CacheHandle};
use crate::engine::paged_kv_cache::{sequence_added, CacheModel, CacheState};
use crate::engine::quantized_pool::{packed_width, tables_match, QuantTables, QuantizedBlockPool};
use vstd::prelude::*;

verus! {

/// The widest packed row of the first `n` layers.
pub open spec fn widest(bits: Seq<u8>, num_kv_heads: usize, head_dim: usize, n: int) -> usize
    decreases n,
{
    if n <= 0 {
        0
    } else {
        let rest = widest(bits, num_kv_heads, head_dim, n - 1);
        let last = packed_width(num_kv_heads, head_dim, bits[n - 1]);
        if last > rest {
            last
        } else {
            rest
        }
    }
}

/// The scratch tensors of compression: packed keys, norms of keys, packed values,
/// norms of values, for `max_tokens` tokens of the widest layer.
pub open spec fn scratch_layouts(
    pool: &QuantizedBlockPool,
    max_tokens: usize,
) -> Seq<Layout> {
    let n = pool.layers() as int;
    seq![
        Layout {
            shape: seq![max_tokens, widest(pool.key_widths(), pool.kv_heads(), pool.dim(), n)],
            dtype: DType::INT8,
        },
        Layout { shape: seq![max_tokens, pool.kv_heads()], dtype: DType::FP16 },
        Layout {
            shape: seq![max_tokens, widest(pool.value_widths(), pool.kv_heads(), pool.dim(), n)],
            dtype: DType::INT8,
        },
        Layout { shape: seq![max_tokens, pool.kv_heads()], dtype: DType::FP16 },
    ]
}

/// The copies that write one chunk of compressed keys and values into its block.
pub open spec fn packed_chunk_calls(
    tensors: Seq<Seq<TensorInfo>>,
    scratch: Seq<TensorInfo>,
    table: Seq<usize>,
    layer: int,
    c: Chunk,
) -> Seq<DeviceCall> {
    let block = table[c.block_index as int] as int;
    Seq::new(
        4,
        |i: int|
            DeviceCall::CopyRows {
                src: scratch[i],
                dst: tensors[block][4 * layer + i],
                src_offset: c.written,
                dst_offset: c.offset,
                count: c.count,
            },
    )
}

/// The copies that write all chunks, in order.
pub open spec fn packed_calls(
    tensors: Seq<Seq<TensorInfo>>,
    scratch: Seq<TensorInfo>,
    table: Seq<usize>,
    layer: int,
    chunks: Seq<Chunk>,
) -> Seq<DeviceCall>
    decreases chunks.len(),
{
    if chunks.len() == 0 {
        Seq::empty()
    } else {
        packed_calls(tensors, scratch, table, layer, chunks.drop_last()) + packed_chunk_calls(
            tensors,
            scratch,
            table,
            layer,
            chunks.last(),
        )
    }
}

/// Manages quantized KV cache sequences backed by a [`QuantizedBlockPool`].
pub struct QuantizedKvCacheManager {
    pool: QuantizedBlockPool,
    tables: BlockTables,
    config: TurboQuantConfig,
    /// Pre-allocated tensors for compression: packed keys, norms of keys, packed
    /// values, norms of values.
    scratch: Vec<DeviceTensor>,
}

impl QuantizedKvCacheManager {
    /// The block pool.
    pub closed spec fn blocks(&self) -> QuantizedBlockPool {
        self.pool
    }

    /// What is held of each sequence, by handle.
    pub closed spec fn sequences(&self) -> Map<u64, BlocksInfo> {
        self.tables.seqs()
    }

    /// The number that the next handle gets.
    pub closed spec fn next_handle(&self) -> u64 {
        self.tables.next_handle()
    }

    /// The scratch tensors: packed keys, norms of keys, packed values, norms of values.
    pub closed spec fn scratch_tensors(&self) -> Seq<TensorInfo> {
        infos(self.scratch@)
    }

    /// The settings of the compression.
    pub closed spec fn settings(&self) -> TurboQuantConfig {
        self.config
    }

    /// The bookkeeping.
    pub open spec fn model(&self) -> CacheModel {
        CacheModel { seqs: self.sequences(), free: self.blocks().free() }
    }

    /// The pool is in order; every sequence has the blocks that its tokens need, and may
    /// have more after an append that ran out of blocks; each block is free or held once;
    /// there are four scratch tensors.
    pub open spec fn wf(&self) -> bool {
        &&& self.blocks().wf()
        &&& self.scratch_tensors().len() == 4
        &&& partitioned(self.sequences(), self.blocks().free(), self.blocks().size())
        &&& forall|id: u64| #[trigger]
            self.sequences().contains_key(id) ==> id < self.next_handle()
                && self.sequences()[id].wf()
    }

    /// The tensors and settings are the same.
    pub open spec fn same_storage(&self, other: &Self) -> bool {
        &&& self.blocks().same_blocks(&other.blocks())
        &&& self.scratch_tensors() == other.scratch_tensors()
        &&& self.settings() == other.settings()
    }

    /// This is what creating a manager gives when it took the trace from `before` to
    /// `after`: no sequences, on a pool that was created before the scratch tensors
    /// were allocated.
    pub open spec fn ready(
        self,
        num_blocks: usize,
        num_layers: usize,
        num_kv_heads: usize,
        head_dim: usize,
        max_compress_tokens: usize,
        config: TurboQuantConfig,
        tables: QuantTables,
        before: Seq<DeviceEvent>,
        after: Seq<DeviceEvent>,
    ) -> bool {
        &&& self.wf()
        &&& self.settings() == config
        &&& self.sequences() == Map::<u64, BlocksInfo>::empty()
        &&& self.next_handle() == 0
        &&& laid_out(self.scratch_tensors(), scratch_layouts(&self.blocks(), max_compress_tokens))
        &&& exists|middle: Seq<DeviceEvent>|
            after == #[trigger] (middle + all_allocated(self.scratch_tensors()))
                && QuantizedBlockPool::created(
                num_blocks,
                num_layers,
                num_kv_heads,
                head_dim,
                config,
                tables,
                before,
                middle,
                Ok(self.blocks()),
            )
    }

    /// Creating a manager took the trace from `before` to `after` and gave `res`: the
    /// pool is created first, then the scratch tensors are allocated.
    pub open spec fn created(
        num_blocks: usize,
        num_layers: usize,
        num_kv_heads: usize,
        head_dim: usize,
        max_compress_tokens: usize,
        config: TurboQuantConfig,
        tables: QuantTables,
        before: Seq<DeviceEvent>,
        after: Seq<DeviceEvent>,
        res: Result<QuantizedKvCacheManager>,
    ) -> bool {
        match res {
            Ok(m) => m.ready(
                num_blocks,
                num_layers,
                num_kv_heads,
                head_dim,
                max_compress_tokens,
                config,
                tables,
                before,
                after,
            ),
            Err(e) => {
                ||| QuantizedBlockPool::created(
                    num_blocks,
                    num_layers,
                    num_kv_heads,
                    head_dim,
                    config,
                    tables,
                    before,
                    after,
                    Err(e),
                )
                ||| exists|pool: QuantizedBlockPool, middle: Seq<DeviceEvent>, i: int|
                    {
                        &&& #[trigger] QuantizedBlockPool::created(
                            num_blocks,
                            num_layers,
                            num_kv_heads,
                            head_dim,
                            config,
                            tables,
                            before,
                            middle,
                            Ok(pool),
                        )
                        &&& #[trigger] allocation_fails(
                            middle,
                            after,
                            scratch_layouts(&pool, max_compress_tokens),
                            i,
                            e,
                        )
                    }
            },
        }
    }

    /// Whatever was done to the cache, no block stands twice in the tables of its
    /// sequences, and blocks add up: those in all tables and those that are free are
    /// together as many as the pool has.
    pub proof fn blocks_are_conserved(&self)
        requires
            self.wf(),
        ensures
            self.sequences().dom().finite(),
            forall|id: u64, i: int| #[trigger]
                has_slot(self.sequences(), id, i) ==> slot(self.sequences(), id, i)
                    < self.blocks().size(),
            forall|a: u64, i: int, b: u64, j: int|
                #![trigger has_slot(self.sequences(), a, i), has_slot(self.sequences(), b, j)]
                has_slot(self.sequences(), a, i) && has_slot(self.sequences(), b, j) && (a != b
                    || i != j) ==> slot(self.sequences(), a, i) != slot(self.sequences(), b, j),
            blocks_held(self.sequences()) + self.blocks().free().len() == self.blocks().size(),
    {
        self.tables.few_sequences();
        blocks_add_up(self.sequences(), self.blocks().free(), self.blocks().size());
    }

    /// Create a new quantized KV cache manager.
    ///
    /// `max_compress_tokens`: maximum tokens compressed in one call.
    pub fn new<B: Backend>(
        num_blocks: usize,
        num_layers: usize,
        num_kv_heads: usize,
        head_dim: usize,
        max_compress_tokens: usize,
        config: TurboQuantConfig,
        tables: &QuantTables,
        backend: &mut B,
    ) -> (res: Result<Self>)
        requires
            tables_match(*tables, config, num_layers),
            QuantizedBlockPool::config_fits(config, num_layers, num_kv_heads, head_dim),
        ensures
            Self::created(
                num_blocks,
                num_layers,
                num_kv_heads,
                head_dim,
                max_compress_tokens,
                config,
                *tables,
                old(backend).trace(),
                final(backend).trace(),
                res,
            ),
    {
        let ghost before = backend.trace();
        let pool = match QuantizedBlockPool::new(
            num_blocks,
            num_layers,
            num_kv_heads,
            head_dim,
            &config,
            tables,
            backend,
        ) {
            Ok(pool) => pool,
            Err(e) => {
                return Err(e);
            },
        };
        let ghost middle = backend.trace();
        let specs = scratch_specs(&pool, max_compress_tokens);
        match allocate_mixed(backend, &specs) {
            Ok(scratch) => {
                let m = QuantizedKvCacheManager {
                    pool,
                    tables: BlockTables::new(),
                    config,
                    scratch,
                };
                proof {
                    let ls = scratch_layouts(&m.blocks(), max_compress_tokens);
                    assert(ls.len() == 4 && laid_out(m.scratch_tensors(), ls));
                    assert(m.sequences() == Map::<u64, BlocksInfo>::empty());
                    assert(backend.trace() == middle + all_allocated(m.scratch_tensors()));
                    let free = m.blocks().free();
                    assert forall|x: usize| x < num_blocks implies #[trigger] free.contains(x) by {
                        assert(free[num_blocks - 1 - x] == x);
                    }
                    assert(m.wf());
                    assert(QuantizedBlockPool::created(
                        num_blocks,
                        num_layers,
                        num_kv_heads,
                        head_dim,
                        config,
                        *tables,
                        before,
                        middle,
                        Ok(m.blocks()),
                    ));
                    assert(m.ready(
                        num_blocks,
                        num_layers,
                        num_kv_heads,
                        head_dim,
                        max_compress_tokens,
                        config,
                        *tables,
                        before,
                        backend.trace(),
                    ));
                }
                Ok(m)
            },
            Err(f) => {
                proof {
                    assert(QuantizedBlockPool::created(
                        num_blocks,
                        num_layers,
                        num_kv_heads,
                        head_dim,
                        config,
                        *tables,
                        before,
                        middle,
                        Ok(pool),
                    ));
                    assert(allocation_fails(
                        middle,
                        backend.trace(),
                        scratch_layouts(&pool, max_compress_tokens),
                        f.0 as int,
                        f.1,
                    ));
                    assert(Self::created(
                        num_blocks,
                        num_layers,
                        num_kv_heads,
                        head_dim,
                        max_compress_tokens,
                        config,
                        *tables,
                        before,
                        backend.trace(),
                        Err(f.1),
                    ));
                }
                Err(f.1)
            },
        }
    }

    /// Allocate a new sequence. Returns a cache handle.
    ///
    /// The handle number is spent even where no block is free.
    pub fn allocate(&mut self) -> (res: Result<CacheHandle>)
        requires
            old(self).wf(),
            old(self).next_handle() < u64::MAX,
        ensures
            final(self).wf(),
            final(self).same_storage(old(self)),
            sequence_added(
                CacheState { model: old(self).model(), next: old(self).next_handle() },
                CacheState { model: final(self).model(), next: final(self).next_handle() },
                old(self).blocks().exhausted(),
                res,
            ),
    {
        let ghost size = self.pool.size();
        let r = self.tables.create(self.pool.free_blocks(), Ghost(size));
        proof {
            self.pool.keeps_order(&old(self).pool);
        }
        match r {
            Some(h) => Ok(h),
            None => Err(
                FractureError::OutOfMemory {
                    requested: self.pool.bytes_per_block(),
                    available: 0,
                },
            ),
        }
    }

    /// The compression of keys and values of a layer into the scratch tensors.
    pub open spec fn compress_calls(
        &self,
        layer: int,
        keys: TensorInfo,
        values: TensorInfo,
    ) -> Seq<DeviceCall> {
        let pool = self.blocks();
        seq![
            DeviceCall::TurboquantCompress {
                input: keys,
                rotation: pool.rotation_tensors()[2 * layer],
                centroids: pool.codebook_for(pool.key_widths()[layer]),
                bits: pool.key_widths()[layer],
                packed_out: self.scratch_tensors()[0],
                norms_out: self.scratch_tensors()[1],
            },
            DeviceCall::TurboquantCompress {
                input: values,
                rotation: pool.rotation_tensors()[2 * layer + 1],
                centroids: pool.codebook_for(pool.value_widths()[layer]),
                bits: pool.value_widths()[layer],
                packed_out: self.scratch_tensors()[2],
                norms_out: self.scratch_tensors()[3],
            },
        ]
    }

    /// What [`QuantizedKvCacheManager::append_kv`] does once keys and values are
    /// compressed.
    pub open spec fn written(
        self,
        after: Self,
        handle: CacheHandle,
        layer: usize,
        n: int,
        trace_before: Seq<DeviceEvent>,
        trace_after: Seq<DeviceEvent>,
        res: Result<()>,
    ) -> bool {
        let m = self.model();
        if !m.seqs.contains_key(handle.0) {
            &&& res matches Err(e) && is_invalid_handle(e, handle)
            &&& after.model() == m
            &&& trace_after == trace_before
        } else if !m.has_room(handle, layer as int, n) {
            &&& res matches Err(e) && e == self.blocks().exhausted()
            &&& after.model() == m.drained(handle)
            &&& trace_after == trace_before
        } else {
            let t = m.append(handle, layer as int, n);
            let s = t.seqs[handle.0];
            &&& after.model() == t
            &&& ran(
                trace_before,
                trace_after,
                all_done(
                    packed_calls(
                        self.blocks().tensors(),
                        self.scratch_tensors(),
                        s.table,
                        layer as int,
                        chunks_from(s.len - n, n, 0),
                    ),
                ),
                error_of(res),
            )
        }
    }

    /// What [`QuantizedKvCacheManager::append_kv`] does to the cache and the device:
    /// it compresses first, and only then looks at the sequence.
    pub open spec fn appended(
        self,
        after: Self,
        handle: CacheHandle,
        layer: usize,
        keys: TensorInfo,
        values: TensorInfo,
        trace_before: Seq<DeviceEvent>,
        trace_after: Seq<DeviceEvent>,
        res: Result<()>,
    ) -> bool {
        let compress = all_done(self.compress_calls(layer as int, keys, values));
        ||| {
            &&& res is Err
            &&& ran(trace_before, trace_after, compress, error_of(res))
            &&& after.model() == self.model()
        }
        ||| self.written(
            after,
            handle,
            layer,
            keys.shape[0] as int,
            trace_before + compress,
            trace_after,
            res,
        )
    }

    /// Append compressed KV data for one layer.
    ///
    /// `keys` and `values` are `[N, num_kv_heads, head_dim]` FP16 tensors
    /// from the attention projection. They are compressed on-device via the
    /// backend's `turboquant_compress` method and written into the block pool.
    ///
    /// Where too few blocks are free, the append takes those that there are and fails. The
    /// sequence keeps them, and no token is counted in.
    pub fn append_kv<B: Backend>(
        &mut self,
        handle: CacheHandle,
        layer: usize,
        keys: &DeviceTensor,
        values: &DeviceTensor,
        backend: &mut B,
    ) -> (res: Result<()>)
        requires
            old(self).wf(),
            keys@.shape.len() > 0,
            layer < old(self).blocks().layers(),
            old(self).sequences().contains_key(handle.0) && old(self).model().has_room(
                handle,
                layer as int,
                keys@.shape[0] as int,
            ) ==> {
                let s = old(self).sequences()[handle.0];
                &&& layer == 0 ==> s.len + keys@.shape[0] <= usize::MAX
                &&& layer > 0 ==> keys@.shape[0] <= s.len
            },
        ensures
            final(self).wf(),
            final(self).same_storage(old(self)),
            final(self).next_handle() == old(self).next_handle(),
            old(self).appended(
                *final(self),
                handle,
                layer,
                keys@,
                values@,
                old(backend).trace(),
                final(backend).trace(),
                res,
            ),
    {
        let ghost compress = all_done(self.compress_calls(layer as int, keys@, values@));
        match self.compress(layer, keys, values, backend) {
            Ok(()) => {},
            Err(e) => {
                return Err(e);
            },
        }
        let num_new: usize = keys.shape[0];
        if self.tables.get(handle).is_none() {
            return Err(invalid_handle(handle));
        }
        if layer == 0 {
            let ghost size = self.pool.size();
            let ok: bool = self.tables.reserve(
                self.pool.free_blocks(),
                handle,
                num_new,
                Ghost(size),
            );
            proof {
                self.pool.keeps_order(&old(self).pool);
            }
            if !ok {
                self.tables.drain(self.pool.free_blocks(), handle, Ghost(size));
                proof {
                    self.pool.keeps_order(&old(self).pool);
                }
                return Err(
                    FractureError::OutOfMemory {
                        requested: self.pool.bytes_per_block(),
                        available: 0,
                    },
                );
            }
        }
        self.write(handle, layer, num_new, backend)
    }

    /// Compresses keys and values into the scratch tensors.
    fn compress<B: Backend>(
        &self,
        layer: usize,
        keys: &DeviceTensor,
        values: &DeviceTensor,
        backend: &mut B,
    ) -> (res: Result<()>)
        requires
            self.wf(),
            layer < self.blocks().layers(),
        ensures
            ran(
                old(backend).trace(),
                final(backend).trace(),
                all_done(self.compress_calls(layer as int, keys@, values@)),
                error_of(res),
            ),
    {
        let key_bits: u8 = self.pool.key_bits_for_layer(layer);
        let value_bits: u8 = self.pool.value_bits_for_layer(layer);
        assert(self.pool.codebook_widths().contains(self.pool.key_widths()[layer as int]));
        let k = DeviceCommand::TurboquantCompress {
            input: keys,
            rotation: self.pool.k_rotation(layer),
            centroids: self.pool.centroids(key_bits),
            bits: key_bits,
            packed_out: &self.scratch[0],
            norms_out: &self.scratch[1],
        };
        let v = DeviceCommand::TurboquantCompress {
            input: values,
            rotation: self.pool.v_rotation(layer),
            centroids: self.pool.centroids(value_bits),
            bits: value_bits,
            packed_out: &self.scratch[2],
            norms_out: &self.scratch[3],
        };
        let mut commands: Vec<DeviceCommand> = Vec::new();
        push_command(&mut commands, k);
        push_command(&mut commands, v);
        assert(calls_of(commands@) =~= self.compress_calls(layer as int, keys@, values@));
        run_all(backend, commands.as_slice())
    }

    /// Copies the scratch tensors into the blocks of the last `n` tokens.
    fn write<B: Backend>(
        &self,
        handle: CacheHandle,
        layer: usize,
        n: usize,
        backend: &mut B,
    ) -> (res: Result<()>)
        requires
            self.wf(),
            layer < self.blocks().layers(),
            self.sequences().contains_key(handle.0),
            n <= self.sequences()[handle.0].len,
        ensures
            ({
                let s = self.sequences()[handle.0];
                ran(
                    old(backend).trace(),
                    final(backend).trace(),
                    all_done(
                        packed_calls(
                            self.blocks().tensors(),
                            self.scratch_tensors(),
                            s.table,
                            layer as int,
                            chunks_from(s.len - n, n as int, 0),
                        ),
                    ),
                    error_of(res),
                )
            }),
    {
        let seq = match self.tables.get(handle) {
            Some(seq) => seq,
            None => {
                return Err(invalid_handle(handle));
            },
        };
        let table = seq.table();
        let start: usize = seq.len() - n;
        let chunks = split_chunks(start, n);
        let ghost tensors = self.pool.tensors();
        let ghost scratch = self.scratch_tensors();
        let mut commands: Vec<DeviceCommand> = Vec::new();
        let mut i: usize = 0;
        assert(chunks@.take(0) =~= Seq::empty());
        while i < chunks.len()
            invariant
                i <= chunks@.len(),
                self.wf(),
                layer < self.blocks().layers(),
                tensors == self.pool.tensors(),
                scratch == self.scratch_tensors(),
                self.sequences().contains_key(handle.0),
                table@ == self.sequences()[handle.0].table,
                start + n == self.sequences()[handle.0].len,
                start + n <= usize::MAX,
                chunks@ == chunks_from(start as int, n as int, 0),
                calls_of(commands@) =~= packed_calls(
                    tensors,
                    scratch,
                    table@,
                    layer as int,
                    chunks@.take(i as int),
                ),
            decreases chunks@.len() - i,
        {
            let c = chunks[i];
            proof {
                chunks_are_consecutive(start as int, n as int, 0);
                assert(chunks@[i as int].block_index < blocks_for(start + n));
                assert(has_slot(self.sequences(), handle.0, c.block_index as int));
                assert(chunks@.take(i + 1).drop_last() =~= chunks@.take(i as int));
            }
            let block_id: usize = table[c.block_index];
            let ghost calls = calls_of(commands@);
            let a = self.copy(0, self.pool.k_packed(block_id, layer), c);
            let b = self.copy(1, self.pool.k_norms(block_id, layer), c);
            let d = self.copy(2, self.pool.v_packed(block_id, layer), c);
            let e = self.copy(3, self.pool.v_norms(block_id, layer), c);
            push_command(&mut commands, a);
            push_command(&mut commands, b);
            push_command(&mut commands, d);
            push_command(&mut commands, e);
            proof {
                let one = packed_chunk_calls(tensors, scratch, table@, layer as int, c);
                assert(one =~= seq![a@, b@, d@, e@]);
                assert(calls_of(commands@) =~= calls + one);
            }
            i = i + 1;
        }
        assert(chunks@.take(i as int) =~= chunks@);
        run_all(backend, commands.as_slice())
    }

    /// The copy of a chunk of a scratch tensor into a block.
    fn copy<'a>(&'a self, part: usize, dst: &'a DeviceTensor, c: Chunk) -> (res: DeviceCommand<'a>)
        requires
            part < self.scratch_tensors().len(),
        ensures
            res@ == (DeviceCall::CopyRows {
                src: self.scratch_tensors()[part as int],
                dst: dst@,
                src_offset: c.written,
                dst_offset: c.offset,
                count: c.count,
            }),
    {
        DeviceCommand::CopyRows {
            src: &self.scratch[part],
            dst,
            src_offset: c.written,
            dst_offset: c.offset,
            count: c.count,
        }
    }

    /// Get the block table for a sequence.
    pub fn block_table(&self, handle: CacheHandle) -> (res: Result<&[usize]>)
        ensures
            res is Ok <==> self.sequences().contains_key(handle.0),
            res matches Ok(t) ==> t@ == self.sequences()[handle.0].table,
            res matches Err(e) ==> is_invalid_handle(e, handle),
    {
        match self.tables.get(handle) {
            Some(seq) => Ok(seq.table()),
            None => Err(invalid_handle(handle)),
        }
    }

    /// Get the current sequence length.
    pub fn seq_len(&self, handle: CacheHandle) -> (res: Result<usize>)
        ensures
            res is Ok <==> self.sequences().contains_key(handle.0),
            res matches Ok(n) ==> n == self.sequences()[handle.0].len,
            res matches Err(e) ==> is_invalid_handle(e, handle),
    {
        match self.tables.get(handle) {
            Some(seq) => Ok(seq.len()),
            None => Err(invalid_handle(handle)),
        }
    }

    /// Free all blocks for a sequence.
    pub fn free(&mut self, handle: CacheHandle) -> (res: Result<()>)
        requires
            old(self).wf(),
        ensures
            final(self).wf(),
            final(self).same_storage(old(self)),
            final(self).next_handle() == old(self).next_handle(),
            res is Ok <==> old(self).sequences().contains_key(handle.0),
            final(self).sequences() == old(self).sequences().remove(handle.0),
            final(self).blocks().free() == if res is Ok {
                old(self).blocks().free() + old(self).sequences()[handle.0].table
            } else {
                old(self).blocks().free()
            },
            res matches Err(e) ==> is_invalid_handle(e, handle),
    {
        let ghost size = self.pool.size();
        let ok: bool = self.tables.release(self.pool.free_blocks(), handle, Ghost(size));
        proof {
            self.pool.keeps_order(&old(self).pool);
        }
        if ok {
            Ok(())
        } else {
            Err(invalid_handle(handle))
        }
    }

    /// Number of free blocks available.
    pub fn num_free_blocks(&self) -> (res: usize)
        ensures
            res == self.blocks().free().len(),
    {
        self.pool.num_free()
    }

    /// Available token capacity.
    pub fn available_token_capacity(&self) -> (res: usize)
        requires
            self.blocks().free().len() * BLOCK_SIZE <= usize::MAX,
        ensures
            res == self.blocks().free().len() * BLOCK_SIZE,
    {
        self.pool.num_free() * BLOCK_SIZE
    }

    /// Access the underlying pool (for attention kernel dispatch).
    pub fn pool(&self) -> (res: &QuantizedBlockPool)
        ensures
            *res == self.blocks(),
    {
        &self.pool
    }

    /// Free all device memory: the scratch tensors, then the pool.
    pub fn destroy<B: Backend>(&self, backend: &mut B) -> (res: Result<()>)
        requires
            self.wf(),
        ensures
            ran(
                old(backend).trace(),
                final(backend).trace(),
                all_done(frees(self.scratch_tensors())) + all_done(
                    frees(self.blocks().all_tensors()),
                ),
                error_of(res),
            ),
    {
        let ghost before = backend.trace();
        let mut commands: Vec<DeviceCommand> = Vec::new();
        push_command(&mut commands, DeviceCommand::Free { tensor: &self.scratch[0] });
        push_command(&mut commands, DeviceCommand::Free { tensor: &self.scratch[1] });
        push_command(&mut commands, DeviceCommand::Free { tensor: &self.scratch[2] });
        push_command(&mut commands, DeviceCommand::Free { tensor: &self.scratch[3] });
        assert(calls_of(commands@) =~= frees(self.scratch_tensors()));
        match run_all(backend, commands.as_slice()) {
            Ok(()) => {},
            Err(e) => {
                proof {
                    ran_short(
                        before,
                        backend.trace(),
                        all_done(frees(self.scratch_tensors())),
                        all_done(frees(self.blocks().all_tensors())),
                        e,
                    );
                }
                return Err(e);
            },
        }
        let ghost middle = backend.trace();
        let res = self.pool.destroy(backend);
        proof {
            ran_then(
                before,
                middle,
                backend.trace(),
                all_done(frees(self.scratch_tensors())),
                all_done(frees(self.blocks().all_tensors())),
                error_of(res),
            );
        }
        res
    }
}

/// The layouts of the scratch tensors.
fn scratch_specs(pool: &QuantizedBlockPool, max_tokens: usize) -> (res: Vec<TensorSpec>)
    requires
        pool.wf(),
    ensures
        layouts(res@) == scratch_layouts(pool, max_tokens),
{
    let mut max_k: usize = 0;
    let mut max_v: usize = 0;
    let mut l: usize = 0;
    while l < pool.num_layers()
        invariant
            pool.wf(),
            l <= pool.layers(),
            max_k == widest(pool.key_widths(), pool.kv_heads(), pool.dim(), l as int),
            max_v == widest(pool.value_widths(), pool.kv_heads(), pool.dim(), l as int),
        decreases pool.layers() - l,
    {
        let k: usize = pool.packed_key_width(l);
        let v: usize = pool.packed_value_width(l);
        if k > max_k {
            max_k = k;
        }
        if v > max_v {
            max_v = v;
        }
        l = l + 1;
    }
    let heads: usize = pool.num_kv_heads();
    let mut specs: Vec<TensorSpec> = Vec::new();
    let a = TensorSpec { shape: shape2(max_tokens, max_k), dtype: DType::INT8 };
    let b = TensorSpec { shape: shape2(max_tokens, heads), dtype: DType::FP16 };
    let c = TensorSpec { shape: shape2(max_tokens, max_v), dtype: DType::INT8 };
    let d = TensorSpec { shape: shape2(max_tokens, heads), dtype: DType::FP16 };
    specs.push(a);
    specs.push(b);
    specs.push(c);
    specs.push(d);
    assert(layouts(specs@) =~= scratch_layouts(pool, max_tokens));
    specs
}

} // verus!
