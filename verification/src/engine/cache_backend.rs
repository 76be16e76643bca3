//! One cache type over the three ways of caching keys and values.
use crate::base::backend::{Backend, DeviceEvent};
use crate::base::dtype::DType;
use crate::base::error::{FractureError, Result};
use crate::base::program::{all_allocated, all_done, error_of, frees, ran, shaped};
use crate::base::tensor::TensorInfo;
use crate::engine::block_table::BlocksInfo;
use crate::engine::kv_cache::{is_invalid_handle, CacheHandle, KvCacheManager, SequenceCacheInfo};
use crate::engine::paged_kv_cache::PagedKvCacheManager;
use crate::engine::quantized_paged_kv_cache::QuantizedKvCacheManager;
use vstd::prelude::*;

verus! {

/// A key/value cache of one of the three kinds.
pub enum KvCacheBackend {
    Contiguous(KvCacheManager),
    Paged(PagedKvCacheManager),
    /// Compressed paged cache.
    QuantizedPaged(QuantizedKvCacheManager),
}

/// A sequence was added to a contiguous cache: K and V of each layer were allocated,
/// and where one of them could not be, only the handle number is spent.
pub open spec fn contiguous_added(
    a: KvCacheManager,
    b: KvCacheManager,
    before: Seq<DeviceEvent>,
    after: Seq<DeviceEvent>,
    res: Result<CacheHandle>,
) -> bool {
    &&& b.same_layout(&a)
    &&& b.next_handle() == a.next_handle() + 1
    &&& res matches Ok(h) ==> h.0 == a.next_handle()
    &&& exists|ts: Seq<TensorInfo>|
        shaped(ts, Seq::new(2 * a.layers() as nat, |i: int| a.tensor_shape()), DType::FP16)
            && #[trigger] ran(before, after, all_allocated(ts), error_of(res)) && b.sequences() == (
        if res is Ok {
            a.sequences().insert(
                a.next_handle(),
                SequenceCacheInfo { tensors: ts, current_len: 0, max_len: a.capacity() },
            )
        } else {
            a.sequences()
        })
}

/// A sequence was removed from a contiguous cache and its tensors were freed.
pub open spec fn contiguous_removed(
    a: KvCacheManager,
    b: KvCacheManager,
    handle: CacheHandle,
    before: Seq<DeviceEvent>,
    after: Seq<DeviceEvent>,
    res: Result<()>,
) -> bool {
    &&& b.same_layout(&a)
    &&& b.next_handle() == a.next_handle()
    &&& b.sequences() == a.sequences().remove(handle.0)
    &&& if a.sequences().contains_key(handle.0) {
        ran(before, after, all_done(frees(a.sequences()[handle.0].tensors)), error_of(res))
    } else {
        after == before && res is Err && is_invalid_handle(res->Err_0, handle)
    }
}

/// A sequence was added to a paged cache, with the first free block; or there is none,
/// and only the handle number is spent.
pub open spec fn paged_added(
    seqs: Map<u64, BlocksInfo>,
    free: Seq<usize>,
    next: u64,
    exhausted: FractureError,
    seqs_after: Map<u64, BlocksInfo>,
    free_after: Seq<usize>,
    next_after: u64,
    res: Result<CacheHandle>,
) -> bool {
    &&& next_after == next + 1
    &&& match res {
        Ok(h) => {
            &&& free.len() > 0
            &&& h.0 == next
            &&& free_after == free.drop_last()
            &&& seqs_after == seqs.insert(
                next,
                BlocksInfo { table: seq![free.last()], last_fill: 0, len: 0 },
            )
        },
        Err(e) => {
            &&& free.len() == 0
            &&& e == exhausted
            &&& free_after == free
            &&& seqs_after == seqs
        },
    }
}

/// A sequence was removed from a paged cache and its blocks are free.
pub open spec fn paged_removed(
    seqs: Map<u64, BlocksInfo>,
    free: Seq<usize>,
    handle: CacheHandle,
    seqs_after: Map<u64, BlocksInfo>,
    free_after: Seq<usize>,
    res: Result<()>,
) -> bool {
    &&& seqs_after == seqs.remove(handle.0)
    &&& match res {
        Ok(_) => seqs.contains_key(handle.0) && free_after == free + seqs[handle.0].table,
        Err(e) => !seqs.contains_key(handle.0) && free_after == free && is_invalid_handle(
            e,
            handle,
        ),
    }
}

impl KvCacheBackend {
    /// The cache is in order.
    pub open spec fn wf(&self) -> bool {
        match self {
            KvCacheBackend::Contiguous(c) => c.wf(),
            KvCacheBackend::Paged(p) => p.wf(),
            KvCacheBackend::QuantizedPaged(q) => q.wf(),
        }
    }

    /// The number that the next handle gets.
    pub open spec fn next_handle(&self) -> u64 {
        match self {
            KvCacheBackend::Contiguous(c) => c.next_handle(),
            KvCacheBackend::Paged(p) => p.next_handle(),
            KvCacheBackend::QuantizedPaged(q) => q.next_handle(),
        }
    }

    /// The length of each sequence, by handle.
    pub open spec fn lengths(&self) -> Map<u64, usize> {
        match self {
            KvCacheBackend::Contiguous(c) => c.sequences().map_values(
                |s: SequenceCacheInfo| s.current_len,
            ),
            KvCacheBackend::Paged(p) => p.sequences().map_values(|s: BlocksInfo| s.len),
            KvCacheBackend::QuantizedPaged(q) => q.sequences().map_values(|s: BlocksInfo| s.len),
        }
    }

    /// A sequence was added to the cache `self`, giving `after`.
    pub open spec fn added(
        self,
        after: Self,
        trace_before: Seq<DeviceEvent>,
        trace_after: Seq<DeviceEvent>,
        res: Result<CacheHandle>,
    ) -> bool {
        match (self, after) {
            (KvCacheBackend::Contiguous(a), KvCacheBackend::Contiguous(b)) => contiguous_added(
                a,
                b,
                trace_before,
                trace_after,
                res,
            ),
            (KvCacheBackend::Paged(a), KvCacheBackend::Paged(b)) => {
                &&& trace_after == trace_before
                &&& b.blocks().same_blocks(&a.blocks())
                &&& paged_added(
                    a.sequences(),
                    a.blocks().free(),
                    a.next_handle(),
                    a.blocks().exhausted(),
                    b.sequences(),
                    b.blocks().free(),
                    b.next_handle(),
                    res,
                )
            },
            (KvCacheBackend::QuantizedPaged(a), KvCacheBackend::QuantizedPaged(b)) => {
                &&& trace_after == trace_before
                &&& b.same_storage(&a)
                &&& paged_added(
                    a.sequences(),
                    a.blocks().free(),
                    a.next_handle(),
                    a.blocks().exhausted(),
                    b.sequences(),
                    b.blocks().free(),
                    b.next_handle(),
                    res,
                )
            },
            _ => false,
        }
    }

    /// A sequence was removed from the cache `self`, giving `after`.
    pub open spec fn removed(
        self,
        after: Self,
        handle: CacheHandle,
        trace_before: Seq<DeviceEvent>,
        trace_after: Seq<DeviceEvent>,
        res: Result<()>,
    ) -> bool {
        match (self, after) {
            (KvCacheBackend::Contiguous(a), KvCacheBackend::Contiguous(b)) => contiguous_removed(
                a,
                b,
                handle,
                trace_before,
                trace_after,
                res,
            ),
            (KvCacheBackend::Paged(a), KvCacheBackend::Paged(b)) => {
                &&& trace_after == trace_before
                &&& b.blocks().same_blocks(&a.blocks())
                &&& b.next_handle() == a.next_handle()
                &&& paged_removed(
                    a.sequences(),
                    a.blocks().free(),
                    handle,
                    b.sequences(),
                    b.blocks().free(),
                    res,
                )
            },
            (KvCacheBackend::QuantizedPaged(a), KvCacheBackend::QuantizedPaged(b)) => {
                &&& trace_after == trace_before
                &&& b.same_storage(&a)
                &&& b.next_handle() == a.next_handle()
                &&& paged_removed(
                    a.sequences(),
                    a.blocks().free(),
                    handle,
                    b.sequences(),
                    b.blocks().free(),
                    res,
                )
            },
            _ => false,
        }
    }

    /// Adds a sequence to a contiguous cache; other caches refuse it.
    pub fn alloc_contiguous<B: Backend>(&mut self, backend: &mut B) -> (res: Result<CacheHandle>)
        requires
            old(self).wf(),
            old(self).next_handle() < u64::MAX,
        ensures
            final(self).wf(),
            *old(self) is Contiguous ==> old(self).added(
                *final(self),
                old(backend).trace(),
                final(backend).trace(),
                res,
            ),
            !(*old(self) is Contiguous) ==> *final(self) == *old(self) && final(backend).trace()
                == old(backend).trace() && res is Err && res->Err_0.is_kv_cache(
                "alloc_contiguous called on non-contiguous cache"@,
            ),
    {
        match self {
            KvCacheBackend::Contiguous(c) => c.allocate(backend),
            _ => Err(
                FractureError::KvCache(
                    "alloc_contiguous called on non-contiguous cache".to_owned(),
                ),
            ),
        }
    }

    /// Adds a sequence to a paged cache; a contiguous cache refuses it.
    pub fn alloc_paged(&mut self) -> (res: Result<CacheHandle>)
        requires
            old(self).wf(),
            old(self).next_handle() < u64::MAX,
        ensures
            final(self).wf(),
            !(*old(self) is Contiguous) ==> old(self).added(
                *final(self),
                Seq::empty(),
                Seq::empty(),
                res,
            ),
            *old(self) is Contiguous ==> *final(self) == *old(self) && res is Err
                && res->Err_0.is_kv_cache("alloc_paged called on contiguous cache"@),
    {
        match self {
            KvCacheBackend::Paged(p) => p.allocate(),
            KvCacheBackend::QuantizedPaged(q) => q.allocate(),
            KvCacheBackend::Contiguous(_) => Err(
                FractureError::KvCache("alloc_paged called on contiguous cache".to_owned()),
            ),
        }
    }

    /// Adds a sequence.
    pub fn allocate<B: Backend>(&mut self, backend: &mut B) -> (res: Result<CacheHandle>)
        requires
            old(self).wf(),
            old(self).next_handle() < u64::MAX,
        ensures
            final(self).wf(),
            old(self).added(*final(self), old(backend).trace(), final(backend).trace(), res),
    {
        match self {
            KvCacheBackend::Contiguous(c) => c.allocate(backend),
            KvCacheBackend::Paged(p) => p.allocate(),
            KvCacheBackend::QuantizedPaged(q) => q.allocate(),
        }
    }

    /// The number of tokens cached for a sequence.
    pub fn seq_len(&self, handle: CacheHandle) -> (res: Result<usize>)
        ensures
            res is Ok <==> self.lengths().contains_key(handle.0),
            res matches Ok(n) ==> n == self.lengths()[handle.0],
            res matches Err(e) ==> is_invalid_handle(e, handle),
    {
        match self {
            KvCacheBackend::Contiguous(c) => c.seq_len(handle),
            KvCacheBackend::Paged(p) => p.seq_len(handle),
            KvCacheBackend::QuantizedPaged(q) => q.seq_len(handle),
        }
    }

    /// Removes a sequence.
    pub fn free<B: Backend>(&mut self, handle: CacheHandle, backend: &mut B) -> (res: Result<()>)
        requires
            old(self).wf(),
        ensures
            final(self).wf(),
            old(self).removed(
                *final(self),
                handle,
                old(backend).trace(),
                final(backend).trace(),
                res,
            ),
    {
        match self {
            KvCacheBackend::Contiguous(c) => c.free(handle, backend),
            KvCacheBackend::Paged(p) => p.free(handle),
            KvCacheBackend::QuantizedPaged(q) => q.free(handle),
        }
    }

    /// Whether the cache is made of blocks.
    pub fn is_paged(&self) -> (res: bool)
        ensures
            res == (self is Paged || self is QuantizedPaged),
    {
        match self {
            KvCacheBackend::Contiguous(_) => false,
            _ => true,
        }
    }

    /// Whether the cache holds compressed keys and values.
    pub fn is_quantized(&self) -> (res: bool)
        ensures
            res == (self is QuantizedPaged),
    {
        match self {
            KvCacheBackend::QuantizedPaged(_) => true,
            _ => false,
        }
    }
}

/// A sequence that was added has length 0, and no other length has changed; one that
/// was removed is gone.
pub proof fn lengths_follow(
    a: KvCacheBackend,
    b: KvCacheBackend,
    before: Seq<DeviceEvent>,
    after: Seq<DeviceEvent>,
    added: Result<CacheHandle>,
    handle: CacheHandle,
    removed: Result<()>,
)
    ensures
        a.added(b, before, after, added) ==> b.lengths() == (match added {
            Ok(h) => a.lengths().insert(h.0, 0),
            Err(_) => a.lengths(),
        }),
        a.removed(b, handle, before, after, removed) ==> b.lengths() == a.lengths().remove(
            handle.0,
        ),
{
    if a.added(b, before, after, added) {
        match added {
            Ok(h) => {
                assert(b.lengths() =~= a.lengths().insert(h.0, 0));
            },
            Err(_) => {
                assert(b.lengths() =~= a.lengths());
            },
        }
    }
    if a.removed(b, handle, before, after, removed) {
        assert(b.lengths() =~= a.lengths().remove(handle.0));
    }
}

} // verus!
