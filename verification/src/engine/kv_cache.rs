//! Contiguous key/value caches: one pair of tensors per layer and sequence.
use crate::base::backend::Backend;
use crate::base::dtype::DType;
use crate::base::error::{FractureError, Result};
use crate::base::program::{
    all_allocated, all_done, allocate_each, error_of, free_each, frees, infos, ran, shape3, shaped,
    shapes_of,
};
use crate::base::tensor::{DeviceTensor, TensorInfo};
use crate::base::text::{decimal, numbered, push_decimal};
use std::collections::HashMap;
use vstd::prelude::*;
use vstd::string::StringExecFns;

verus! {

broadcast use vstd::std_specs::hash::group_hash_axioms;

/// Opaque handle to a sequence's KV cache.
#[derive(Debug, Clone, Copy, PartialEq, Eq, Hash, Structural)]
pub struct CacheHandle(pub u64);

/// The error of an operation on a handle that names no sequence.
pub open spec fn is_invalid_handle(e: FractureError, handle: CacheHandle) -> bool {
    e.is_kv_cache("invalid handle: "@ + decimal(handle.0 as nat))
}

/// The error of an operation on a handle that names no sequence.
pub(crate) fn invalid_handle(handle: CacheHandle) -> (res: FractureError)
    ensures
        is_invalid_handle(res, handle),
{
    FractureError::KvCache(numbered("invalid handle: ", handle.0))
}

/// Per-sequence cache state. The tensors alternate: K of layer 0, V of layer 0,
/// K of layer 1, and so on.
struct SequenceCache {
    tensors: Vec<DeviceTensor>,
    current_len: usize,
    max_len: usize,
}

/// What a cache holds for a sequence.
#[verifier::ext_equal]
pub struct SequenceCacheInfo {
    /// K of layer 0, V of layer 0, K of layer 1, and so on.
    pub tensors: Seq<TensorInfo>,
    pub current_len: usize,
    pub max_len: usize,
}

impl SequenceCacheInfo {
    /// The K tensor of a layer.
    pub open spec fn k(self, layer: int) -> TensorInfo {
        self.tensors[2 * layer]
    }

    /// The V tensor of a layer.
    pub open spec fn v(self, layer: int) -> TensorInfo {
        self.tensors[2 * layer + 1]
    }
}

impl SequenceCache {
    spec fn info(self) -> SequenceCacheInfo {
        SequenceCacheInfo {
            tensors: infos(self.tensors@),
            current_len: self.current_len,
            max_len: self.max_len,
        }
    }
}

/// Manages device memory for KV caches across all active sequences.
pub struct KvCacheManager {
    caches: HashMap<u64, SequenceCache>,
    next_id: u64,
    num_layers: usize,
    num_kv_heads: usize,
    head_dim: usize,
    max_seq_len: usize,
}

impl KvCacheManager {
    /// What is cached, by handle.
    pub closed spec fn sequences(&self) -> Map<u64, SequenceCacheInfo> {
        self.caches@.map_values(|c: SequenceCache| c.info())
    }

    /// The number that the next handle gets.
    pub closed spec fn next_handle(&self) -> u64 {
        self.next_id
    }

    /// Layers per sequence.
    pub closed spec fn layers(&self) -> usize {
        self.num_layers
    }

    /// The capacity of each sequence, in tokens.
    pub closed spec fn capacity(&self) -> usize {
        self.max_seq_len
    }

    /// The shape of every cache tensor.
    pub closed spec fn tensor_shape(&self) -> Seq<usize> {
        seq![self.max_seq_len, self.num_kv_heads, self.head_dim]
    }

    /// Handles are numbered below the next one; each sequence has a K and a V
    /// tensor for each layer and stays within its capacity.
    pub open spec fn wf(&self) -> bool {
        forall|id: u64| #[trigger]
            self.sequences().contains_key(id) ==> id < self.next_handle()
                && self.sequences()[id].tensors.len() == 2 * self.layers()
                && self.sequences()[id].max_len == self.capacity()
                && self.sequences()[id].current_len <= self.capacity()
    }

    /// Nothing but the sequences and the handle counter differs.
    pub open spec fn same_layout(&self, other: &Self) -> bool {
        &&& self.layers() == other.layers()
        &&& self.capacity() == other.capacity()
        &&& self.tensor_shape() == other.tensor_shape()
    }

    pub fn new(num_layers: usize, num_kv_heads: usize, head_dim: usize, max_seq_len: usize) -> (res:
        Self)
        ensures
            res.wf(),
            res.sequences() == Map::<u64, SequenceCacheInfo>::empty(),
            res.next_handle() == 0,
            res.layers() == num_layers,
            res.capacity() == max_seq_len,
            res.tensor_shape() == seq![max_seq_len, num_kv_heads, head_dim],
    {
        let res = KvCacheManager {
            caches: HashMap::new(),
            next_id: 0,
            num_layers,
            num_kv_heads,
            head_dim,
            max_seq_len,
        };
        assert(res.sequences() =~= Map::<u64, SequenceCacheInfo>::empty());
        res
    }

    /// Allocate KV cache for a new sequence.
    ///
    /// Allocates K and V of each layer in turn. Where an allocation fails, the
    /// handle number is spent and no sequence is added.
    pub fn allocate<B: Backend>(&mut self, backend: &mut B) -> (res: Result<CacheHandle>)
        requires
            old(self).wf(),
            old(self).next_handle() < u64::MAX,
        ensures
            final(self).wf(),
            final(self).same_layout(old(self)),
            final(self).next_handle() == old(self).next_handle() + 1,
            exists|ts: Seq<TensorInfo>|
                shaped(
                    ts,
                    Seq::new(
                        2 * old(self).layers() as nat,
                        |i: int| old(self).tensor_shape(),
                    ),
                    DType::FP16,
                ) && #[trigger] ran(
                    old(backend).trace(),
                    final(backend).trace(),
                    all_allocated(ts),
                    error_of(res),
                ) && final(self).sequences() == (if res is Ok {
                    old(self).sequences().insert(
                        old(self).next_handle(),
                        SequenceCacheInfo {
                            tensors: ts,
                            current_len: 0,
                            max_len: old(self).capacity(),
                        },
                    )
                } else {
                    old(self).sequences()
                }),
            res matches Ok(h) ==> h.0 == old(self).next_handle(),
    {
        let id: u64 = self.next_id;
        self.next_id = self.next_id + 1;
        let mut shapes: Vec<Vec<usize>> = Vec::new();
        let mut i: usize = 0;
        while i < self.num_layers
            invariant
                i <= self.num_layers,
                shapes_of(shapes@) =~= Seq::new(2 * i as nat, |i: int| self.tensor_shape()),
            decreases self.num_layers - i,
        {
            let ghost got = shapes@;
            let k = shape3(self.max_seq_len, self.num_kv_heads, self.head_dim);
            let v = shape3(self.max_seq_len, self.num_kv_heads, self.head_dim);
            shapes.push(k);
            shapes.push(v);
            assert(shapes_of(shapes@) =~= shapes_of(got).push(k@).push(v@));
            i = i + 1;
        }
        match allocate_each(backend, &shapes, DType::FP16) {
            Ok(tensors) => {
                let ghost ts = infos(tensors@);
                let cache = SequenceCache { tensors, current_len: 0, max_len: self.max_seq_len };
                let ghost info = cache.info();
                self.caches.insert(id, cache);
                assert(self.sequences() =~= old(self).sequences().insert(id, info));
                assert(ran(
                    old(backend).trace(),
                    backend.trace(),
                    all_allocated(ts),
                    None::<FractureError>,
                ));
                Ok(CacheHandle(id))
            },
            Err(e) => {
                assert(self.sequences() =~= old(self).sequences());
                Err(e)
            },
        }
    }

    /// Get the current sequence length for a cache.
    pub fn seq_len(&self, handle: CacheHandle) -> (res: Result<usize>)
        ensures
            res is Ok <==> self.sequences().contains_key(handle.0),
            res matches Ok(n) ==> n == self.sequences()[handle.0].current_len,
            res matches Err(e) ==> is_invalid_handle(e, handle),
    {
        match self.caches.get(&handle.0) {
            Some(c) => Ok(c.current_len),
            None => Err(invalid_handle(handle)),
        }
    }

    /// Update the sequence length after appending tokens.
    pub fn set_seq_len(&mut self, handle: CacheHandle, new_len: usize) -> (res: Result<()>)
        requires
            old(self).wf(),
        ensures
            final(self).wf(),
            final(self).same_layout(old(self)),
            final(self).next_handle() == old(self).next_handle(),
            res is Ok <==> old(self).sequences().contains_key(handle.0) && new_len <= old(
                self,
            ).sequences()[handle.0].max_len,
            final(self).sequences() == (if res is Ok {
                old(self).sequences().insert(
                    handle.0,
                    SequenceCacheInfo { current_len: new_len, ..old(self).sequences()[handle.0] },
                )
            } else {
                old(self).sequences()
            }),
            res matches Err(e) ==> if old(self).sequences().contains_key(handle.0) {
                e.is_kv_cache(
                    "seq_len "@ + decimal(new_len as nat) + " exceeds max_seq_len "@ + decimal(
                        old(self).sequences()[handle.0].max_len as nat,
                    ),
                )
            } else {
                is_invalid_handle(e, handle)
            },
    {
        match self.caches.get(&handle.0) {
            None => {
                return Err(invalid_handle(handle));
            },
            Some(c) => {
                if new_len > c.max_len {
                    let mut m: String = "seq_len ".to_owned();
                    push_decimal(&mut m, new_len as u64);
                    m.append(" exceeds max_seq_len ");
                    push_decimal(&mut m, c.max_len as u64);
                    return Err(FractureError::KvCache(m));
                }
            },
        }
        if let Some(mut c) = self.caches.remove(&handle.0) {
            c.current_len = new_len;
            let ghost info = c.info();
            self.caches.insert(handle.0, c);
            assert(self.sequences() =~= old(self).sequences().insert(handle.0, info));
        }
        Ok(())
    }

    /// Get the K cache tensor for a given layer and sequence.
    pub fn k_cache(&self, handle: CacheHandle, layer: usize) -> (res: Result<&DeviceTensor>)
        requires
            self.wf(),
            self.sequences().contains_key(handle.0) ==> layer < self.layers(),
        ensures
            res is Ok <==> self.sequences().contains_key(handle.0),
            res matches Ok(t) ==> t@ == self.sequences()[handle.0].k(layer as int),
            res matches Err(e) ==> is_invalid_handle(e, handle),
    {
        match self.caches.get(&handle.0) {
            Some(c) => {
                assert(self.sequences().contains_key(handle.0));
                assert(self.sequences()[handle.0] == c.info());
                assert(c.info().tensors.len() == c.tensors@.len());
                let n: usize = c.tensors.len();
                assert(2 * layer + 1 < n);
                Ok(&c.tensors[2 * layer])
            },
            None => Err(invalid_handle(handle)),
        }
    }

    /// Get the V cache tensor for a given layer and sequence.
    pub fn v_cache(&self, handle: CacheHandle, layer: usize) -> (res: Result<&DeviceTensor>)
        requires
            self.wf(),
            self.sequences().contains_key(handle.0) ==> layer < self.layers(),
        ensures
            res is Ok <==> self.sequences().contains_key(handle.0),
            res matches Ok(t) ==> t@ == self.sequences()[handle.0].v(layer as int),
            res matches Err(e) ==> is_invalid_handle(e, handle),
    {
        match self.caches.get(&handle.0) {
            Some(c) => {
                assert(self.sequences().contains_key(handle.0));
                assert(self.sequences()[handle.0] == c.info());
                assert(c.info().tensors.len() == c.tensors@.len());
                let n: usize = c.tensors.len();
                assert(2 * layer + 1 < n);
                Ok(&c.tensors[2 * layer + 1])
            },
            None => Err(invalid_handle(handle)),
        }
    }

    /// Free all device memory for a completed sequence.
    ///
    /// The sequence is gone even where the device refuses to free a tensor.
    pub fn free<B: Backend>(&mut self, handle: CacheHandle, backend: &mut B) -> (res: Result<()>)
        requires
            old(self).wf(),
        ensures
            final(self).wf(),
            final(self).same_layout(old(self)),
            final(self).next_handle() == old(self).next_handle(),
            final(self).sequences() == old(self).sequences().remove(handle.0),
            if old(self).sequences().contains_key(handle.0) {
                ran(
                    old(backend).trace(),
                    final(backend).trace(),
                    all_done(frees(old(self).sequences()[handle.0].tensors)),
                    error_of(res),
                )
            } else {
                final(backend).trace() == old(backend).trace() && res is Err && is_invalid_handle(
                    res->Err_0,
                    handle,
                )
            },
    {
        match self.caches.remove(&handle.0) {
            Some(c) => {
                assert(self.sequences() =~= old(self).sequences().remove(handle.0));
                free_each(backend, c.tensors.as_slice())
            },
            None => {
                assert(self.sequences() =~= old(self).sequences().remove(handle.0));
                Err(invalid_handle(handle))
            },
        }
    }
}

} // verus!
