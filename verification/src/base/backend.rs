//! The device interface.
//!
//! All device work goes through [`Backend`]. A backend has a ghost record of
//! everything that was asked of it, its [`trace`](Backend::trace); contracts in
//! this library say which calls are made, with which arguments and in which
//! order, by saying how the trace grows.
use crate::base::dtype::DType;
use crate::base::error::{FractureError, Result};
use crate::base::numeric::{Double, Single};
use crate::base::tensor::{DeviceTensor, TensorInfo};
use vstd::prelude::*;

verus! {

/// Opaque handle to a device timer.
/// The backend maps this to actual timer resources.
#[derive(Debug, Clone, Copy, PartialEq, Eq, Hash, Structural)]
pub struct DeviceTimer(pub u64);

/// One call of a backend method, with its arguments.
#[verifier::ext_equal]
pub enum DeviceCall {
    Alloc { shape: Seq<usize>, dtype: DType },
    Free { tensor: TensorInfo },
    CopyToDevice { dst: TensorInfo, data: Seq<u8> },
    CopyToHost { src: TensorInfo, len: nat },
    Matmul { a: TensorInfo, b: TensorInfo, out: TensorInfo },
    Rmsnorm { input: TensorInfo, weight: TensorInfo, eps: Double, out: TensorInfo },
    Rope { q: TensorInfo, k: TensorInfo, positions: Seq<u32>, theta: Double, head_dim: usize },
    Attention {
        q: TensorInfo,
        k_cache: TensorInfo,
        v_cache: TensorInfo,
        num_kv_heads: usize,
        start_pos: usize,
        out: TensorInfo,
    },
    AttentionPaged {
        q: TensorInfo,
        block_table: Seq<i32>,
        k_blocks: Seq<TensorInfo>,
        v_blocks: Seq<TensorInfo>,
        num_kv_heads: usize,
        kv_len: usize,
        start_pos: usize,
        out: TensorInfo,
    },
    TurboquantCompress {
        input: TensorInfo,
        rotation: TensorInfo,
        centroids: TensorInfo,
        bits: u8,
        packed_out: TensorInfo,
        norms_out: TensorInfo,
    },
    SiluMul { gate: TensorInfo, up: TensorInfo, out: TensorInfo },
    Embedding { token_ids: Seq<u32>, table: TensorInfo, out: TensorInfo },
    Add { a: TensorInfo, b: TensorInfo, out: TensorInfo },
    CopyRows {
        src: TensorInfo,
        dst: TensorInfo,
        src_offset: usize,
        dst_offset: usize,
        count: usize,
    },
    Synchronize,
    CreateTimer,
    StartTimer { timer: DeviceTimer },
    StopTimer { timer: DeviceTimer },
    DestroyTimer { timer: DeviceTimer },
    MarkerPush { name: Seq<char> },
    MarkerPop,
}

/// What a call came back with.
#[verifier::ext_equal]
pub enum Outcome {
    /// Success without a value.
    Done,
    /// The tensor that was allocated.
    Tensor(TensorInfo),
    /// The bytes that were copied to the host.
    Bytes(Seq<u8>),
    /// The timer that was created.
    Timer(DeviceTimer),
    /// Elapsed milliseconds.
    Elapsed(Single),
    /// The error that was returned.
    Failed(FractureError),
}

/// One entry of a trace.
#[verifier::ext_equal]
pub struct DeviceEvent {
    pub call: DeviceCall,
    pub outcome: Outcome,
}

/// The event of a call without a value.
pub open spec fn event(call: DeviceCall, r: Result<()>) -> DeviceEvent {
    DeviceEvent {
        call,
        outcome: match r {
            Ok(_) => Outcome::Done,
            Err(e) => Outcome::Failed(e),
        },
    }
}

/// The event of a call that succeeded without a value.
pub open spec fn done(call: DeviceCall) -> DeviceEvent {
    DeviceEvent { call, outcome: Outcome::Done }
}

/// The event of a call that failed.
pub open spec fn failed(call: DeviceCall, e: FractureError) -> DeviceEvent {
    DeviceEvent { call, outcome: Outcome::Failed(e) }
}

/// The event of an allocation that gave `t`.
pub open spec fn allocated(t: TensorInfo) -> DeviceEvent {
    DeviceEvent {
        call: DeviceCall::Alloc { shape: t.shape, dtype: t.dtype },
        outcome: Outcome::Tensor(t),
    }
}

/// What a backend without paged attention answers to [`Backend::attention_paged`].
pub fn no_paged_attention() -> (res: FractureError)
    ensures
        res.is_backend("paged attention not supported by this backend"@),
{
    FractureError::Backend("paged attention not supported by this backend".to_owned())
}

/// What a backend without compression answers to [`Backend::turboquant_compress`].
pub fn no_compression() -> (res: FractureError)
    ensures
        res.is_backend("turboquant compression not supported by this backend"@),
{
    FractureError::Backend("turboquant compression not supported by this backend".to_owned())
}

/// What the tensors of a slice of references say.
pub open spec fn tensor_infos(s: Seq<&DeviceTensor>) -> Seq<TensorInfo> {
    s.map_values(|t: &DeviceTensor| t@)
}

/// The device backend trait. All device operations go through this interface.
///
/// The engine is generic over `B: Backend`. Each backend implements this trait
/// independently; adding one requires no change to the engine.
pub trait Backend: Send + Sync {
    /// Everything that was asked of this backend so far, in order, with the answers.
    ///
    /// It is there for proofs alone; a driver that is not verified leaves it as it is.
    closed spec fn trace(&self) -> Seq<DeviceEvent> {
        Seq::empty()
    }

    /// Allocate a tensor on the device with the given shape and dtype.
    fn allocate(&mut self, shape: &[usize], dtype: DType) -> (res: Result<DeviceTensor>)
        ensures
            res matches Ok(t) ==> t@.shape == shape@ && t@.dtype == dtype && final(self).trace()
                == old(self).trace().push(allocated(t@)),
            res matches Err(e) ==> final(self).trace() == old(self).trace().push(
                failed(DeviceCall::Alloc { shape: shape@, dtype }, e),
            ),
    ;

    /// Free a device tensor. After this call the tensor id is invalid.
    fn free(&mut self, tensor: &DeviceTensor) -> (res: Result<()>)
        ensures
            final(self).trace() == old(self).trace().push(
                event(DeviceCall::Free { tensor: tensor@ }, res),
            ),
    ;

    /// Copy data from host memory to a device tensor.
    fn copy_to_device(&mut self, dst: &DeviceTensor, src: &[u8]) -> (res: Result<()>)
        ensures
            final(self).trace() == old(self).trace().push(
                event(DeviceCall::CopyToDevice { dst: dst@, data: src@ }, res),
            ),
    ;

    /// Copy data from a device tensor to host memory.
    fn copy_to_host(&mut self, src: &DeviceTensor, dst: &mut [u8]) -> (res: Result<()>)
        ensures
            final(dst)@.len() == old(dst)@.len(),
            res is Ok ==> final(self).trace() == old(self).trace().push(
                DeviceEvent {
                    call: DeviceCall::CopyToHost { src: src@, len: old(dst)@.len() },
                    outcome: Outcome::Bytes(final(dst)@),
                },
            ),
            res matches Err(e) ==> final(self).trace() == old(self).trace().push(
                failed(DeviceCall::CopyToHost { src: src@, len: old(dst)@.len() }, e),
            ),
    ;

    /// Matrix multiplication: `out = a @ b`.
    /// `a` is `[M, K]`, `b` is `[K, N]`, `out` is `[M, N]`. All row-major.
    fn matmul(&mut self, a: &DeviceTensor, b: &DeviceTensor, out: &DeviceTensor) -> (res: Result<
        (),
    >)
        ensures
            final(self).trace() == old(self).trace().push(
                event(DeviceCall::Matmul { a: a@, b: b@, out: out@ }, res),
            ),
    ;

    /// RMSNorm: `out = (x / sqrt(mean(x^2) + eps)) * weight`.
    fn rmsnorm(
        &mut self,
        input: &DeviceTensor,
        weight: &DeviceTensor,
        eps: Double,
        out: &DeviceTensor,
    ) -> (res: Result<()>)
        ensures
            final(self).trace() == old(self).trace().push(
                event(
                    DeviceCall::Rmsnorm { input: input@, weight: weight@, eps, out: out@ },
                    res,
                ),
            ),
    ;

    /// Apply rotary positional embeddings to Q and K tensors.
    /// `positions` contains the sequence position for each token.
    fn rope(
        &mut self,
        q: &DeviceTensor,
        k: &DeviceTensor,
        positions: &[u32],
        theta: Double,
        head_dim: usize,
    ) -> (res: Result<()>)
        ensures
            final(self).trace() == old(self).trace().push(
                event(
                    DeviceCall::Rope { q: q@, k: k@, positions: positions@, theta, head_dim },
                    res,
                ),
            ),
    ;

    /// Scaled dot-product attention with causal masking and grouped queries.
    /// `q` and `out` are `[N, num_q_heads, head_dim]`, the caches
    /// `[seq_len, num_kv_heads, head_dim]`.
    fn attention(
        &mut self,
        q: &DeviceTensor,
        k_cache: &DeviceTensor,
        v_cache: &DeviceTensor,
        num_kv_heads: usize,
        start_pos: usize,
        out: &DeviceTensor,
    ) -> (res: Result<()>)
        ensures
            final(self).trace() == old(self).trace().push(
                event(
                    DeviceCall::Attention {
                        q: q@,
                        k_cache: k_cache@,
                        v_cache: v_cache@,
                        num_kv_heads,
                        start_pos,
                        out: out@,
                    },
                    res,
                ),
            ),
    ;

    /// Paged attention: scaled dot-product attention reading KV data from block tables.
    ///
    /// `block_table` holds the physical block ids of this sequence, `k_blocks` and
    /// `v_blocks` each block's data for this layer, `kv_len` the total tokens across
    /// all blocks, `start_pos` the tokens before this batch (for the causal mask).
    ///
    /// A backend without it answers [`no_paged_attention`].
    fn attention_paged(
        &mut self,
        q: &DeviceTensor,
        block_table: &[i32],
        k_blocks: &[&DeviceTensor],
        v_blocks: &[&DeviceTensor],
        num_kv_heads: usize,
        kv_len: usize,
        start_pos: usize,
        out: &DeviceTensor,
    ) -> (res: Result<()>)
        ensures
            final(self).trace() == old(self).trace().push(
                event(
                    DeviceCall::AttentionPaged {
                        q: q@,
                        block_table: block_table@,
                        k_blocks: tensor_infos(k_blocks@),
                        v_blocks: tensor_infos(v_blocks@),
                        num_kv_heads,
                        kv_len,
                        start_pos,
                        out: out@,
                    },
                    res,
                ),
            ),
    ;

    /// Compress rows of `input` into packed indices and per-head norms.
    ///
    /// `rotation` is the `[head_dim, head_dim]` rotation of the layer, `centroids`
    /// the codebook for `bits`.
    ///
    /// A backend without it answers [`no_compression`].
    fn turboquant_compress(
        &mut self,
        input: &DeviceTensor,
        rotation: &DeviceTensor,
        centroids: &DeviceTensor,
        bits: u8,
        packed_out: &DeviceTensor,
        norms_out: &DeviceTensor,
    ) -> (res: Result<()>)
        ensures
            final(self).trace() == old(self).trace().push(
                event(
                    DeviceCall::TurboquantCompress {
                        input: input@,
                        rotation: rotation@,
                        centroids: centroids@,
                        bits,
                        packed_out: packed_out@,
                        norms_out: norms_out@,
                    },
                    res,
                ),
            ),
    ;

    /// Fused SiLU activation and elementwise multiply: `out = silu(gate) * up`.
    fn silu_mul(
        &mut self,
        gate: &DeviceTensor,
        up: &DeviceTensor,
        out: &DeviceTensor,
    ) -> (res: Result<()>)
        ensures
            final(self).trace() == old(self).trace().push(
                event(DeviceCall::SiluMul { gate: gate@, up: up@, out: out@ }, res),
            ),
    ;

    /// Token embedding lookup. Given token ids, gather embedding rows.
    fn embedding(
        &mut self,
        token_ids: &[u32],
        embedding_table: &DeviceTensor,
        out: &DeviceTensor,
    ) -> (res: Result<()>)
        ensures
            final(self).trace() == old(self).trace().push(
                event(
                    DeviceCall::Embedding {
                        token_ids: token_ids@,
                        table: embedding_table@,
                        out: out@,
                    },
                    res,
                ),
            ),
    ;

    /// Elementwise addition: `out = a + b`.
    fn add(&mut self, a: &DeviceTensor, b: &DeviceTensor, out: &DeviceTensor) -> (res: Result<()>)
        ensures
            final(self).trace() == old(self).trace().push(
                event(DeviceCall::Add { a: a@, b: b@, out: out@ }, res),
            ),
    ;

    /// Copy a slice of a tensor along the first dimension.
    fn copy_rows(
        &mut self,
        src: &DeviceTensor,
        dst: &DeviceTensor,
        src_offset: usize,
        dst_offset: usize,
        count: usize,
    ) -> (res: Result<()>)
        ensures
            final(self).trace() == old(self).trace().push(
                event(
                    DeviceCall::CopyRows { src: src@, dst: dst@, src_offset, dst_offset, count },
                    res,
                ),
            ),
    ;

    /// Human-readable device name.
    fn device_name(&self) -> &str;

    /// Total device memory in bytes.
    fn total_memory(&self) -> usize;

    /// Currently available device memory in bytes.
    fn available_memory(&self) -> usize;

    /// Synchronize all pending device operations.
    fn synchronize(&mut self) -> (res: Result<()>)
        ensures
            final(self).trace() == old(self).trace().push(event(DeviceCall::Synchronize, res)),
    ;

    /// Create a timer for measuring kernel execution time.
    fn create_timer(&mut self) -> (res: Result<DeviceTimer>)
        ensures
            res matches Ok(t) ==> final(self).trace() == old(self).trace().push(
                DeviceEvent { call: DeviceCall::CreateTimer, outcome: Outcome::Timer(t) },
            ),
            res matches Err(e) ==> final(self).trace() == old(self).trace().push(
                failed(DeviceCall::CreateTimer, e),
            ),
    ;

    /// Record the start timestamp on the current stream.
    fn start_timer(&mut self, timer: &DeviceTimer) -> (res: Result<()>)
        ensures
            final(self).trace() == old(self).trace().push(
                event(DeviceCall::StartTimer { timer: *timer }, res),
            ),
    ;

    /// Record the stop timestamp, synchronize, and return elapsed milliseconds.
    fn stop_timer(&mut self, timer: &DeviceTimer) -> (res: Result<Single>)
        ensures
            res matches Ok(ms) ==> final(self).trace() == old(self).trace().push(
                DeviceEvent {
                    call: DeviceCall::StopTimer { timer: *timer },
                    outcome: Outcome::Elapsed(ms),
                },
            ),
            res matches Err(e) ==> final(self).trace() == old(self).trace().push(
                failed(DeviceCall::StopTimer { timer: *timer }, e),
            ),
    ;

    /// Destroy a timer and free its resources.
    fn destroy_timer(&mut self, timer: &DeviceTimer) -> (res: Result<()>)
        ensures
            final(self).trace() == old(self).trace().push(
                event(DeviceCall::DestroyTimer { timer: *timer }, res),
            ),
    ;

    /// Push a named profiling marker.
    fn marker_push(&mut self, name: &str)
        ensures
            final(self).trace() == old(self).trace().push(
                done(DeviceCall::MarkerPush { name: name@ }),
            ),
    ;

    /// Pop the most recent profiling marker.
    fn marker_pop(&mut self)
        ensures
            final(self).trace() == old(self).trace().push(done(DeviceCall::MarkerPop)),
    ;
}

} // verus!
