//! The device programs that all forward passes are made of.
use crate::base::backend::{allocated, done, Backend, DeviceCall, DeviceEvent, Outcome};
use crate::base::dtype::DType;
use crate::base::error::{FractureError, Result};
use crate::base::model_config::ModelConfig;
use crate::base::numeric::Half;
use crate::base::program::{
    all_allocated, all_done, allocate_each, calls_of, error_of, frees, infos, push_command, ran,
    ran_failed, ran_short, ran_then, run_all, shape2, shaped, shapes_of, steps_of, DeviceCommand,
    Step, StepCalls,
};
use crate::base::tensor::{DeviceTensor, TensorId, TensorInfo};
use crate::engine::logits::{decode_logits, halves};
use crate::engine::weights::{LayerWeights, LayerWeightsInfo, WeightStore};
use vstd::prelude::*;

verus! {

/// Scratch tensors of a forward pass, reused across its layers.
pub struct Scratch {
    pub normed: DeviceTensor,
    pub q_flat: DeviceTensor,
    pub k_flat: DeviceTensor,
    pub v_flat: DeviceTensor,
    pub attn_out: DeviceTensor,
    pub projected: DeviceTensor,
    pub gate: DeviceTensor,
    pub up: DeviceTensor,
    pub ffn_mid: DeviceTensor,
    pub ffn_out: DeviceTensor,
}

/// Which tensors the scratch tensors are.
#[verifier::ext_equal]
pub struct ScratchInfo {
    pub normed: TensorInfo,
    pub q_flat: TensorInfo,
    pub k_flat: TensorInfo,
    pub v_flat: TensorInfo,
    pub attn_out: TensorInfo,
    pub projected: TensorInfo,
    pub gate: TensorInfo,
    pub up: TensorInfo,
    pub ffn_mid: TensorInfo,
    pub ffn_out: TensorInfo,
}

impl View for Scratch {
    type V = ScratchInfo;

    open spec fn view(&self) -> ScratchInfo {
        ScratchInfo {
            normed: self.normed@,
            q_flat: self.q_flat@,
            k_flat: self.k_flat@,
            v_flat: self.v_flat@,
            attn_out: self.attn_out@,
            projected: self.projected@,
            gate: self.gate@,
            up: self.up@,
            ffn_mid: self.ffn_mid@,
            ffn_out: self.ffn_out@,
        }
    }
}

impl ScratchInfo {
    /// The tensors in the order in which they are allocated and freed.
    pub open spec fn list(self) -> Seq<TensorInfo> {
        seq![
            self.normed,
            self.q_flat,
            self.k_flat,
            self.v_flat,
            self.attn_out,
            self.projected,
            self.gate,
            self.up,
            self.ffn_mid,
            self.ffn_out,
        ]
    }

    /// The scratch tensors listed in `ts`.
    pub open spec fn from_list(ts: Seq<TensorInfo>) -> Self {
        ScratchInfo {
            normed: ts[0],
            q_flat: ts[1],
            k_flat: ts[2],
            v_flat: ts[3],
            attn_out: ts[4],
            projected: ts[5],
            gate: ts[6],
            up: ts[7],
            ffn_mid: ts[8],
            ffn_out: ts[9],
        }
    }

    /// Some tensors of the right shapes.
    pub open spec fn blank(cfg: ModelConfig, n: usize) -> Self {
        Self::from_list(
            scratch_shapes(cfg, n).map_values(
                |shape: Seq<usize>| TensorInfo { id: TensorId(0), shape, dtype: DType::FP16 },
            ),
        )
    }

    /// The tensors have the shapes that a pass over `n` tokens needs.
    pub open spec fn fits(self, cfg: ModelConfig, n: usize) -> bool {
        shaped(self.list(), scratch_shapes(cfg, n), DType::FP16)
    }
}

/// Elements of a token's keys, or of its values.
pub open spec fn kv_width(cfg: ModelConfig) -> usize {
    (cfg.num_kv_heads * cfg.head_dim) as usize
}

/// The shapes of the scratch tensors for `n` tokens.
pub open spec fn scratch_shapes(cfg: ModelConfig, n: usize) -> Seq<Seq<usize>> {
    seq![
        seq![n, cfg.hidden_size],
        seq![n, cfg.hidden_size],
        seq![n, kv_width(cfg)],
        seq![n, kv_width(cfg)],
        seq![n, cfg.hidden_size],
        seq![n, cfg.hidden_size],
        seq![n, cfg.intermediate_size],
        seq![n, cfg.intermediate_size],
        seq![n, cfg.intermediate_size],
        seq![n, cfg.hidden_size],
    ]
}

/// The width of keys and values, which the scratch tensors have, fits in `usize`.
pub open spec fn scratch_fits(cfg: ModelConfig) -> bool {
    cfg.num_kv_heads * cfg.head_dim <= usize::MAX
}

/// The bytes of a row of logits can be counted.
pub open spec fn logits_fit(cfg: ModelConfig) -> bool {
    cfg.vocab_size * 2 <= usize::MAX
}

/// Allocates the scratch tensors for `n` tokens.
pub(crate) fn allocate_scratch<B: Backend>(backend: &mut B, cfg: &ModelConfig, n: usize) -> (res: Result<
    Scratch,
>)
    requires
        scratch_fits(*cfg),
    ensures
        exists|s: ScratchInfo|
            s.fits(*cfg, n) && (res matches Ok(r) ==> r@ == s) && #[trigger] ran(
                old(backend).trace(),
                final(backend).trace(),
                all_allocated(s.list()),
                error_of(res),
            ),
{
    let h: usize = cfg.hidden_size;
    let kv: usize = cfg.num_kv_heads * cfg.head_dim;
    let i: usize = cfg.intermediate_size;
    let mut shapes: Vec<Vec<usize>> = Vec::new();
    shapes.push(shape2(n, h));
    shapes.push(shape2(n, h));
    shapes.push(shape2(n, kv));
    shapes.push(shape2(n, kv));
    shapes.push(shape2(n, h));
    shapes.push(shape2(n, h));
    shapes.push(shape2(n, i));
    shapes.push(shape2(n, i));
    shapes.push(shape2(n, i));
    shapes.push(shape2(n, h));
    assert(shapes_of(shapes@) =~= scratch_shapes(*cfg, n));
    match allocate_each(backend, &shapes, DType::FP16) {
        Err(e) => {
            proof {
                let ts = choose|ts: Seq<TensorInfo>|
                    shaped(ts, shapes_of(shapes@), DType::FP16) && #[trigger] ran(
                        old(backend).trace(),
                        backend.trace(),
                        all_allocated(ts),
                        Some(e),
                    );
                let s = ScratchInfo::from_list(ts);
                assert(s.list() =~= ts);
                assert(ran(
                    old(backend).trace(),
                    backend.trace(),
                    all_allocated(s.list()),
                    Some(e),
                ));
            }
            Err(e)
        },
        Ok(mut v) => {
            let ghost ts = infos(v@);
            let ffn_out = v.pop().unwrap();
            let ffn_mid = v.pop().unwrap();
            let up = v.pop().unwrap();
            let gate = v.pop().unwrap();
            let projected = v.pop().unwrap();
            let attn_out = v.pop().unwrap();
            let v_flat = v.pop().unwrap();
            let k_flat = v.pop().unwrap();
            let q_flat = v.pop().unwrap();
            let normed = v.pop().unwrap();
            let s = Scratch {
                normed,
                q_flat,
                k_flat,
                v_flat,
                attn_out,
                projected,
                gate,
                up,
                ffn_mid,
                ffn_out,
            };
            assert(s@.list() =~= ts);
            assert(ran(
                old(backend).trace(),
                backend.trace(),
                all_allocated(s@.list()),
                None::<FractureError>,
            ));
            Ok(s)
        },
    }
}

/// `t` under another shape, as half-precision numbers.
pub open spec fn viewed(t: TensorInfo, shape: Seq<usize>) -> TensorInfo {
    TensorInfo { id: t.id, shape, dtype: DType::FP16 }
}

/// The scratch tensors by heads, `[n, heads, head_dim]`, and the attention output
/// by rows, `[n, hidden_size]`.
pub struct HeadViews {
    pub q: DeviceTensor,
    pub k: DeviceTensor,
    pub v: DeviceTensor,
    pub attn: DeviceTensor,
    pub attn_flat: DeviceTensor,
}

/// What the [`HeadViews`] say.
#[verifier::ext_equal]
pub struct HeadViewsInfo {
    pub q: TensorInfo,
    pub k: TensorInfo,
    pub v: TensorInfo,
    pub attn: TensorInfo,
    pub attn_flat: TensorInfo,
}

impl View for HeadViews {
    type V = HeadViewsInfo;

    open spec fn view(&self) -> HeadViewsInfo {
        HeadViewsInfo {
            q: self.q@,
            k: self.k@,
            v: self.v@,
            attn: self.attn@,
            attn_flat: self.attn_flat@,
        }
    }
}

/// The scratch tensors by heads.
pub open spec fn head_views(cfg: ModelConfig, s: ScratchInfo, n: usize) -> HeadViewsInfo {
    HeadViewsInfo {
        q: viewed(s.q_flat, seq![n, cfg.num_q_heads, cfg.head_dim]),
        k: viewed(s.k_flat, seq![n, cfg.num_kv_heads, cfg.head_dim]),
        v: viewed(s.v_flat, seq![n, cfg.num_kv_heads, cfg.head_dim]),
        attn: viewed(s.attn_out, seq![n, cfg.num_q_heads, cfg.head_dim]),
        attn_flat: viewed(s.attn_out, seq![n, cfg.hidden_size]),
    }
}

/// Makes the views by heads. They name the same device memory.
pub(crate) fn make_views(cfg: &ModelConfig, s: &Scratch, n: usize) -> (res: HeadViews)
    ensures
        res@ == head_views(*cfg, s@, n),
{
    let q = DeviceTensor::new(
        s.q_flat.id,
        vec![n, cfg.num_q_heads, cfg.head_dim],
        DType::FP16,
    );
    let k = DeviceTensor::new(
        s.k_flat.id,
        vec![n, cfg.num_kv_heads, cfg.head_dim],
        DType::FP16,
    );
    let v = DeviceTensor::new(
        s.v_flat.id,
        vec![n, cfg.num_kv_heads, cfg.head_dim],
        DType::FP16,
    );
    let attn = DeviceTensor::new(
        s.attn_out.id,
        vec![n, cfg.num_q_heads, cfg.head_dim],
        DType::FP16,
    );
    let attn_flat = DeviceTensor::new(s.attn_out.id, vec![n, cfg.hidden_size], DType::FP16);
    let res = HeadViews { q, k, v, attn, attn_flat };
    assert(res@ =~= head_views(*cfg, s@, n));
    res
}

/// The first part of a layer: norm, projections to queries, keys and values, and
/// rotary embedding.
pub open spec fn project_steps(
    cfg: ModelConfig,
    w: LayerWeightsInfo,
    hidden: TensorInfo,
    s: ScratchInfo,
    n: usize,
    positions: Seq<u32>,
) -> Seq<StepCalls> {
    let v = head_views(cfg, s, n);
    seq![
        StepCalls {
            timed: true,
            calls: seq![
                DeviceCall::Rmsnorm {
                    input: hidden,
                    weight: w.attn_norm,
                    eps: cfg.rms_norm_eps,
                    out: s.normed,
                },
            ],
        },
        StepCalls {
            timed: true,
            calls: seq![
                DeviceCall::Matmul { a: s.normed, b: w.q_proj, out: s.q_flat },
                DeviceCall::Matmul { a: s.normed, b: w.k_proj, out: s.k_flat },
                DeviceCall::Matmul { a: s.normed, b: w.v_proj, out: s.v_flat },
            ],
        },
        StepCalls {
            timed: true,
            calls: seq![
                DeviceCall::Rope {
                    q: v.q,
                    k: v.k,
                    positions,
                    theta: cfg.rope_theta,
                    head_dim: cfg.head_dim,
                },
            ],
        },
    ]
}

/// The last part of a layer: output projection and feed-forward network, each with
/// its residual connection.
pub open spec fn finish_steps(
    cfg: ModelConfig,
    w: LayerWeightsInfo,
    hidden: TensorInfo,
    s: ScratchInfo,
    n: usize,
) -> Seq<StepCalls> {
    let v = head_views(cfg, s, n);
    seq![
        StepCalls {
            timed: true,
            calls: seq![DeviceCall::Matmul { a: v.attn_flat, b: w.o_proj, out: s.projected }],
        },
        StepCalls {
            timed: false,
            calls: seq![DeviceCall::Add { a: hidden, b: s.projected, out: hidden }],
        },
        StepCalls {
            timed: true,
            calls: seq![
                DeviceCall::Rmsnorm {
                    input: hidden,
                    weight: w.ffn_norm,
                    eps: cfg.rms_norm_eps,
                    out: s.normed,
                },
            ],
        },
        StepCalls {
            timed: true,
            calls: seq![
                DeviceCall::Matmul { a: s.normed, b: w.gate_proj, out: s.gate },
                DeviceCall::Matmul { a: s.normed, b: w.up_proj, out: s.up },
            ],
        },
        StepCalls {
            timed: true,
            calls: seq![DeviceCall::SiluMul { gate: s.gate, up: s.up, out: s.ffn_mid }],
        },
        StepCalls {
            timed: true,
            calls: seq![DeviceCall::Matmul { a: s.ffn_mid, b: w.down_proj, out: s.ffn_out }],
        },
        StepCalls {
            timed: false,
            calls: seq![DeviceCall::Add { a: hidden, b: s.ffn_out, out: hidden }],
        },
    ]
}

/// A step of these commands.
pub(crate) fn step<'a>(timed: bool, commands: Vec<DeviceCommand<'a>>) -> (res: Step<'a>)
    ensures
        res@ == (StepCalls { timed, calls: calls_of(commands@) }),
{
    Step { timed, commands }
}

/// Appends the first part of a layer to `steps`.
pub(crate) fn push_project_steps<'a>(
    steps: &mut Vec<Step<'a>>,
    cfg: &ModelConfig,
    w: &'a LayerWeights,
    hidden: &'a DeviceTensor,
    s: &'a Scratch,
    v: &'a HeadViews,
    positions: &'a [u32],
    Ghost(n): Ghost<usize>,
)
    requires
        v@ == head_views(*cfg, s@, n),
    ensures
        steps_of(final(steps)@) == steps_of(old(steps)@) + project_steps(
            *cfg,
            w@,
            hidden@,
            s@,
            n,
            positions@,
        ),
{
    let a = step(
        true,
        vec![
            DeviceCommand::Rmsnorm {
                input: hidden,
                weight: &w.attn_norm,
                eps: cfg.rms_norm_eps,
                out: &s.normed,
            },
        ],
    );
    let b = step(
        true,
        vec![
            DeviceCommand::Matmul { a: &s.normed, b: &w.q_proj, out: &s.q_flat },
            DeviceCommand::Matmul { a: &s.normed, b: &w.k_proj, out: &s.k_flat },
            DeviceCommand::Matmul { a: &s.normed, b: &w.v_proj, out: &s.v_flat },
        ],
    );
    let c = step(
        true,
        vec![
            DeviceCommand::Rope {
                q: &v.q,
                k: &v.k,
                positions,
                theta: cfg.rope_theta,
                head_dim: cfg.head_dim,
            },
        ],
    );
    proof {
        let p = project_steps(*cfg, w@, hidden@, s@, n, positions@);
        assert(a@ =~= p[0]);
        assert(b@ =~= p[1]);
        assert(c@ =~= p[2]);
        assert(seq![a@, b@, c@] =~= p);
    }
    let ghost before = steps@;
    steps.push(a);
    steps.push(b);
    steps.push(c);
    assert(steps_of(steps@) =~= steps_of(before) + seq![a@, b@, c@]);
}

/// Appends the last part of a layer to `steps`.
pub(crate) fn push_finish_steps<'a>(
    steps: &mut Vec<Step<'a>>,
    cfg: &ModelConfig,
    w: &'a LayerWeights,
    hidden: &'a DeviceTensor,
    s: &'a Scratch,
    v: &'a HeadViews,
    Ghost(n): Ghost<usize>,
)
    requires
        v@ == head_views(*cfg, s@, n),
    ensures
        steps_of(final(steps)@) == steps_of(old(steps)@) + finish_steps(*cfg, w@, hidden@, s@, n),
{
    let a = step(
        true,
        vec![DeviceCommand::Matmul { a: &v.attn_flat, b: &w.o_proj, out: &s.projected }],
    );
    let b = step(false, vec![DeviceCommand::Add { a: hidden, b: &s.projected, out: hidden }]);
    let c = step(
        true,
        vec![
            DeviceCommand::Rmsnorm {
                input: hidden,
                weight: &w.ffn_norm,
                eps: cfg.rms_norm_eps,
                out: &s.normed,
            },
        ],
    );
    let d = step(
        true,
        vec![
            DeviceCommand::Matmul { a: &s.normed, b: &w.gate_proj, out: &s.gate },
            DeviceCommand::Matmul { a: &s.normed, b: &w.up_proj, out: &s.up },
        ],
    );
    let e = step(
        true,
        vec![DeviceCommand::SiluMul { gate: &s.gate, up: &s.up, out: &s.ffn_mid }],
    );
    let f = step(
        true,
        vec![DeviceCommand::Matmul { a: &s.ffn_mid, b: &w.down_proj, out: &s.ffn_out }],
    );
    let g = step(false, vec![DeviceCommand::Add { a: hidden, b: &s.ffn_out, out: hidden }]);
    proof {
        let p = finish_steps(*cfg, w@, hidden@, s@, n);
        assert(a@ =~= p[0]);
        assert(b@ =~= p[1]);
        assert(c@ =~= p[2]);
        assert(d@ =~= p[3]);
        assert(e@ =~= p[4]);
        assert(f@ =~= p[5]);
        assert(g@ =~= p[6]);
        assert(seq![a@, b@, c@, d@, e@, f@, g@] =~= p);
    }
    let ghost before = steps@;
    steps.push(a);
    steps.push(b);
    steps.push(c);
    steps.push(d);
    steps.push(e);
    steps.push(f);
    steps.push(g);
    assert(steps_of(steps@) =~= steps_of(before) + seq![a@, b@, c@, d@, e@, f@, g@]);
}

/// The events that fetch row `row` of `normed` into the new tensor `last`.
pub open spec fn fetch_events(normed: TensorInfo, row: usize, last: TensorInfo) -> Seq<
    DeviceEvent,
> {
    seq![
        allocated(last),
        done(
            DeviceCall::CopyRows {
                src: normed,
                dst: last,
                src_offset: row,
                dst_offset: 0,
                count: 1,
            },
        ),
    ]
}

/// A half-precision tensor of one row of `width` elements.
pub open spec fn is_row(t: TensorInfo, width: usize) -> bool {
    t.shape == seq![1usize, width] && t.dtype == DType::FP16
}

/// Allocates a tensor of one row of `width` elements.
fn allocate_row<B: Backend>(backend: &mut B, width: usize) -> (res: Result<DeviceTensor>)
    ensures
        exists|t: TensorInfo|
            is_row(t, width) && (res matches Ok(r) ==> r@ == t) && #[trigger] ran(
                old(backend).trace(),
                final(backend).trace(),
                seq![allocated(t)],
                error_of(res),
            ),
{
    let shape = shape2(1, width);
    let res = backend.allocate(shape.as_slice(), DType::FP16);
    proof {
        let t = if res is Ok {
            res->Ok_0@
        } else {
            TensorInfo { id: TensorId(0), shape: shape@, dtype: DType::FP16 }
        };
        match error_of(res) {
            None => {
                assert(backend.trace() =~= old(backend).trace() + seq![allocated(t)]);
            },
            Some(e) => {
                ran_failed(old(backend).trace(), seq![allocated(t)], e);
            },
        }
        assert(ran(
            old(backend).trace(),
            backend.trace(),
            seq![allocated(t)],
            error_of(res),
        ));
    }
    res
}

/// Copies one row of `normed` into a tensor of its own.
pub(crate) fn fetch_row<B: Backend>(
    backend: &mut B,
    normed: &DeviceTensor,
    row: usize,
    width: usize,
) -> (res: Result<DeviceTensor>)
    ensures
        exists|last: TensorInfo|
            is_row(last, width) && (res matches Ok(r) ==> r@ == last) && #[trigger] ran(
                old(backend).trace(),
                final(backend).trace(),
                fetch_events(normed@, row, last),
                error_of(res),
            ),
{
    let ghost before = backend.trace();
    let r = allocate_row(backend, width);
    let ghost t = choose|t: TensorInfo|
        is_row(t, width) && (r matches Ok(r) ==> r@ == t) && #[trigger] ran(
            before,
            backend.trace(),
            seq![allocated(t)],
            error_of(r),
        );
    let ghost full = fetch_events(normed@, row, t);
    let last = match r {
        Ok(last) => last,
        Err(e) => {
            proof {
                ran_short(before, backend.trace(), seq![allocated(t)], full.skip(1), e);
                assert(seq![allocated(t)] + full.skip(1) =~= full);
            }
            return Err(e);
        },
    };
    let ghost middle = backend.trace();
    let commands = vec![
        DeviceCommand::CopyRows {
            src: normed,
            dst: &last,
            src_offset: row,
            dst_offset: 0,
            count: 1,
        },
    ];
    let r = run_all(backend, commands.as_slice());
    proof {
        let copy = all_done(calls_of(commands@));
        ran_then(before, middle, backend.trace(), seq![allocated(t)], copy, error_of(r));
        assert(seq![allocated(t)] + copy =~= full);
    }
    match r {
        Ok(_) => Ok(last),
        Err(e) => Err(e),
    }
}

/// The events that multiply the row `last` with the output weights into the new
/// tensor `logits` and copy `bytes` to the host.
pub open spec fn row_events(
    last: TensorInfo,
    lm_head: TensorInfo,
    logits: TensorInfo,
    bytes: Seq<u8>,
) -> Seq<DeviceEvent> {
    seq![
        allocated(logits),
        done(DeviceCall::Matmul { a: last, b: lm_head, out: logits }),
        DeviceEvent {
            call: DeviceCall::CopyToHost { src: logits, len: bytes.len() },
            outcome: Outcome::Bytes(bytes),
        },
    ]
}

/// A row of logits and the bytes that were read from it.
pub open spec fn is_logits(cfg: ModelConfig, logits: TensorInfo, bytes: Seq<u8>) -> bool {
    is_row(logits, cfg.vocab_size) && bytes.len() == cfg.vocab_size * 2
}

/// Computes the logits of one row and reads them.
pub(crate) fn row_logits<B: Backend>(
    backend: &mut B,
    weights: &WeightStore,
    last: &DeviceTensor,
) -> (res: Result<(DeviceTensor, Vec<Half>)>)
    requires
        logits_fit(weights.config),
    ensures
        exists|logits: TensorInfo, bytes: Seq<u8>|
            is_logits(weights.config, logits, bytes) && (res matches Ok(r) ==> r.0@ == logits
                && r.1@ == halves(bytes)) && #[trigger] ran(
                old(backend).trace(),
                final(backend).trace(),
                row_events(last@, weights.lm_head@, logits, bytes),
                error_of(res),
            ),
{
    let ghost before = backend.trace();
    let ghost none = Seq::new((weights.config.vocab_size * 2) as nat, |i: int| 0u8);
    let r = allocate_row(backend, weights.config.vocab_size);
    let ghost t = choose|t: TensorInfo|
        is_row(t, weights.config.vocab_size) && (r matches Ok(r) ==> r@ == t) && #[trigger] ran(
            before,
            backend.trace(),
            seq![allocated(t)],
            error_of(r),
        );
    let ghost full = row_events(last@, weights.lm_head@, t, none);
    let logits = match r {
        Ok(logits) => logits,
        Err(e) => {
            proof {
                ran_short(before, backend.trace(), seq![allocated(t)], full.skip(1), e);
                assert(seq![allocated(t)] + full.skip(1) =~= full);
            }
            return Err(e);
        },
    };
    let ghost middle = backend.trace();
    let commands = vec![
        DeviceCommand::Matmul { a: last, b: &weights.lm_head, out: &logits },
    ];
    let r = run_all(backend, commands.as_slice());
    let ghost first = seq![allocated(t)] + all_done(calls_of(commands@));
    proof {
        let product = all_done(calls_of(commands@));
        ran_then(before, middle, backend.trace(), seq![allocated(t)], product, error_of(r));
        assert(first =~= full.take(2));
        if let Some(e) = error_of(r) {
            ran_short(before, backend.trace(), first, full.skip(2), e);
            assert(first + full.skip(2) =~= full);
        }
    }
    r?;
    let mut bytes: Vec<u8> = vec![0u8; weights.config.vocab_size * 2];
    let ghost at_copy = backend.trace();
    let r = backend.copy_to_host(&logits, bytes.as_mut_slice());
    proof {
        let got = row_events(last@, weights.lm_head@, t, bytes@);
        assert(got.take(2) =~= first);
        match error_of(r) {
            None => {
                assert(backend.trace() =~= at_copy + got.skip(2));
            },
            Some(e) => {
                ran_failed(at_copy, got.skip(2), e);
            },
        }
        ran_then(before, at_copy, backend.trace(), first, got.skip(2), error_of(r));
        assert(first + got.skip(2) =~= got);
        assert(ran(before, backend.trace(), got, error_of(r)));
    }
    match r {
        Ok(_) => Ok((logits, decode_logits(bytes.as_slice()))),
        Err(e) => Err(e),
    }
}

/// The device values that the output phase of a pass meets.
pub struct OutputInfo {
    /// The last row, where it is a tensor of its own.
    pub last: TensorInfo,
    /// The logits.
    pub logits: TensorInfo,
    /// The bytes of the logits.
    pub bytes: Seq<u8>,
}

impl OutputInfo {
    /// Some values of the right shapes and sizes.
    pub open spec fn blank(cfg: ModelConfig) -> Self {
        OutputInfo {
            last: TensorInfo {
                id: TensorId(0),
                shape: seq![1usize, cfg.hidden_size],
                dtype: DType::FP16,
            },
            logits: TensorInfo {
                id: TensorId(0),
                shape: seq![1usize, cfg.vocab_size],
                dtype: DType::FP16,
            },
            bytes: Seq::new((cfg.vocab_size * 2) as nat, |i: int| 0u8),
        }
    }

    /// The shapes and sizes are those of the model.
    pub open spec fn fits(self, cfg: ModelConfig) -> bool {
        is_row(self.last, cfg.hidden_size) && is_logits(cfg, self.logits, self.bytes)
    }
}

/// The events of the output phase of the last node: norm, logits of the last of
/// `n` tokens, and the release of all tensors of the pass. The tensor `hidden` is
/// released only where the pass owns it.
pub open spec fn output_events(
    cfg: ModelConfig,
    output_norm: TensorInfo,
    lm_head: TensorInfo,
    hidden: TensorInfo,
    owned: bool,
    s: ScratchInfo,
    n: usize,
    o: OutputInfo,
) -> Seq<DeviceEvent> {
    let last = if n > 1 {
        o.last
    } else {
        viewed(s.normed, seq![1usize, cfg.hidden_size])
    };
    seq![
        done(
            DeviceCall::Rmsnorm {
                input: hidden,
                weight: output_norm,
                eps: cfg.rms_norm_eps,
                out: s.normed,
            },
        ),
    ] + (if n > 1 {
        fetch_events(s.normed, (n - 1) as usize, o.last)
    } else {
        Seq::empty()
    }) + row_events(last, lm_head, o.logits, o.bytes) + all_done(
        seq![DeviceCall::Synchronize] + frees(output_tensors(hidden, owned, s, n, o)),
    )
}

/// The tensors that the output phase of the last node releases.
pub open spec fn output_tensors(
    hidden: TensorInfo,
    owned: bool,
    s: ScratchInfo,
    n: usize,
    o: OutputInfo,
) -> Seq<TensorInfo> {
    (if owned {
        seq![hidden]
    } else {
        Seq::empty()
    }) + s.list() + seq![o.logits] + (if n > 1 {
        seq![o.last]
    } else {
        Seq::empty()
    })
}

/// Appends the release of the scratch tensors to `commands`.
pub(crate) fn push_scratch_frees<'a>(commands: &mut Vec<DeviceCommand<'a>>, s: &'a Scratch)
    ensures
        calls_of(final(commands)@) == calls_of(old(commands)@) + frees(s@.list()),
{
    push_command(commands, DeviceCommand::Free { tensor: &s.normed });
    push_command(commands, DeviceCommand::Free { tensor: &s.q_flat });
    push_command(commands, DeviceCommand::Free { tensor: &s.k_flat });
    push_command(commands, DeviceCommand::Free { tensor: &s.v_flat });
    push_command(commands, DeviceCommand::Free { tensor: &s.attn_out });
    push_command(commands, DeviceCommand::Free { tensor: &s.projected });
    push_command(commands, DeviceCommand::Free { tensor: &s.gate });
    push_command(commands, DeviceCommand::Free { tensor: &s.up });
    push_command(commands, DeviceCommand::Free { tensor: &s.ffn_mid });
    push_command(commands, DeviceCommand::Free { tensor: &s.ffn_out });
    assert(calls_of(commands@) =~= calls_of(old(commands)@) + frees(s@.list()));
}

/// Runs the output phase of the last node.
pub(crate) fn produce_logits<B: Backend>(
    backend: &mut B,
    weights: &WeightStore,
    hidden: &DeviceTensor,
    owned: bool,
    s: &Scratch,
    n: usize,
) -> (res: Result<Vec<Half>>)
    requires
        logits_fit(weights.config),
    ensures
        exists|o: OutputInfo|
            o.fits(weights.config) && (res matches Ok(l) ==> l@ == halves(o.bytes)) && #[trigger] ran(
                old(backend).trace(),
                final(backend).trace(),
                output_events(
                    weights.config,
                    weights.output_norm@,
                    weights.lm_head@,
                    hidden@,
                    owned,
                    s@,
                    n,
                    o,
                ),
                error_of(res),
            ),
{
    let cfg = &weights.config;
    let ghost before = backend.trace();
    let ghost row = TensorInfo {
        id: TensorId(0),
        shape: seq![1usize, cfg.hidden_size],
        dtype: DType::FP16,
    };
    let ghost o0 = OutputInfo {
        last: row,
        logits: TensorInfo {
            id: TensorId(0),
            shape: seq![1usize, cfg.vocab_size],
            dtype: DType::FP16,
        },
        bytes: Seq::new((cfg.vocab_size * 2) as nat, |i: int| 0u8),
    };
    let commands = vec![
        DeviceCommand::Rmsnorm {
            input: hidden,
            weight: &weights.output_norm,
            eps: cfg.rms_norm_eps,
            out: &s.normed,
        },
    ];
    let r = run_all(backend, commands.as_slice());
    let ghost part1 = all_done(calls_of(commands@));
    proof {
        if let Some(e) = error_of(r) {
            let full = output_events(
                *cfg,
                weights.output_norm@,
                weights.lm_head@,
                hidden@,
                owned,
                s@,
                n,
                o0,
            );
            ran_short(before, backend.trace(), part1, full.skip(1), e);
            assert(part1 + full.skip(1) =~= full);
        }
    }
    r?;
    let ghost at_row = backend.trace();
    let last = if n > 1 {
        let r = fetch_row(backend, &s.normed, n - 1, cfg.hidden_size);
        proof {
            let last = choose|last: TensorInfo|
                is_row(last, cfg.hidden_size) && (r matches Ok(r) ==> r@ == last) && #[trigger] ran(
                    at_row,
                    backend.trace(),
                    fetch_events(s.normed@, (n - 1) as usize, last),
                    error_of(r),
                );
            let fetch = fetch_events(s.normed@, (n - 1) as usize, last);
            ran_then(before, at_row, backend.trace(), part1, fetch, error_of(r));
            if let Some(e) = error_of(r) {
                let o = OutputInfo { last, ..o0 };
                let full = output_events(
                    *cfg,
                    weights.output_norm@,
                    weights.lm_head@,
                    hidden@,
                    owned,
                    s@,
                    n,
                    o,
                );
                ran_short(before, backend.trace(), part1 + fetch, full.skip(3), e);
                assert(part1 + fetch + full.skip(3) =~= full);
            }
        }
        r?
    } else {
        DeviceTensor::new(s.normed.id, vec![1, cfg.hidden_size], DType::FP16)
    };
    let ghost o1 = OutputInfo {
        last: if n > 1 {
            last@
        } else {
            row
        },
        ..o0
    };
    let ghost part2 = part1 + (if n > 1 {
        fetch_events(s.normed@, (n - 1) as usize, last@)
    } else {
        Seq::empty()
    });
    assert(n <= 1 ==> last@ =~= viewed(s.normed@, seq![1usize, cfg.hidden_size]));
    assert(backend.trace() =~= before + part2);
    let ghost at_logits = backend.trace();
    let r = row_logits(backend, weights, &last);
    let ghost (lt, bytes) = choose|logits: TensorInfo, bytes: Seq<u8>|
        is_logits(*cfg, logits, bytes) && (r matches Ok(r) ==> r.0@ == logits && r.1@ == halves(
            bytes,
        )) && #[trigger] ran(
            at_logits,
            backend.trace(),
            row_events(last@, weights.lm_head@, logits, bytes),
            error_of(r),
        );
    let ghost o = OutputInfo { logits: lt, bytes, ..o1 };
    let ghost full = output_events(
        *cfg,
        weights.output_norm@,
        weights.lm_head@,
        hidden@,
        owned,
        s@,
        n,
        o,
    );
    let ghost part3 = part2 + row_events(last@, weights.lm_head@, lt, bytes);
    proof {
        let row = row_events(last@, weights.lm_head@, lt, bytes);
        ran_then(before, at_logits, backend.trace(), part2, row, error_of(r));
        if let Some(e) = error_of(r) {
            let rest = full.skip(part3.len() as int);
            ran_short(before, backend.trace(), part3, rest, e);
            assert(part3 + rest =~= full);
        }
    }
    let (logits_tensor, logits) = r?;
    let ghost at_end = backend.trace();
    let mut commands: Vec<DeviceCommand> = Vec::new();
    push_command(&mut commands, DeviceCommand::Synchronize);
    if owned {
        push_command(&mut commands, DeviceCommand::Free { tensor: hidden });
    }
    push_scratch_frees(&mut commands, s);
    push_command(&mut commands, DeviceCommand::Free { tensor: &logits_tensor });
    if n > 1 {
        push_command(&mut commands, DeviceCommand::Free { tensor: &last });
    }
    assert(calls_of(commands@) =~= seq![DeviceCall::Synchronize] + frees(
        output_tensors(hidden@, owned, s@, n, o),
    ));
    let r = run_all(backend, commands.as_slice());
    proof {
        let end = all_done(calls_of(commands@));
        ran_then(before, at_end, backend.trace(), part3, end, error_of(r));
        assert(part3 + end =~= full);
        assert(ran(before, backend.trace(), full, error_of(r)));
    }
    match r {
        Ok(_) => Ok(logits),
        Err(e) => Err(e),
    }
}

} // verus!
