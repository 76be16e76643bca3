//! What a forward pass of one sequence is given, and the phases that do not depend
//! on the kind of cache.
use crate::base::backend::{allocated, done, Backend, DeviceCall, DeviceEvent};
use crate::base::dtype::DType;
use crate::base::error::{FractureError, Result};
use crate::base::model_config::ModelConfig;
use crate::base::program::{
    all_done, calls_of, error_of, frees, push_command, ran, ran_failed, ran_then, run_all, shape2,
    DeviceCommand,
};
use crate::base::tensor::{DeviceTensor, TensorId, TensorInfo};
use crate::base::text::{decimal, numbered, push_decimal};
use crate::engine::logits::halves;
use crate::engine::node::{NodeConfig, NodeInput, NodeInputInfo, NodeOutput, NodeOutputInfo};
use crate::engine::transformer::{
    logits_fit, output_events, produce_logits, push_scratch_frees, OutputInfo, Scratch, ScratchInfo,
};
use crate::engine::weights::{LayerWeightsInfo, WeightStore};
use vstd::prelude::*;
use vstd::string::StringExecFns;

verus! {

/// What a forward pass through some layers is given.
pub struct Pass {
    pub cfg: ModelConfig,
    pub token_embedding: TensorInfo,
    pub output_norm: TensorInfo,
    pub lm_head: TensorInfo,
    /// The weights of the layers that are executed.
    pub layers: Seq<LayerWeightsInfo>,
    /// The number of the first of those layers in the model.
    pub first: int,
    /// The layers begin with the first of the model.
    pub head: bool,
    /// The layers end with the last of the model.
    pub tail: bool,
    pub input: NodeInputInfo,
}

/// The pass of a node through `weights`, the first of which belong to layer `base`.
pub open spec fn node_pass(
    weights: WeightStore,
    base: int,
    node: NodeConfig,
    input: NodeInputInfo,
) -> Pass {
    Pass {
        cfg: weights.config,
        token_embedding: weights.token_embedding@,
        output_norm: weights.output_norm@,
        lm_head: weights.lm_head@,
        layers: Seq::new(
            (if node.start() <= node.end() {
                node.end() - node.start()
            } else {
                0
            }) as nat,
            |i: int| weights.layers@[node.start() - base + i]@,
        ),
        first: node.start() as int,
        head: node.head(),
        tail: node.tail(),
        input,
    }
}

/// The weights of the first `k` layers of the node are there.
pub open spec fn weights_cover(weights: WeightStore, base: int, node: NodeConfig, k: int) -> bool {
    k > 0 ==> base <= node.start() && node.start() - base + k <= weights.layers@.len()
}

/// The largest element.
pub open spec fn largest(s: Seq<u32>) -> u32
    decreases s.len(),
{
    if s.len() == 0 {
        0
    } else if s.len() == 1 {
        s[0]
    } else if largest(s.drop_last()) > s.last() {
        largest(s.drop_last())
    } else {
        s.last()
    }
}

impl Pass {
    /// The number of tokens.
    pub open spec fn n(self) -> usize {
        match self.input {
            NodeInputInfo::TokenIds { ids, .. } => ids.len() as usize,
            NodeInputInfo::Activations { positions, .. } => positions.len() as usize,
        }
    }

    /// The position of each token.
    pub open spec fn positions(self) -> Seq<u32> {
        self.input.positions()
    }

    /// The pass makes its own hidden state from token ids.
    pub open spec fn owned(self) -> bool {
        self.input is TokenIds
    }

    /// The input is not of the kind that the node takes.
    pub open spec fn refused(self) -> bool {
        match self.input {
            NodeInputInfo::TokenIds { ids, .. } => !self.head || ids.len() == 0,
            NodeInputInfo::Activations { .. } => self.head,
        }
    }

    /// The pass gets as far as to ask for its scratch tensors: the input is of the right
    /// kind, and all positions lie within the model.
    pub open spec fn accepted(self) -> bool {
        !self.refused() && !self.beyond()
    }

    /// The error that says why the input is refused.
    pub open spec fn is_refusal(self, e: FractureError) -> bool {
        match self.input {
            NodeInputInfo::TokenIds { .. } => if !self.head {
                e.is_pipeline("non-head node received TokenIds input"@)
            } else {
                e.is_invalid_shape("token_ids must not be empty"@)
            },
            NodeInputInfo::Activations { .. } => e.is_pipeline(
                "head node received Activations input"@,
            ),
        }
    }

    /// Some position lies beyond the longest sequence of the model.
    pub open spec fn beyond(self) -> bool {
        self.positions().len() > 0 && largest(self.positions()) >= self.cfg.max_seq_len
    }

    /// The error that says so.
    pub open spec fn is_beyond(self, e: FractureError) -> bool {
        e.is_invalid_shape(
            "position "@ + decimal(largest(self.positions()) as nat) + " exceeds max_seq_len "@
                + decimal(self.cfg.max_seq_len as nat),
        )
    }

    /// `hidden` can be the hidden state of the pass: the activations that it was
    /// given, or a tensor of its own.
    pub open spec fn can_hide(self, hidden: TensorInfo) -> bool {
        match self.input {
            NodeInputInfo::TokenIds { .. } => hidden.shape == seq![self.n(), self.cfg.hidden_size]
                && hidden.dtype == DType::FP16,
            NodeInputInfo::Activations { hidden_states, .. } => hidden == hidden_states,
        }
    }

    /// The events that make the hidden state.
    pub open spec fn input_events(self, hidden: TensorInfo) -> Seq<DeviceEvent> {
        match self.input {
            NodeInputInfo::TokenIds { ids, .. } => seq![
                allocated(hidden),
                done(
                    DeviceCall::Embedding {
                        token_ids: ids,
                        table: self.token_embedding,
                        out: hidden,
                    },
                ),
            ],
            NodeInputInfo::Activations { .. } => Seq::empty(),
        }
    }

    /// The events after the last layer: the output phase, or for a node that is
    /// not the last one the release of the scratch tensors.
    pub open spec fn end_events(self, hidden: TensorInfo, s: ScratchInfo, o: OutputInfo) -> Seq<
        DeviceEvent,
    > {
        if self.tail {
            output_events(
                self.cfg,
                self.output_norm,
                self.lm_head,
                hidden,
                self.owned(),
                s,
                self.n(),
                o,
            )
        } else {
            all_done(frees(s.list()))
        }
    }

    /// The output: logits from the last node, else the hidden state.
    pub open spec fn output(self, hidden: TensorInfo, o: OutputInfo) -> NodeOutputInfo {
        if self.tail {
            NodeOutputInfo::Logits(halves(o.bytes))
        } else {
            NodeOutputInfo::Activations(hidden)
        }
    }
}

/// The hidden state of a pass, and where its tokens stand.
pub struct Resolved {
    pub hidden: DeviceTensor,
    pub positions: Vec<u32>,
    pub n: usize,
    /// The hidden state was made by the pass.
    pub owned: bool,
}

/// Resolves the input of a node: embedding lookup, or the activations that it was
/// given. Those belong to the caller and are worked on in place.
pub(crate) fn resolve_input<B: Backend>(
    backend: &mut B,
    weights: &WeightStore,
    is_head: bool,
    input: NodeInput,
    Ghost(p): Ghost<Pass>,
) -> (res: Result<Resolved>)
    requires
        p.cfg == weights.config,
        p.token_embedding == weights.token_embedding@,
        p.head == is_head,
        p.input == input@,
    ensures
        p.refused() ==> (res matches Err(e) && p.is_refusal(e)) && final(backend).trace() == old(
            backend,
        ).trace(),
        !p.refused() ==> exists|hidden: TensorInfo|
            p.can_hide(hidden) && (res matches Ok(r) ==> {
                &&& r.hidden@ == hidden
                &&& r.positions@ == p.positions()
                &&& r.n == p.n()
                &&& r.owned == p.owned()
            }) && #[trigger] ran(
                old(backend).trace(),
                final(backend).trace(),
                p.input_events(hidden),
                error_of(res),
            ),
{
    let ghost before = backend.trace();
    match input {
        NodeInput::TokenIds { ids, positions } => {
            if !is_head {
                return Err(
                    FractureError::Pipeline("non-head node received TokenIds input".to_owned()),
                );
            }
            if ids.is_empty() {
                return Err(FractureError::InvalidShape("token_ids must not be empty".to_owned()));
            }
            let n: usize = ids.len();
            let shape = shape2(n, weights.config.hidden_size);
            let ghost t0 = TensorInfo { id: TensorId(0), shape: shape@, dtype: DType::FP16 };
            let hidden = match backend.allocate(shape.as_slice(), DType::FP16) {
                Ok(t) => t,
                Err(e) => {
                    proof {
                        ran_failed(before, p.input_events(t0), e);
                    }
                    return Err(e);
                },
            };
            let ghost full = p.input_events(hidden@);
            assert(backend.trace() =~= before + full.take(1));
            let ghost middle = backend.trace();
            let mut commands: Vec<DeviceCommand> = Vec::new();
            push_command(
                &mut commands,
                DeviceCommand::Embedding {
                    token_ids: ids.as_slice(),
                    table: &weights.token_embedding,
                    out: &hidden,
                },
            );
            let r = run_all(backend, commands.as_slice());
            proof {
                let lookup = all_done(calls_of(commands@));
                ran_then(before, middle, backend.trace(), full.take(1), lookup, error_of(r));
                assert(full.take(1) + lookup =~= full);
            }
            match r {
                Ok(_) => Ok(Resolved { hidden, positions, n, owned: true }),
                Err(e) => Err(e),
            }
        },
        NodeInput::Activations { hidden_states, positions } => {
            if is_head {
                return Err(
                    FractureError::Pipeline("head node received Activations input".to_owned()),
                );
            }
            let n: usize = positions.len();
            assert(backend.trace() =~= before + p.input_events(hidden_states@));
            assert(ran(
                before,
                backend.trace(),
                p.input_events(hidden_states@),
                None::<FractureError>,
            ));
            Ok(Resolved { hidden: hidden_states, positions, n, owned: false })
        },
    }
}

/// Checks that all positions lie within the longest sequence of the model.
pub(crate) fn check_positions(positions: &[u32], cfg: &ModelConfig, Ghost(p): Ghost<Pass>) -> (res: Result<
    (),
>)
    requires
        p.cfg == cfg,
        p.positions() == positions@,
    ensures
        res is Err <==> p.beyond(),
        res matches Err(e) ==> p.is_beyond(e),
{
    let mut max: u32 = 0;
    let mut i: usize = 0;
    while i < positions.len()
        invariant
            i <= positions@.len(),
            max == largest(positions@.take(i as int)),
        decreases positions@.len() - i,
    {
        assert(positions@.take(i + 1).drop_last() =~= positions@.take(i as int));
        if i == 0 || positions[i] >= max {
            max = positions[i];
        }
        i = i + 1;
    }
    assert(positions@.take(i as int) =~= positions@);
    if positions.len() > 0 && max as usize >= cfg.max_seq_len {
        let mut m: String = numbered("position ", max as u64);
        m.append(" exceeds max_seq_len ");
        push_decimal(&mut m, cfg.max_seq_len as u64);
        return Err(FractureError::InvalidShape(m));
    }
    Ok(())
}

/// Runs what follows the last layer of a node.
pub(crate) fn end_pass<B: Backend>(
    backend: &mut B,
    weights: &WeightStore,
    is_tail: bool,
    r: Resolved,
    s: &Scratch,
    Ghost(p): Ghost<Pass>,
) -> (res: Result<NodeOutput>)
    requires
        is_tail ==> logits_fit(weights.config),
        p.cfg == weights.config,
        p.output_norm == weights.output_norm@,
        p.lm_head == weights.lm_head@,
        p.tail == is_tail,
        r.n == p.n(),
        r.owned == p.owned(),
    ensures
        exists|o: OutputInfo|
            o.fits(p.cfg) && (res matches Ok(out) ==> out@ == p.output(r.hidden@, o))
                && #[trigger] ran(
                old(backend).trace(),
                final(backend).trace(),
                p.end_events(r.hidden@, s@, o),
                error_of(res),
            ),
{
    let ghost before = backend.trace();
    if is_tail {
        match produce_logits(backend, weights, &r.hidden, r.owned, s, r.n) {
            Ok(logits) => {
                proof {
                    let o = choose|o: OutputInfo|
                        o.fits(p.cfg) && logits@ == halves(o.bytes) && #[trigger] ran(
                            before,
                            backend.trace(),
                            output_events(
                                weights.config,
                                weights.output_norm@,
                                weights.lm_head@,
                                r.hidden@,
                                r.owned,
                                s@,
                                r.n,
                                o,
                            ),
                            None::<FractureError>,
                        );
                    assert(ran(
                        before,
                        backend.trace(),
                        p.end_events(r.hidden@, s@, o),
                        None::<FractureError>,
                    ));
                }
                Ok(NodeOutput::Logits(logits))
            },
            Err(e) => {
                proof {
                    let o = choose|o: OutputInfo|
                        o.fits(p.cfg) && #[trigger] ran(
                            before,
                            backend.trace(),
                            output_events(
                                weights.config,
                                weights.output_norm@,
                                weights.lm_head@,
                                r.hidden@,
                                r.owned,
                                s@,
                                r.n,
                                o,
                            ),
                            Some(e),
                        );
                    assert(ran(
                        before,
                        backend.trace(),
                        p.end_events(r.hidden@, s@, o),
                        Some(e),
                    ));
                }
                Err(e)
            },
        }
    } else {
        let mut commands: Vec<DeviceCommand> = Vec::new();
        push_scratch_frees(&mut commands, s);
        let e = run_all(backend, commands.as_slice());
        proof {
            assert(calls_of(commands@) =~= frees(s@.list()));
            let row = |width: usize|
                TensorInfo {
                    id: TensorId(0),
                    shape: seq![1usize, width],
                    dtype: DType::FP16,
                };
            let o = OutputInfo {
                last: row(p.cfg.hidden_size),
                logits: row(p.cfg.vocab_size),
                bytes: Seq::new((p.cfg.vocab_size * 2) as nat, |i: int| 0u8),
            };
            assert(o.fits(p.cfg));
            assert(ran(
                before,
                backend.trace(),
                p.end_events(r.hidden@, s@, o),
                error_of(e),
            ));
        }
        match e {
            Ok(_) => Ok(NodeOutput::Activations(r.hidden)),
            Err(e) => Err(e),
        }
    }
}

} // verus!
