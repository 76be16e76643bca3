//! The forward pass engine.
use crate::base::backend::Backend;
use crate::base::error::{FractureError, Result};
use crate::base::model_config::ModelConfig;
use crate::base::numeric::Half;
use crate::base::program::{all_allocated, error_of, ran, ran_then};
use crate::base::tensor::TensorInfo;
use crate::engine::contiguous::{
    contiguous_end, contiguous_outcome, idle_clock, input_stops, is_too_long, layers_done,
    layers_outcome, layers_reached, layers_stop, run_layers, same_layers, setup_stops,
    ContiguousRun, ContiguousState,
};
use crate::engine::kv_cache::{CacheHandle, KvCacheManager};
use crate::engine::node::{NodeConfig, NodeInput, NodeInputInfo, NodeOutput};
use crate::engine::paged::{
    paged_end, paged_input_stops, paged_layers_done, paged_layers_stop, paged_outcome,
    paged_setup_stops, run_paged_layers, same_paged_layers, PagedRun, PagedState,
};
use crate::engine::paged_kv_cache::PagedKvCacheManager;
use crate::engine::pass::{check_positions, end_pass, node_pass, resolve_input, weights_cover, Pass};
use crate::engine::profiling::{layer_profile, profile_before, ForwardProfile, LAYER_STEPS};
use crate::engine::transformer::{
    allocate_scratch, logits_fit, scratch_fits, OutputInfo, ScratchInfo,
};
use crate::engine::weights::WeightStore;
use std::ops::Range;
use vstd::prelude::*;
use vstd::slice::slice_to_vec;

verus! {

/// The backend-agnostic transformer forward pass engine.
///
/// Dispatches all device operations through [`Backend`] methods.
///
/// The `layer_range` says which layers of the model the engine holds the weights
/// of. A pass executes the layers of its node, which lie within that range.
pub struct Engine<B: Backend> {
    backend: B,
    weights: WeightStore,
    layer_range: Range<usize>,
}

impl<B: Backend> Engine<B> {
    /// The device.
    pub closed spec fn device(&self) -> B {
        self.backend
    }

    /// The weights.
    pub closed spec fn store(&self) -> WeightStore {
        self.weights
    }

    /// The layers whose weights are held.
    pub closed spec fn range(&self) -> Range<usize> {
        self.layer_range
    }

    pub fn new(backend: B, weights: WeightStore, layer_range: Range<usize>) -> (res: Self)
        ensures
            res.device() == backend,
            res.store() == weights,
            res.range() == layer_range,
    {
        Engine { backend, weights, layer_range }
    }

    pub fn backend(&self) -> (res: &B)
        ensures
            *res == self.device(),
    {
        &self.backend
    }

    /// The device, for work beside the passes of this engine.
    pub fn backend_mut(&mut self) -> (res: &mut B)
        ensures
            *res == old(self).device(),
            final(self).device() == *final(res),
            final(self).store() == old(self).store(),
            final(self).range() == old(self).range(),
    {
        &mut self.backend
    }

    /// Consume the engine and return the backend for reuse (where the device
    /// context survives but the weights change).
    pub fn into_backend(self) -> (res: B)
        ensures
            res == self.device(),
    {
        self.backend
    }

    pub fn config(&self) -> (res: &ModelConfig)
        ensures
            *res == self.store().config,
    {
        &self.weights.config
    }

    pub fn layer_range(&self) -> (res: &Range<usize>)
        ensures
            *res == self.range(),
    {
        &self.layer_range
    }

    pub fn weights(&self) -> (res: &WeightStore)
        ensures
            *res == self.store(),
    {
        &self.weights
    }

    /// The pass of a node with some input.
    pub open spec fn pass(&self, node: NodeConfig, input: NodeInputInfo) -> Pass {
        node_pass(self.store(), self.range().start as int, node, input)
    }

    /// A pass over a contiguous cache can compute and read what it gets to: the sizes
    /// fit in `usize`, and there are weights and a cache for each layer.
    pub open spec fn can_run(
        &self,
        node: NodeConfig,
        input: NodeInputInfo,
        cache: &KvCacheManager,
        handle: CacheHandle,
    ) -> bool {
        let p = self.pass(node, input);
        let c = cache.sequences()[handle.0];
        let layers = layers_reached(p, c);
        p.accepted() ==> {
            &&& scratch_fits(p.cfg)
            &&& cache.sequences().contains_key(handle.0) ==> {
                &&& weights_cover(self.store(), self.range().start as int, node, layers)
                &&& layers <= cache.layers()
                &&& p.layers.len() > 0 ==> c.current_len + p.n() <= usize::MAX
                &&& p.tail && !is_too_long(p, c) ==> logits_fit(p.cfg)
            }
        }
    }

    /// A pass over a paged cache can compute and read what it gets to: the sizes fit in
    /// `usize`, and there are weights and a cache for each layer. A pass for which blocks
    /// are lacking gets to the first layer, and not to its cache.
    pub open spec fn can_run_paged(
        &self,
        node: NodeConfig,
        input: NodeInputInfo,
        cache: &PagedKvCacheManager,
        handle: CacheHandle,
    ) -> bool {
        let p = self.pass(node, input);
        let layers = p.layers.len() as int;
        let room = layers > 0 ==> cache.model().has_room(handle, 0, p.n() as int);
        p.accepted() ==> {
            &&& scratch_fits(p.cfg)
            &&& cache.sequences().contains_key(handle.0) ==> {
                &&& weights_cover(
                    self.store(),
                    self.range().start as int,
                    node,
                    if room {
                        layers
                    } else {
                        1
                    },
                )
                &&& room ==> {
                    &&& layers <= cache.blocks().layers()
                    &&& layers > 0 ==> cache.sequences()[handle.0].len + p.n() <= usize::MAX
                    &&& p.tail ==> logits_fit(p.cfg)
                }
            }
        }
    }

    /// The node of all layers that the engine holds.
    pub open spec fn own_node(&self) -> NodeConfig {
        NodeConfig { layer_range: self.range(), total_layers: self.store().config.num_layers }
    }

    /// Forward pass of a node.
    ///
    /// - Head node: token ids, embedding, layers, activations.
    /// - Middle node: activations, layers, activations.
    /// - Tail node: input, layers, norm and output weights, logits.
    /// - Full node (head and tail): token ids, everything, logits.
    ///
    /// With a `profile`, the steps of each layer are timed. Without one, no timers
    /// are created. Layer markers are always emitted.
    #[verifier::rlimit(30)]
    pub fn forward_node(
        &mut self,
        input: NodeInput,
        node_config: &NodeConfig,
        cache: &mut KvCacheManager,
        cache_handle: CacheHandle,
        profile: Option<&mut ForwardProfile>,
    ) -> (res: Result<NodeOutput>)
        requires
            old(cache).wf(),
            old(self).can_run(*node_config, input@, old(cache), cache_handle),
        ensures
            final(self).store() == old(self).store(),
            final(self).range() == old(self).range(),
            final(cache).wf(),
            final(cache).same_layout(old(cache)),
            final(cache).next_handle() == old(cache).next_handle(),
            contiguous_end(
                old(self).pass(*node_config, input@),
                cache_handle,
                ContiguousState {
                    seqs: old(cache).sequences(),
                    trace: old(self).device().trace(),
                    profile: profile_before(profile),
                },
                ContiguousState {
                    seqs: final(cache).sequences(),
                    trace: final(self).device().trace(),
                    profile: match profile {
                        Some(q) => Some(*final(q)),
                        None => None,
                    },
                },
                res,
            ),
    {
        let ghost p = self.pass(*node_config, input@);
        let ghost state = ContiguousState {
            seqs: cache.sequences(),
            trace: self.backend.trace(),
            profile: profile_before(profile),
        };
        let ghost start = self.backend.trace();
        let ghost c = cache.sequences()[cache_handle.0];
        let profiling: bool = profile.is_some();
        let cfg = self.weights.config;
        let ghost idle = Seq::new(p.layers.len(), |i: int| idle_clock());
        let ghost out0 = OutputInfo::blank(p.cfg);
        let ghost scratch0 = ScratchInfo::blank(p.cfg, p.n());

        // Input.
        let resolved = resolve_input(
            &mut self.backend,
            &self.weights,
            node_config.is_head(),
            input,
            Ghost(p),
        );
        let ghost hidden = choose|hidden: TensorInfo|
            p.can_hide(hidden) && (resolved matches Ok(r) ==> {
                &&& r.hidden@ == hidden
                &&& r.positions@ == p.positions()
                &&& r.n == p.n()
                &&& r.owned == p.owned()
            }) && #[trigger] ran(
                start,
                self.backend.trace(),
                p.input_events(hidden),
                error_of(resolved),
            );
        let ghost input = p.input_events(hidden);
        let ghost run0 = ContiguousRun { hidden, scratch: scratch0, clocks: idle, output: out0 };
        let r = match resolved {
            Ok(r) => r,
            Err(e) => {
                proof {
                    if !p.refused() {
                        let after = ContiguousState { trace: self.backend.trace(), ..state };
                        input_stops(p, cache_handle, run0, state, after, e);
                    }
                }
                return Err(e);
            },
        };
        if let Err(e) = check_positions(r.positions.as_slice(), &cfg, Ghost(p)) {
            proof {
                let after = ContiguousState { trace: self.backend.trace(), ..state };
                assert(contiguous_outcome(p, cache_handle, run0, state, after, Err(e)));
            }
            return Err(e);
        }

        // Scratch tensors.
        let ghost at_scratch = self.backend.trace();
        let allocated = allocate_scratch(&mut self.backend, &cfg, r.n);
        let ghost scratch = choose|s: ScratchInfo|
            s.fits(cfg, r.n) && (allocated matches Ok(t) ==> t@ == s) && #[trigger] ran(
                at_scratch,
                self.backend.trace(),
                all_allocated(s.list()),
                error_of(allocated),
            );
        let ghost run1 = ContiguousRun { scratch, ..run0 };
        proof {
            ran_then(
                start,
                at_scratch,
                self.backend.trace(),
                input,
                all_allocated(scratch.list()),
                error_of(allocated),
            );
        }
        let s = match allocated {
            Ok(s) => s,
            Err(e) => {
                proof {
                    let after = ContiguousState { trace: self.backend.trace(), ..state };
                    setup_stops(p, cache_handle, run1, state, after, e);
                }
                return Err(e);
            },
        };
        let start_pos: usize = match cache.seq_len(cache_handle) {
            Ok(n) => n,
            Err(e) => {
                proof {
                    let after = ContiguousState { trace: self.backend.trace(), ..state };
                    assert(contiguous_outcome(p, cache_handle, run1, state, after, Err(e)));
                }
                return Err(e);
            },
        };
        // Layers.
        let ghost at_layers = self.backend.trace();
        assert(at_layers == start + run1.setup(p));
        let layers = run_layers(
            &mut self.backend,
            profiling,
            &self.weights,
            self.layer_range.start,
            node_config,
            cache,
            cache_handle,
            start_pos,
            &r,
            &s,
            Ghost(p),
        );
        let ghost found = choose|run: ContiguousRun|
            run.hidden == r.hidden@ && run.scratch == s@ && run.clocks.len() == p.layers.len() && (
            forall|i: int|
                0 <= i < run.clocks.len() ==> (#[trigger] run.clocks[i]).len() == LAYER_STEPS) && (
            layers matches Ok(l) ==> (profiling ==> l@ == Seq::new(
                run.clocks.len(),
                |i: int| layer_profile(p.first + i, run.clocks[i]),
            ))) && #[trigger] layers_outcome(
                p,
                cache_handle,
                run,
                profiling,
                state.seqs,
                cache.sequences(),
                at_layers,
                self.backend.trace(),
                error_of(layers),
            );
        let ghost run2 = ContiguousRun { output: out0, ..found };
        proof {
            same_layers(
                p,
                cache_handle,
                found,
                out0,
                profiling,
                state.seqs,
                cache.sequences(),
                at_layers,
                self.backend.trace(),
                error_of(layers),
            );
        }
        let profiles = match layers {
            Ok(profiles) => profiles,
            Err(e) => {
                proof {
                    let after = ContiguousState {
                        seqs: cache.sequences(),
                        trace: self.backend.trace(),
                        ..state
                    };
                    assert(run2.fits(p));
                    layers_stop(p, cache_handle, run2, state, after, e);
                }
                return Err(e);
            },
        };
        let ghost mut kept: Option<ForwardProfile> = None;
        if let Some(q) = profile {
            q.prefill = r.n > 1;
            q.seq_len = r.n;
            q.layer_profiles = profiles;
            proof {
                kept = Some(*q);
            }
        }

        // Output.
        let ghost at_end = self.backend.trace();
        let ghost h = r.hidden@;
        let res = end_pass(
            &mut self.backend,
            &self.weights,
            node_config.is_tail(),
            r,
            &s,
            Ghost(p),
        );
        proof {
            let o = choose|o: OutputInfo|
                o.fits(p.cfg) && (res matches Ok(out) ==> out@ == p.output(h, o)) && #[trigger] ran(
                    at_end,
                    self.backend.trace(),
                    p.end_events(h, s@, o),
                    error_of(res),
                );
            let after = ContiguousState {
                seqs: cache.sequences(),
                trace: self.backend.trace(),
                profile: kept,
            };
            layers_done(p, cache_handle, run2, o, state, at_end, after, res);
            let run3 = ContiguousRun { output: o, ..run2 };
            assert(run3.fits(p));
            assert(contiguous_outcome(p, cache_handle, run3, state, after, res));
        }
        res
    }

    /// Forward pass of a node over a paged cache.
    ///
    /// As [`Engine::forward_node`], except that keys and values are appended to the
    /// cache's blocks and attention reads them through the block table.
    #[verifier::rlimit(30)]
    pub fn forward_node_paged(
        &mut self,
        input: NodeInput,
        node_config: &NodeConfig,
        cache: &mut PagedKvCacheManager,
        cache_handle: CacheHandle,
    ) -> (res: Result<NodeOutput>)
        requires
            old(cache).wf(),
            old(self).can_run_paged(*node_config, input@, old(cache), cache_handle),
        ensures
            final(self).store() == old(self).store(),
            final(self).range() == old(self).range(),
            final(cache).wf(),
            final(cache).blocks().same_blocks(&old(cache).blocks()),
            final(cache).next_handle() == old(cache).next_handle(),
            paged_end(
                old(self).pass(*node_config, input@),
                cache_handle,
                old(cache).blocks().tensors(),
                old(cache).blocks().exhausted(),
                PagedState { cache: old(cache).model(), trace: old(self).device().trace() },
                PagedState { cache: final(cache).model(), trace: final(self).device().trace() },
                res,
            ),
    {
        let ghost p = self.pass(*node_config, input@);
        let ghost state = PagedState { cache: cache.model(), trace: self.backend.trace() };
        let ghost start = self.backend.trace();
        let ghost tensors = cache.blocks().tensors();
        let ghost exhausted = cache.blocks().exhausted();
        let cfg = self.weights.config;
        let ghost out0 = OutputInfo::blank(p.cfg);

        // Input.
        let resolved = resolve_input(
            &mut self.backend,
            &self.weights,
            node_config.is_head(),
            input,
            Ghost(p),
        );
        let ghost hidden = choose|hidden: TensorInfo|
            p.can_hide(hidden) && (resolved matches Ok(r) ==> {
                &&& r.hidden@ == hidden
                &&& r.positions@ == p.positions()
                &&& r.n == p.n()
                &&& r.owned == p.owned()
            }) && #[trigger] ran(
                start,
                self.backend.trace(),
                p.input_events(hidden),
                error_of(resolved),
            );
        let ghost run0 = PagedRun {
            hidden,
            scratch: ScratchInfo::blank(p.cfg, p.n()),
            output: out0,
        };
        let r = match resolved {
            Ok(r) => r,
            Err(e) => {
                proof {
                    if !p.refused() {
                        let after = PagedState { trace: self.backend.trace(), ..state };
                        paged_input_stops(
                            p,
                            cache_handle,
                            run0,
                            tensors,
                            exhausted,
                            state,
                            after,
                            e,
                        );
                    }
                }
                return Err(e);
            },
        };
        if let Err(e) = check_positions(r.positions.as_slice(), &cfg, Ghost(p)) {
            proof {
                let after = PagedState { trace: self.backend.trace(), ..state };
                assert(paged_outcome(
                    p,
                    cache_handle,
                    run0,
                    tensors,
                    exhausted,
                    state,
                    after,
                    Err(e),
                ));
            }
            return Err(e);
        }

        // Scratch tensors.
        let ghost at_scratch = self.backend.trace();
        let allocated = allocate_scratch(&mut self.backend, &cfg, r.n);
        let ghost scratch = choose|s: ScratchInfo|
            s.fits(cfg, r.n) && (allocated matches Ok(t) ==> t@ == s) && #[trigger] ran(
                at_scratch,
                self.backend.trace(),
                all_allocated(s.list()),
                error_of(allocated),
            );
        let ghost run1 = PagedRun { scratch, ..run0 };
        proof {
            ran_then(
                start,
                at_scratch,
                self.backend.trace(),
                p.input_events(hidden),
                all_allocated(scratch.list()),
                error_of(allocated),
            );
        }
        let s = match allocated {
            Ok(s) => s,
            Err(e) => {
                proof {
                    let after = PagedState { trace: self.backend.trace(), ..state };
                    paged_setup_stops(
                        p,
                        cache_handle,
                        run1,
                        tensors,
                        exhausted,
                        state,
                        after,
                        e,
                    );
                }
                return Err(e);
            },
        };
        let start_pos: usize = match cache.seq_len(cache_handle) {
            Ok(n) => n,
            Err(e) => {
                proof {
                    let after = PagedState { trace: self.backend.trace(), ..state };
                    assert(paged_outcome(
                        p,
                        cache_handle,
                        run1,
                        tensors,
                        exhausted,
                        state,
                        after,
                        Err(e),
                    ));
                }
                return Err(e);
            },
        };

        // Layers.
        let layers = run_paged_layers(
            &mut self.backend,
            &self.weights,
            self.layer_range.start,
            node_config,
            cache,
            cache_handle,
            start_pos,
            &r,
            &s,
            Ghost(p),
            Ghost(run1),
        );
        let ghost middle = PagedState { cache: cache.model(), trace: self.backend.trace() };
        if let Err(e) = layers {
            proof {
                paged_layers_stop(p, cache_handle, run1, tensors, exhausted, state, middle, e);
            }
            return Err(e);
        }

        // Output.
        let ghost h = r.hidden@;
        let res = end_pass(
            &mut self.backend,
            &self.weights,
            node_config.is_tail(),
            r,
            &s,
            Ghost(p),
        );
        proof {
            let o = choose|o: OutputInfo|
                o.fits(p.cfg) && (res matches Ok(out) ==> out@ == p.output(h, o)) && #[trigger] ran(
                    middle.trace,
                    self.backend.trace(),
                    p.end_events(h, s@, o),
                    error_of(res),
                );
            let run2 = PagedRun { output: o, ..run1 };
            let after = PagedState { cache: cache.model(), trace: self.backend.trace() };
            same_paged_layers(
                p,
                cache_handle,
                run1,
                o,
                tensors,
                exhausted,
                PagedState { trace: start + run1.setup(p), ..state },
                middle,
                None,
            );
            paged_layers_done(
                p,
                cache_handle,
                run2,
                tensors,
                exhausted,
                state,
                middle,
                after,
                res,
            );
            assert(run2.fits(p));
        }
        res
    }

    /// Run the forward pass of all layers that the engine holds over a paged cache:
    /// token ids to logits.
    pub fn forward_paged(
        &mut self,
        token_ids: &[u32],
        positions: &[u32],
        cache: &mut PagedKvCacheManager,
        cache_handle: CacheHandle,
    ) -> (res: Result<Vec<Half>>)
        requires
            old(cache).wf(),
            old(self).own_node().valid() ==> old(self).can_run_paged(
                old(self).own_node(),
                NodeInputInfo::TokenIds { ids: token_ids@, positions: positions@ },
                old(cache),
                cache_handle,
            ),
        ensures
            final(self).store() == old(self).store(),
            final(self).range() == old(self).range(),
            final(cache).wf(),
            final(cache).blocks().same_blocks(&old(cache).blocks()),
            final(cache).next_handle() == old(cache).next_handle(),
            if old(self).own_node().valid() {
                exists|inner: Result<NodeOutput>|
                    full_result(inner, res) && #[trigger] paged_end(
                        old(self).pass(
                            old(self).own_node(),
                            NodeInputInfo::TokenIds { ids: token_ids@, positions: positions@ },
                        ),
                        cache_handle,
                        old(cache).blocks().tensors(),
                        old(cache).blocks().exhausted(),
                        PagedState { cache: old(cache).model(), trace: old(self).device().trace() },
                        PagedState {
                            cache: final(cache).model(),
                            trace: final(self).device().trace(),
                        },
                        inner,
                    )
            } else {
                &&& res matches Err(e) && old(self).own_node().is_invalid(e)
                &&& final(self).device() == old(self).device()
                &&& final(cache).model() == old(cache).model()
            },
    {
        let node_config = NodeConfig::new(
            self.layer_range.start..self.layer_range.end,
            self.weights.config.num_layers,
        )?;
        let input = NodeInput::TokenIds {
            ids: slice_to_vec(token_ids),
            positions: slice_to_vec(positions),
        };
        assert(node_config == self.own_node());
        let inner = self.forward_node_paged(input, &node_config, cache, cache_handle);
        full_logits(inner)
    }

    /// Run the forward pass of all layers that the engine holds: token ids to logits.
    ///
    /// A thin wrapper around [`Engine::forward_node`].
    pub fn forward(
        &mut self,
        token_ids: &[u32],
        positions: &[u32],
        cache: &mut KvCacheManager,
        cache_handle: CacheHandle,
        profile: Option<&mut ForwardProfile>,
    ) -> (res: Result<Vec<Half>>)
        requires
            old(cache).wf(),
            old(self).own_node().valid() ==> old(self).can_run(
                old(self).own_node(),
                NodeInputInfo::TokenIds { ids: token_ids@, positions: positions@ },
                old(cache),
                cache_handle,
            ),
        ensures
            final(self).store() == old(self).store(),
            final(self).range() == old(self).range(),
            final(cache).wf(),
            final(cache).same_layout(old(cache)),
            final(cache).next_handle() == old(cache).next_handle(),
            if old(self).own_node().valid() {
                full_end(
                    old(self).pass(
                        old(self).own_node(),
                        NodeInputInfo::TokenIds { ids: token_ids@, positions: positions@ },
                    ),
                    cache_handle,
                    ContiguousState {
                        seqs: old(cache).sequences(),
                        trace: old(self).device().trace(),
                        profile: profile_before(profile),
                    },
                    ContiguousState {
                        seqs: final(cache).sequences(),
                        trace: final(self).device().trace(),
                        profile: match profile {
                            Some(q) => Some(*final(q)),
                            None => None,
                        },
                    },
                    res,
                )
            } else {
                &&& res matches Err(e) && old(self).own_node().is_invalid(e)
                &&& final(self).device() == old(self).device()
                &&& final(cache).sequences() == old(cache).sequences()
                &&& profile matches Some(q) ==> *final(q) == *q
            },
    {
        let node_config = NodeConfig::new(
            self.layer_range.start..self.layer_range.end,
            self.weights.config.num_layers,
        )?;
        let input = NodeInput::TokenIds {
            ids: slice_to_vec(token_ids),
            positions: slice_to_vec(positions),
        };
        assert(node_config == self.own_node());
        let inner = self.forward_node(input, &node_config, cache, cache_handle, profile);
        full_logits(inner)
    }
}

/// What a pass through all layers of an engine makes of its node's result.
pub open spec fn full_result(inner: Result<NodeOutput>, res: Result<Vec<Half>>) -> bool {
    match inner {
        Ok(NodeOutput::Logits(l)) => res == Ok::<Vec<Half>, FractureError>(l),
        Ok(NodeOutput::Activations(_)) => res matches Err(e) && e.is_pipeline(
            "full forward expected Logits but got Activations"@,
        ),
        Err(e) => res == Err::<Vec<Half>, FractureError>(e),
    }
}

/// How a pass through all layers of an engine ends.
pub open spec fn full_end(
    p: Pass,
    handle: CacheHandle,
    before: ContiguousState,
    after: ContiguousState,
    res: Result<Vec<Half>>,
) -> bool {
    exists|inner: Result<NodeOutput>|
        full_result(inner, res) && #[trigger] contiguous_end(p, handle, before, after, inner)
}

fn full_logits(inner: Result<NodeOutput>) -> (res: Result<Vec<Half>>)
    ensures
        full_result(inner, res),
{
    match inner {
        Ok(NodeOutput::Logits(logits)) => Ok(logits),
        Ok(NodeOutput::Activations(_)) => Err(
            FractureError::Pipeline("full forward expected Logits but got Activations".to_owned()),
        ),
        Err(e) => Err(e),
    }
}

} // verus!
