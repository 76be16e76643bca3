//! A pipeline of compute nodes on this machine.
use crate::base::error::{FractureError, Result};
use crate::base::numeric::Half;
use crate::base::text::{decimal, numbered, push_decimal};
use crate::engine::kv_cache::{CacheHandle, KvCacheManager};
use crate::engine::node::{NodeConfig, NodeInput, NodeInputInfo, NodeOutput, NodeOutputInfo};
use crate::engine::profiling::ForwardProfile;
use vstd::prelude::*;
use vstd::slice::slice_to_vec;
use vstd::string::StringExecFns;

verus! {

/// One forward pass of a node: what went in, with which cache, and what came out.
pub struct NodePass {
    pub input: NodeInputInfo,
    pub handle: CacheHandle,
    /// The cache before the pass.
    pub cache: KvCacheManager,
    /// The cache after the pass.
    pub cache_after: KvCacheManager,
    pub output: core::result::Result<NodeOutputInfo, FractureError>,
}

/// What a result says.
pub open spec fn output_info(r: Result<NodeOutput>) -> core::result::Result<
    NodeOutputInfo,
    FractureError,
> {
    match r {
        Ok(o) => Ok(o@),
        Err(e) => Err(e),
    }
}

/// A node that executes some layers of the model.
pub trait ComputeNode {
    /// The layers of the node, for proofs; a node that is not verified leaves it as it is.
    closed spec fn place(&self) -> NodeConfig {
        NodeConfig { layer_range: core::ops::Range { start: 0, end: 0 }, total_layers: 0 }
    }

    /// The passes that the node has made so far, for proofs; a node that is not verified
    /// leaves it as it is.
    closed spec fn passes(&self) -> Seq<NodePass> {
        Seq::empty()
    }

    fn config(&self) -> (res: &NodeConfig)
        ensures
            *res == self.place(),
    ;

    /// Executes the layers of the node.
    fn forward(
        &mut self,
        input: NodeInput,
        cache: &mut KvCacheManager,
        cache_handle: CacheHandle,
        profile: Option<&mut ForwardProfile>,
    ) -> (res: Result<NodeOutput>)
        ensures
            final(self).place() == old(self).place(),
            final(self).passes() == old(self).passes().push(
                NodePass {
                    input: input@,
                    handle: cache_handle,
                    cache: *old(cache),
                    cache_after: *final(cache),
                    output: output_info(res),
                },
            ),
    ;
}

/// Node `i` begins where the node before it ends.
pub open spec fn follows(places: Seq<NodeConfig>, i: int) -> bool {
    places[i - 1].end() == places[i].start()
}

/// The nodes make a pipeline: the first one takes tokens, the last one gives logits,
/// and each one begins where the one before it ends.
pub open spec fn connected(places: Seq<NodeConfig>) -> bool {
    &&& places.len() > 0
    &&& places[0].head()
    &&& places.last().tail()
    &&& forall|i: int| 1 <= i < places.len() ==> #[trigger] follows(places, i)
}

/// What is wrong with the first node that does not begin where the one before it ends.
pub open spec fn gap_text(places: Seq<NodeConfig>, i: int) -> Seq<char> {
    "gap or overlap between node "@ + decimal((i - 1) as nat) + " (ends at "@ + decimal(
        places[i - 1].end() as nat,
    ) + ") and node "@ + decimal(i as nat) + " (starts at "@ + decimal(places[i].start() as nat)
        + ")"@
}

/// The error says what keeps the nodes from being a pipeline.
pub open spec fn is_disconnected(places: Seq<NodeConfig>, e: FractureError) -> bool {
    if places.len() == 0 {
        e.is_pipeline("pipeline must have at least one node"@)
    } else if !places[0].head() {
        e.is_pipeline("first node must be head (layer_range must start at 0)"@)
    } else if !places.last().tail() {
        e.is_pipeline("last node must be tail (layer_range must end at total_layers)"@)
    } else {
        exists|i: int|
            1 <= i < places.len() && !(#[trigger] follows(places, i)) && (forall|j: int|
                1 <= j < i ==> #[trigger] follows(places, j)) && e.is_pipeline(
                gap_text(places, i),
            )
    }
}

/// Pass `j` took what the pass before it gave; the first one took the tokens.
pub open spec fn fed(
    run: Seq<NodePass>,
    token_ids: Seq<u32>,
    positions: Seq<u32>,
    j: int,
) -> bool {
    if j == 0 {
        run[0].input == (NodeInputInfo::TokenIds { ids: token_ids, positions })
    } else {
        run[j - 1].output matches Ok(NodeOutputInfo::Activations(t)) && run[j].input == (
        NodeInputInfo::Activations { hidden_states: t, positions })
    }
}

/// What a pipeline of `n` nodes gives when `run` are the passes that were made.
pub open spec fn run_result(run: Seq<NodePass>, n: int, res: Result<Vec<Half>>) -> bool {
    match run.last().output {
        Err(e) => res matches Err(f) && f == e,
        Ok(NodeOutputInfo::Logits(logits)) => if run.len() == n {
            res matches Ok(l) && l@ == logits
        } else {
            res matches Err(f) && f.is_pipeline(
                "node "@ + decimal((run.len() - 1) as nat)
                    + " returned Logits but is not the last node"@,
            )
        },
        Ok(NodeOutputInfo::Activations(_)) => run.len() == n && (res matches Err(f)
            && f.is_pipeline("last node returned Activations instead of Logits"@)),
    }
}

/// Orchestrates a pipeline of compute nodes, chaining activations through
/// head -> middle(s) -> tail to produce logits from token IDs.
pub struct PipelineCoordinator {
    nodes: Vec<Box<dyn ComputeNode>>,
}

impl PipelineCoordinator {
    /// The layers of the nodes.
    pub closed spec fn places(&self) -> Seq<NodeConfig> {
        self.nodes@.map_values(|n: Box<dyn ComputeNode>| n.place())
    }

    /// The passes that each node has made so far.
    pub closed spec fn passes(&self) -> Seq<Seq<NodePass>> {
        self.nodes@.map_values(|n: Box<dyn ComputeNode>| n.passes())
    }

    /// The nodes make a pipeline.
    pub open spec fn wf(&self) -> bool {
        &&& connected(self.places())
        &&& self.passes().len() == self.places().len()
    }

    /// Node `j` made the pass `p`, with the cache of this number.
    pub open spec fn passed(
        self,
        after: Self,
        caches: Seq<KvCacheManager>,
        caches_after: Seq<KvCacheManager>,
        handles: Seq<CacheHandle>,
        p: NodePass,
        j: int,
    ) -> bool {
        &&& after.passes()[j] == self.passes()[j].push(p)
        &&& p.handle == handles[j]
        &&& p.cache == caches[j]
        &&& p.cache_after == caches_after[j]
    }

    /// Node `j` and its cache are as they were.
    pub open spec fn untouched(
        self,
        after: Self,
        caches: Seq<KvCacheManager>,
        caches_after: Seq<KvCacheManager>,
        j: int,
    ) -> bool {
        after.passes()[j] == self.passes()[j] && caches_after[j] == caches[j]
    }

    /// The first `run.len()` nodes made one pass each, these of `run`, each fed by the one
    /// before it, and the others made none.
    pub open spec fn made(
        self,
        after: Self,
        token_ids: Seq<u32>,
        positions: Seq<u32>,
        caches: Seq<KvCacheManager>,
        caches_after: Seq<KvCacheManager>,
        handles: Seq<CacheHandle>,
        run: Seq<NodePass>,
    ) -> bool {
        &&& forall|j: int|
            0 <= j < run.len() ==> #[trigger] self.passed(
                after,
                caches,
                caches_after,
                handles,
                run[j],
                j,
            )
        &&& forall|j: int| 0 <= j < run.len() ==> #[trigger] fed(run, token_ids, positions, j)
        &&& forall|j: int|
            run.len() <= j < self.passes().len() ==> #[trigger] self.untouched(
                after,
                caches,
                caches_after,
                j,
            )
    }

    /// Create a new coordinator with validated node ordering.
    ///
    /// Validates that:
    /// - At least one node exists
    /// - First node is head, last node is tail
    /// - Layer ranges are contiguous with no gaps or overlaps
    pub fn new(nodes: Vec<Box<dyn ComputeNode>>) -> (res: Result<Self>)
        ensures
            ({
                let places = nodes@.map_values(|n: Box<dyn ComputeNode>| n.place());
                &&& res is Ok <==> connected(places)
                &&& res matches Ok(c) ==> c.wf() && c.places() == places && c.passes()
                    == nodes@.map_values(|n: Box<dyn ComputeNode>| n.passes())
                &&& res matches Err(e) ==> is_disconnected(places, e)
            }),
    {
        let ghost places = nodes@.map_values(|n: Box<dyn ComputeNode>| n.place());
        let n: usize = nodes.len();
        if n == 0 {
            return Err(FractureError::Pipeline("pipeline must have at least one node".to_owned()));
        }
        if !nodes[0].config().is_head() {
            return Err(
                FractureError::Pipeline(
                    "first node must be head (layer_range must start at 0)".to_owned(),
                ),
            );
        }
        if !nodes[n - 1].config().is_tail() {
            return Err(
                FractureError::Pipeline(
                    "last node must be tail (layer_range must end at total_layers)".to_owned(),
                ),
            );
        }
        let mut i: usize = 1;
        while i < n
            invariant
                1 <= i <= n,
                n == nodes@.len(),
                places == nodes@.map_values(|n: Box<dyn ComputeNode>| n.place()),
                places[0].head(),
                places.last().tail(),
                forall|j: int| 1 <= j < i ==> #[trigger] follows(places, j),
            decreases n - i,
        {
            let prev_end: usize = nodes[i - 1].config().layer_range.end;
            let curr_start: usize = nodes[i].config().layer_range.start;
            assert(prev_end == places[i - 1].end());
            assert(curr_start == places[i as int].start());
            if prev_end != curr_start {
                let mut m: String = numbered("gap or overlap between node ", (i - 1) as u64);
                m.append(" (ends at ");
                push_decimal(&mut m, prev_end as u64);
                m.append(") and node ");
                push_decimal(&mut m, i as u64);
                m.append(" (starts at ");
                push_decimal(&mut m, curr_start as u64);
                m.append(")");
                assert(!follows(places, i as int));
                return Err(FractureError::Pipeline(m));
            }
            i = i + 1;
        }
        Ok(PipelineCoordinator { nodes })
    }

    /// Number of nodes in the pipeline.
    pub fn num_nodes(&self) -> (res: usize)
        ensures
            res == self.places().len(),
    {
        self.nodes.len()
    }

    /// Run a forward pass through the entire pipeline.
    ///
    /// Each node has its own `KvCacheManager` (sized for its layer range).
    /// `caches` and `cache_handles` must have the same length as the number of nodes.
    pub fn forward(
        &mut self,
        token_ids: &[u32],
        positions: &[u32],
        caches: &mut [&mut KvCacheManager],
        cache_handles: &[CacheHandle],
    ) -> (res: Result<Vec<Half>>)
        requires
            old(self).wf(),
        ensures
            final(self).wf(),
            final(self).places() == old(self).places(),
            final(caches)@.len() == old(caches)@.len(),
            ({
                let n = old(self).places().len();
                let before = Seq::new(old(caches)@.len(), |j: int| *old(caches)@[j]);
                let after = Seq::new(old(caches)@.len(), |j: int| *final(caches)@[j]);
                if old(caches)@.len() != n || cache_handles@.len() != n {
                    &&& final(self).passes() == old(self).passes()
                    &&& after == before
                    &&& res matches Err(e) && e.is_pipeline(
                        "expected "@ + decimal(n) + " caches and handles, got "@ + decimal(
                            old(caches)@.len(),
                        ) + " and "@ + decimal(cache_handles@.len()),
                    )
                } else {
                    exists|run: Seq<NodePass>|
                        0 < run.len() <= n && #[trigger] old(self).made(
                            *final(self),
                            token_ids@,
                            positions@,
                            before,
                            after,
                            cache_handles@,
                            run,
                        ) && run_result(run, n as int, res)
                }
            }),
    {
        let n: usize = self.nodes.len();
        let num_caches: usize = caches.len();
        let num_handles: usize = cache_handles.len();
        let ghost before = Seq::new(caches@.len(), |j: int| *caches@[j]);
        if num_caches != n || num_handles != n {
            let mut m: String = numbered("expected ", n as u64);
            m.append(" caches and handles, got ");
            push_decimal(&mut m, num_caches as u64);
            m.append(" and ");
            push_decimal(&mut m, num_handles as u64);
            return Err(FractureError::Pipeline(m));
        }
        let mut input = NodeInput::TokenIds {
            ids: slice_to_vec(token_ids),
            positions: slice_to_vec(positions),
        };
        let ghost mut run: Seq<NodePass> = Seq::empty();
        let ghost mut now = before;
        let mut i: usize = 0;
        while i < n
            invariant
                i <= n,
                n == self.nodes@.len(),
                n == old(self).places().len(),
                n == caches@.len(),
                n == old(caches)@.len(),
                n == cache_handles@.len(),
                n == before.len(),
                old(self).wf(),
                self.places() == old(self).places(),
                self.passes().len() == n,
                before == Seq::new(old(caches)@.len(), |j: int| *old(caches)@[j]),
                now == Seq::new(n as nat, |j: int| *caches@[j]),
                run.len() == i,
                old(self).made(*self, token_ids@, positions@, before, now, cache_handles@, run),
                i == 0 ==> input@ == (NodeInputInfo::TokenIds {
                    ids: token_ids@,
                    positions: positions@,
                }),
                i > 0 ==> i < n && (run[i - 1].output matches Ok(NodeOutputInfo::Activations(t))
                    && input@ == (NodeInputInfo::Activations {
                    hidden_states: t,
                    positions: positions@,
                })),
            decreases n - i,
        {
            let ghost me = *self;
            let ghost caches_now = now;
            let ghost given = input@;
            let output = self.nodes[i].forward(input, caches[i], cache_handles[i], None);
            proof {
                let p = NodePass {
                    input: given,
                    handle: cache_handles@[i as int],
                    cache: caches_now[i as int],
                    cache_after: *caches@[i as int],
                    output: output_info(output),
                };
                let last = run;
                run = run.push(p);
                now = Seq::new(n as nat, |j: int| *caches@[j]);
                assert(self.passes()[i as int] == me.passes()[i as int].push(p));
                assert forall|j: int| 0 <= j < n && j != i implies self.passes()[j]
                    == me.passes()[j] && now[j] == caches_now[j] by {}
                assert(self.places() =~= me.places());
                assert(old(self).untouched(me, before, caches_now, i as int));
                assert forall|j: int| 0 <= j < run.len() implies #[trigger] old(self).passed(
                    *self,
                    before,
                    now,
                    cache_handles@,
                    run[j],
                    j,
                ) by {
                    if j < i {
                        assert(old(self).passed(
                            me,
                            before,
                            caches_now,
                            cache_handles@,
                            last[j],
                            j,
                        ));
                    }
                }
                assert forall|j: int| 0 <= j < run.len() implies #[trigger] fed(
                    run,
                    token_ids@,
                    positions@,
                    j,
                ) by {
                    if j < i {
                        assert(fed(last, token_ids@, positions@, j));
                    }
                }
                assert forall|j: int| run.len() <= j < n implies #[trigger] old(self).untouched(
                    *self,
                    before,
                    now,
                    j,
                ) by {
                    assert(old(self).untouched(me, before, caches_now, j));
                }
                assert(old(self).made(
                    *self,
                    token_ids@,
                    positions@,
                    before,
                    now,
                    cache_handles@,
                    run,
                ));
            }
            match output {
                Err(e) => {
                    assert(run_result(run, n as int, Err(e)));
                    return Err(e);
                },
                Ok(NodeOutput::Logits(logits)) => {
                    if i == n - 1 {
                        return Ok(logits);
                    } else {
                        let mut m: String = numbered("node ", i as u64);
                        m.append(" returned Logits but is not the last node");
                        return Err(FractureError::Pipeline(m));
                    }
                },
                Ok(NodeOutput::Activations(tensor)) => {
                    if i == n - 1 {
                        return Err(
                            FractureError::Pipeline(
                                "last node returned Activations instead of Logits".to_owned(),
                            ),
                        );
                    }
                    input = NodeInput::Activations {
                        hidden_states: tensor,
                        positions: slice_to_vec(positions),
                    };
                },
            }
            i = i + 1;
        }
        Err(FractureError::Pipeline("no nodes in pipeline".to_owned()))
    }
}

/// A pipeline leaves no gap: every layer of the model belongs to a node.
pub proof fn pipeline_covers_layers(places: Seq<NodeConfig>, layer: int)
    requires
        connected(places),
        0 <= layer < places.last().total_layers,
    ensures
        exists|i: int|
            0 <= i < places.len() && #[trigger] places[i].start() <= layer < places[i].end(),
{
    covering_node(places, layer, places.len() - 1);
}

/// A pipeline has no overlap: a node ends before every later node begins.
pub proof fn pipeline_nodes_do_not_overlap(places: Seq<NodeConfig>, a: int, b: int)
    requires
        connected(places),
        forall|i: int| 0 <= i < places.len() ==> (#[trigger] places[i]).valid(),
        0 <= a < b < places.len(),
    ensures
        places[a].end() <= places[b].start(),
    decreases b - a,
{
    assert(follows(places, b));
    if a < b - 1 {
        pipeline_nodes_do_not_overlap(places, a, b - 1);
        assert(places[b - 1].valid());
    }
}

/// If node `k` ends beyond the layer, one of the nodes up to `k` holds it.
proof fn covering_node(places: Seq<NodeConfig>, layer: int, k: int)
    requires
        connected(places),
        0 <= layer,
        0 <= k < places.len(),
        layer < places[k].end(),
    ensures
        exists|i: int| 0 <= i <= k && #[trigger] places[i].start() <= layer < places[i].end(),
    decreases k,
{
    if places[k].start() > layer {
        assert(k > 0);
        assert(follows(places, k));
        covering_node(places, layer, k - 1);
    } else {
        assert(places[k].start() <= layer < places[k].end());
    }
}

} // verus!
