//! Distributed pipeline orchestrator.
//!
//! Workers are asked in pipeline order, and activation tensors pass from one stage to
//! the next. The coordinator acts as the central hub: activations flow through it
//! (worker A → coordinator → worker B).
//!
//! The functions here say which worker is asked next, and what follows from what came of
//! it; asking is left to the caller.
use crate::base::error::{FractureError, Result};
use crate::base::numeric::{decode_singles, singles, Single};
use crate::base::text::{decimal, numbered, push_decimal};
use crate::coordinator::wire::{BatchedOutputWire, ForwardInputWire, ForwardOutputWire, WorkerReply};
use crate::coordinator::worker::LayerAssignment;
use std::collections::HashSet;
use vstd::prelude::*;
use vstd::slice::slice_to_vec;
use vstd::std_specs::iter::IteratorSpec;
use vstd::string::StringExecFns;

verus! {

broadcast use vstd::std_specs::hash::group_hash_axioms;

/// Where assignment `i` has to begin: behind the one before it.
pub open spec fn expected_start(assignments: Seq<LayerAssignment>, i: int) -> usize {
    if i <= 0 {
        0
    } else {
        assignments[i - 1].end()
    }
}

/// Assignment `i` begins behind the one before it and has a layer.
pub open spec fn fits_in(assignments: Seq<LayerAssignment>, i: int) -> bool {
    &&& assignments[i].start() == expected_start(assignments, i)
    &&& assignments[i].start() < assignments[i].end()
}

/// What is wrong with assignment `i`.
pub open spec fn misfit_text(assignments: Seq<LayerAssignment>, i: int) -> Seq<char> {
    let a = assignments[i];
    if a.start() != expected_start(assignments, i) {
        "non-contiguous layer ranges: expected start "@ + decimal(
            expected_start(assignments, i) as nat,
        ) + ", got "@ + decimal(a.start() as nat)
    } else {
        "empty layer range for '"@ + a.node_id@ + "': "@ + decimal(a.start() as nat) + ".."@
            + decimal(a.end() as nat)
    }
}

/// The assignments cover the layers from 0 on without gaps or overlaps.
pub open spec fn contiguous(assignments: Seq<LayerAssignment>) -> bool {
    forall|i: int| 0 <= i < assignments.len() ==> #[trigger] fits_in(assignments, i)
}

/// The error says what keeps assignments from making a pipeline: that there are none, or
/// which one is the first that does not fit in.
pub open spec fn is_misfit(assignments: Seq<LayerAssignment>, e: FractureError) -> bool {
    if assignments.len() == 0 {
        e.is_pipeline("no assignments for distributed pipeline"@)
    } else {
        exists|i: int|
            0 <= i < assignments.len() && !(#[trigger] fits_in(assignments, i)) && (forall|j: int|
                0 <= j < i ==> #[trigger] fits_in(assignments, j)) && e.is_pipeline(
                misfit_text(assignments, i),
            )
    }
}

/// A node ID in quotes between two texts.
pub open spec fn quoted(before: Seq<char>, node_id: Seq<char>, after: Seq<char>) -> Seq<char> {
    before + "'"@ + node_id + "'"@ + after
}

fn quote(before: &str, node_id: &str, after: &str) -> (res: String)
    ensures
        res@ == quoted(before@, node_id@, after@),
{
    let mut m: String = before.to_owned();
    m.append("'");
    m.append(node_id);
    m.append("'");
    m.append(after);
    m
}

/// The error that follows from a reply that is no answer. `did` says what the worker
/// failed at, `wanted` which message was expected.
pub open spec fn reply_error<T>(
    r: WorkerReply<T>,
    node_id: Seq<char>,
    did: Seq<char>,
    wanted: Seq<char>,
    e: FractureError,
) -> bool {
    match r {
        WorkerReply::Missing => e.is_pipeline(
            quoted("worker "@, node_id, " not found in registry"@),
        ),
        WorkerReply::Broken(f) => e == f,
        WorkerReply::Failed { message, code } => e.is_pipeline(
            quoted("worker "@, node_id, did) + message@ + " (code "@ + code@ + ")"@,
        ),
        WorkerReply::Unexpected { got } => e.is_protocol(
            quoted("expected "@ + wanted + " from "@, node_id, ", got "@) + got@,
        ),
        WorkerReply::Answer(_) => false,
    }
}

/// The answer, or the error that follows from the reply.
fn answer_of<T>(r: WorkerReply<T>, node_id: &str, did: &str, wanted: &str) -> (res: Result<T>)
    ensures
        res is Ok <==> r is Answer,
        res matches Ok(t) ==> r->Answer_0 == t,
        res matches Err(e) ==> reply_error(r, node_id@, did@, wanted@, e),
{
    match r {
        WorkerReply::Missing => Err(
            FractureError::Pipeline(quote("worker ", node_id, " not found in registry")),
        ),
        WorkerReply::Broken(e) => Err(e),
        WorkerReply::Failed { message, code } => {
            let mut m: String = quote("worker ", node_id, did);
            m.append(message.as_str());
            m.append(" (code ");
            m.append(code.as_str());
            m.append(")");
            Err(FractureError::Pipeline(m))
        },
        WorkerReply::Unexpected { got } => {
            let mut b: String = "expected ".to_owned();
            b.append(wanted);
            b.append(" from ");
            let mut m: String = quote(b.as_str(), node_id, ", got ");
            m.append(got.as_str());
            Err(FractureError::Protocol(m))
        },
        WorkerReply::Answer(t) => Ok(t),
    }
}

/// What is to be done next while caches are allocated.
#[derive(Debug)]
pub enum AllocStep {
    /// Ask the worker with this number to allocate.
    Ask(usize),
    /// All workers have allocated.
    Done,
    /// A worker did not allocate: the workers before this number are to free what they
    /// allocated, and the error is to be reported.
    RollBack { allocated: usize, error: FractureError },
}

/// What is to be done next while caches are freed.
#[derive(Debug)]
pub enum FreeStep {
    /// Tell the worker with this number to free.
    Ask(usize),
    /// All workers were told.
    Done,
    /// A worker could not be told.
    Failed(FractureError),
}

/// What is to be done next in a forward pass.
#[derive(Debug)]
pub enum ForwardStep {
    /// Give this input to the worker with this number.
    Ask { node: usize, input: ForwardInputWire },
    /// The pass has ended with these logits.
    Logits(Vec<Single>),
    /// The pass has failed.
    Failed(FractureError),
}

/// What is to be done next in a pass of a batch.
#[derive(Debug)]
pub enum BatchedStep {
    /// Give this input to the worker with this number.
    Ask { node: usize, input: ForwardInputWire },
    /// The pass has ended with these logits, for each sequence.
    Logits(Vec<Vec<Single>>),
    /// The pass has failed.
    Failed(FractureError),
}

/// Orchestrates forward passes across distributed workers.
pub struct DistributedPipeline {
    /// Node IDs in pipeline order (head first, tail last).
    pipeline_order: Vec<String>,
    /// Model hidden size for activation shape validation.
    hidden_size: usize,
    /// Total model layers the pipeline must cover.
    total_layers: usize,
    /// Sequence IDs that currently have allocated caches.
    allocated_seqs: HashSet<u64>,
}

impl DistributedPipeline {
    /// The node IDs, head first.
    pub closed spec fn order(&self) -> Seq<String> {
        self.pipeline_order@
    }

    /// The width of the activations.
    pub closed spec fn width(&self) -> usize {
        self.hidden_size
    }

    /// The layers that the pipeline covers.
    pub closed spec fn layers(&self) -> usize {
        self.total_layers
    }

    /// The sequences that have caches.
    pub closed spec fn allocated(&self) -> Set<u64> {
        self.allocated_seqs@
    }

    /// Nothing but the sequences that have caches differs.
    pub open spec fn same_stages(&self, other: &Self) -> bool {
        &&& self.order() == other.order()
        &&& self.width() == other.width()
        &&& self.layers() == other.layers()
    }

    /// Create a new distributed pipeline from scheduler assignments.
    ///
    /// Validates that layer ranges are contiguous starting from 0 and cover
    /// all layers without gaps or overlaps.
    pub fn new(assignments: &[LayerAssignment], hidden_size: usize) -> (res: Result<Self>)
        ensures
            res is Ok <==> assignments@.len() > 0 && contiguous(assignments@),
            res matches Ok(p) ==> {
                &&& p.order() == assignments@.map_values(|a: LayerAssignment| a.node_id)
                &&& p.width() == hidden_size
                &&& p.layers() == assignments@.last().end()
                &&& p.allocated() == Set::<u64>::empty()
            },
            res matches Err(e) ==> is_misfit(assignments@, e),
    {
        if assignments.len() == 0 {
            return Err(
                FractureError::Pipeline("no assignments for distributed pipeline".to_owned()),
            );
        }
        let ghost names = assignments@.map_values(|a: LayerAssignment| a.node_id);
        let mut order: Vec<String> = Vec::new();
        let mut expected: usize = 0;
        let mut i: usize = 0;
        while i < assignments.len()
            invariant
                i <= assignments@.len(),
                names == assignments@.map_values(|a: LayerAssignment| a.node_id),
                expected == expected_start(assignments@, i as int),
                order@ =~= names.take(i as int),
                forall|j: int| 0 <= j < i ==> #[trigger] fits_in(assignments@, j),
            decreases assignments@.len() - i,
        {
            let a = &assignments[i];
            let start: usize = a.layer_range.start;
            let end: usize = a.layer_range.end;
            if start != expected {
                let mut m: String = numbered(
                    "non-contiguous layer ranges: expected start ",
                    expected as u64,
                );
                m.append(", got ");
                push_decimal(&mut m, start as u64);
                assert(!fits_in(assignments@, i as int));
                return Err(FractureError::Pipeline(m));
            }
            if end <= start {
                let mut m: String = "empty layer range for '".to_owned();
                m.append(a.node_id.as_str());
                m.append("': ");
                push_decimal(&mut m, start as u64);
                m.append("..");
                push_decimal(&mut m, end as u64);
                assert(!fits_in(assignments@, i as int));
                return Err(FractureError::Pipeline(m));
            }
            assert(fits_in(assignments@, i as int));
            order.push(a.node_id.clone());
            expected = end;
            i = i + 1;
        }
        assert(names.take(i as int) =~= names);
        Ok(
            DistributedPipeline {
                pipeline_order: order,
                hidden_size,
                total_layers: expected,
                allocated_seqs: HashSet::new(),
            },
        )
    }

    /// A pipeline without workers.
    pub fn empty(hidden_size: usize) -> (res: Self)
        ensures
            res.order() == Seq::<String>::empty(),
            res.width() == hidden_size,
            res.layers() == 0,
            res.allocated() == Set::<u64>::empty(),
    {
        let res = DistributedPipeline {
            pipeline_order: Vec::new(),
            hidden_size,
            total_layers: 0,
            allocated_seqs: HashSet::new(),
        };
        assert(res.order() =~= Seq::<String>::empty());
        res
    }

    /// Begins to allocate caches for a new sequence on all workers.
    ///
    /// Returns an error if the sequence already has an active cache allocation.
    pub fn alloc_begin(&mut self, seq_id: u64) -> (res: Result<AllocStep>)
        ensures
            final(self).same_stages(old(self)),
            res is Err <==> old(self).allocated().contains(seq_id),
            res matches Err(e) ==> final(self).allocated() == old(self).allocated()
                && e.is_pipeline(
                "duplicate alloc_cache for seq "@ + decimal(seq_id as nat)
                    + ": cache already allocated"@,
            ),
            res matches Ok(s) ==> if old(self).order().len() == 0 {
                s is Done && final(self).allocated() == old(self).allocated().insert(seq_id)
            } else {
                s == AllocStep::Ask(0) && final(self).allocated() == old(self).allocated()
            },
    {
        if self.allocated_seqs.contains(&seq_id) {
            let mut m: String = numbered("duplicate alloc_cache for seq ", seq_id);
            m.append(": cache already allocated");
            return Err(FractureError::Pipeline(m));
        }
        if self.pipeline_order.len() == 0 {
            self.allocated_seqs.insert(seq_id);
            return Ok(AllocStep::Done);
        }
        Ok(AllocStep::Ask(0))
    }

    /// What follows from what worker `node` replied to the request to allocate: the next
    /// step, and the sequences that have caches from then on.
    pub open spec fn alloc_follows(
        &self,
        allocated_after: Set<u64>,
        seq_id: u64,
        node: int,
        reply: WorkerReply<()>,
        res: AllocStep,
    ) -> bool {
        if reply is Answer {
            if node + 1 == self.order().len() {
                res is Done && allocated_after == self.allocated().insert(seq_id)
            } else {
                res == AllocStep::Ask((node + 1) as usize) && allocated_after == self.allocated()
            }
        } else {
            &&& allocated_after == self.allocated()
            &&& res matches AllocStep::RollBack { allocated, error } && allocated == node
                && reply_error(
                reply,
                self.order()[node]@,
                " failed CacheAlloc: "@,
                "CacheAllocAck"@,
                error,
            )
        }
    }

    /// What follows when worker `node` replied to the request to allocate.
    ///
    /// The sequence has its caches once all workers have allocated. If allocation fails on
    /// any worker, the caches on the workers before it are to be freed, to prevent memory
    /// leaks.
    pub fn alloc_step(&mut self, seq_id: u64, node: usize, reply: WorkerReply<()>) -> (res:
        AllocStep)
        requires
            node < old(self).order().len(),
        ensures
            final(self).same_stages(old(self)),
            old(self).alloc_follows(final(self).allocated(), seq_id, node as int, reply, res),
    {
        let node_id = self.pipeline_order[node].as_str();
        match answer_of(reply, node_id, " failed CacheAlloc: ", "CacheAllocAck") {
            Err(error) => AllocStep::RollBack { allocated: node, error },
            Ok(()) => {
                if node == self.pipeline_order.len() - 1 {
                    self.allocated_seqs.insert(seq_id);
                    AllocStep::Done
                } else {
                    AllocStep::Ask(node + 1)
                }
            },
        }
    }

    /// Begins to free the caches of a completed sequence.
    ///
    /// Returns an error if the sequence was never allocated or was already freed.
    pub fn free_begin(&mut self, seq_id: u64) -> (res: Result<FreeStep>)
        ensures
            final(self).same_stages(old(self)),
            final(self).allocated() == old(self).allocated().remove(seq_id),
            res is Ok <==> old(self).allocated().contains(seq_id),
            res matches Err(e) ==> e.is_pipeline(
                "free_cache for seq "@ + decimal(seq_id as nat)
                    + ": not allocated or already freed"@,
            ),
            res matches Ok(s) ==> s == (if old(self).order().len() == 0 {
                FreeStep::Done
            } else {
                FreeStep::Ask(0)
            }),
    {
        if !self.allocated_seqs.remove(&seq_id) {
            let mut m: String = numbered("free_cache for seq ", seq_id);
            m.append(": not allocated or already freed");
            return Err(FractureError::Pipeline(m));
        }
        if self.pipeline_order.len() == 0 {
            Ok(FreeStep::Done)
        } else {
            Ok(FreeStep::Ask(0))
        }
    }

    /// What follows when worker `node` was told to free. No answer is waited for.
    pub fn free_step(&self, node: usize, reply: WorkerReply<()>) -> (res: FreeStep)
        requires
            node < self.order().len(),
        ensures
            reply is Answer ==> res == (if node + 1 == self.order().len() {
                FreeStep::Done
            } else {
                FreeStep::Ask((node + 1) as usize)
            }),
            !(reply is Answer) ==> (res matches FreeStep::Failed(e) && reply_error(
                reply,
                self.order()[node as int]@,
                " failed CacheFree: "@,
                "no answer"@,
                e,
            )),
    {
        let node_id = self.pipeline_order[node].as_str();
        match answer_of(reply, node_id, " failed CacheFree: ", "no answer") {
            Err(e) => FreeStep::Failed(e),
            Ok(()) => {
                if node == self.pipeline_order.len() - 1 {
                    FreeStep::Done
                } else {
                    FreeStep::Ask(node + 1)
                }
            },
        }
    }

    /// Begins a forward pass: the first worker gets the token IDs.
    pub fn forward_begin(&self, seq_id: u64, token_ids: &[u32]) -> (res: ForwardStep)
        ensures
            if !self.allocated().contains(seq_id) {
                res matches ForwardStep::Failed(e) && e.is_pipeline(
                    "forward for seq "@ + decimal(seq_id as nat)
                        + ": cache not allocated (call alloc_cache first)"@,
                )
            } else if self.order().len() == 0 {
                res matches ForwardStep::Failed(e) && e.is_pipeline(
                    "pipeline completed without producing logits"@,
                )
            } else {
                res matches ForwardStep::Ask { node, input } && node == 0 && (input matches
                    ForwardInputWire::TokenIds { ids } && ids@ == token_ids@)
            },
    {
        if !self.allocated_seqs.contains(&seq_id) {
            let mut m: String = numbered("forward for seq ", seq_id);
            m.append(": cache not allocated (call alloc_cache first)");
            return ForwardStep::Failed(FractureError::Pipeline(m));
        }
        if self.pipeline_order.len() == 0 {
            return ForwardStep::Failed(
                FractureError::Pipeline("pipeline completed without producing logits".to_owned()),
            );
        }
        ForwardStep::Ask { node: 0, input: ForwardInputWire::TokenIds { ids: slice_to_vec(token_ids) } }
    }

    /// What worker `node` gave cannot be passed on: a worker that is not the last one gave
    /// logits, the last one gave activations, or activations have the wrong width.
    pub open spec fn output_error(
        &self,
        node: int,
        output: ForwardOutputWire,
        e: FractureError,
    ) -> bool {
        let id = self.order()[node]@;
        let last = node == self.order().len() - 1;
        match output {
            ForwardOutputWire::Logits { data } => !last && e.is_pipeline(
                quoted("non-tail worker "@, id, " returned logits (expected activations)"@),
            ),
            ForwardOutputWire::Activations { tensor_header, tensor_data } => if last {
                e.is_pipeline(
                    quoted("tail worker "@, id, " returned activations (expected logits)"@),
                )
            } else {
                &&& tensor_header.shape@.len() > 0
                &&& tensor_header.shape@.last() != self.width()
                &&& e.is_pipeline(
                    quoted("worker "@, id, " returned activation with last dim "@) + decimal(
                        tensor_header.shape@.last() as nat,
                    ) + ", expected hidden_size "@ + decimal(self.width() as nat),
                )
            },
        }
    }

    /// What worker `node` gave can be passed on, or is the result.
    pub open spec fn output_ok(&self, node: int, output: ForwardOutputWire) -> bool {
        let last = node == self.order().len() - 1;
        match output {
            ForwardOutputWire::Logits { .. } => last,
            ForwardOutputWire::Activations { tensor_header, .. } => !last && (
            tensor_header.shape@.len() == 0 || tensor_header.shape@.last() == self.width()),
        }
    }

    /// Checks what worker `node` gave.
    fn check_output(&self, node: usize, output: &ForwardOutputWire) -> (res: Result<()>)
        requires
            node < self.order().len(),
        ensures
            res is Ok <==> self.output_ok(node as int, *output),
            res matches Err(e) ==> self.output_error(node as int, *output, e),
    {
        let node_id = self.pipeline_order[node].as_str();
        let is_last: bool = node == self.pipeline_order.len() - 1;
        match output {
            ForwardOutputWire::Logits { data } => {
                if !is_last {
                    return Err(
                        FractureError::Pipeline(
                            quote(
                                "non-tail worker ",
                                node_id,
                                " returned logits (expected activations)",
                            ),
                        ),
                    );
                }
                Ok(())
            },
            ForwardOutputWire::Activations { tensor_header, tensor_data } => {
                if is_last {
                    return Err(
                        FractureError::Pipeline(
                            quote(
                                "tail worker ",
                                node_id,
                                " returned activations (expected logits)",
                            ),
                        ),
                    );
                }
                let n: usize = tensor_header.shape.len();
                if n > 0 {
                    let last_dim: u32 = tensor_header.shape[n - 1];
                    if last_dim as usize != self.hidden_size {
                        let mut m: String = quote(
                            "worker ",
                            node_id,
                            " returned activation with last dim ",
                        );
                        push_decimal(&mut m, last_dim as u64);
                        m.append(", expected hidden_size ");
                        push_decimal(&mut m, self.hidden_size as u64);
                        return Err(FractureError::Pipeline(m));
                    }
                }
                Ok(())
            },
        }
    }

    /// What follows from what worker `node` replied: its activations go to the next worker,
    /// and the logits of the last worker are the result.
    pub open spec fn forwarded(
        &self,
        node: int,
        reply: WorkerReply<ForwardOutputWire>,
        res: ForwardStep,
    ) -> bool {
        match reply {
            WorkerReply::Answer(output) => if self.output_ok(node, output) {
                match output {
                    ForwardOutputWire::Logits { data } => res matches ForwardStep::Logits(l)
                        && l@ == singles(data@),
                    ForwardOutputWire::Activations { tensor_header, tensor_data } => res == (
                    ForwardStep::Ask {
                        node: (node + 1) as usize,
                        input: ForwardInputWire::Activations { tensor_header, tensor_data },
                    }),
                }
            } else {
                res matches ForwardStep::Failed(e) && self.output_error(node, output, e)
            },
            _ => res matches ForwardStep::Failed(e) && reply_error(
                reply,
                self.order()[node]@,
                " returned error: "@,
                "ForwardResult"@,
                e,
            ),
        }
    }

    /// What follows when worker `node` replied in a forward pass.
    pub fn forward_step(&self, node: usize, reply: WorkerReply<ForwardOutputWire>) -> (res:
        ForwardStep)
        requires
            node < self.order().len(),
        ensures
            self.forwarded(node as int, reply, res),
    {
        let n: usize = self.pipeline_order.len();
        let node_id = self.pipeline_order[node].as_str();
        let output = match answer_of(reply, node_id, " returned error: ", "ForwardResult") {
            Ok(output) => output,
            Err(e) => {
                return ForwardStep::Failed(e);
            },
        };
        match self.check_output(node, &output) {
            Ok(()) => {},
            Err(e) => {
                return ForwardStep::Failed(e);
            },
        }
        match output {
            ForwardOutputWire::Logits { data } => ForwardStep::Logits(
                decode_singles(data.as_slice()),
            ),
            ForwardOutputWire::Activations { tensor_header, tensor_data } => ForwardStep::Ask {
                node: node + 1,
                input: ForwardInputWire::Activations { tensor_header, tensor_data },
            },
        }
    }

    /// Begins a pass of a batch: the first worker gets the token IDs of all sequences.
    ///
    /// Every sequence needs its caches.
    pub fn batched_begin(&self, seq_ids: &[u64], token_ids: &[u32]) -> (res: BatchedStep)
        ensures
            if exists|i: int|
                0 <= i < seq_ids@.len() && !self.allocated().contains(#[trigger] seq_ids@[i]) {
                // The first sequence that has none is named.
                exists|i: int|
                    0 <= i < seq_ids@.len() && !self.allocated().contains(#[trigger] seq_ids@[i])
                        && (forall|j: int|
                        0 <= j < i ==> self.allocated().contains(#[trigger] seq_ids@[j])) && (
                    res matches BatchedStep::Failed(e) && e.is_pipeline(
                        "batched_forward for seq "@ + decimal(seq_ids@[i] as nat)
                            + ": cache not allocated (call alloc_cache first)"@,
                    ))
            } else if self.order().len() == 0 {
                res matches BatchedStep::Failed(e) && e.is_pipeline(
                    "pipeline completed without producing logits"@,
                )
            } else {
                res matches BatchedStep::Ask { node, input } && node == 0 && (input matches
                    ForwardInputWire::TokenIds { ids } && ids@ == token_ids@)
            },
    {
        let mut i: usize = 0;
        while i < seq_ids.len()
            invariant
                i <= seq_ids@.len(),
                forall|j: int| 0 <= j < i ==> self.allocated().contains(#[trigger] seq_ids@[j]),
            decreases seq_ids@.len() - i,
        {
            let id: u64 = seq_ids[i];
            if !self.allocated_seqs.contains(&id) {
                let mut m: String = numbered("batched_forward for seq ", id);
                m.append(": cache not allocated (call alloc_cache first)");
                assert(!self.allocated().contains(seq_ids@[i as int]));
                return BatchedStep::Failed(FractureError::Pipeline(m));
            }
            i = i + 1;
        }
        if self.pipeline_order.len() == 0 {
            return BatchedStep::Failed(
                FractureError::Pipeline("pipeline completed without producing logits".to_owned()),
            );
        }
        BatchedStep::Ask { node: 0, input: ForwardInputWire::TokenIds { ids: slice_to_vec(token_ids) } }
    }

    /// What follows from what worker `node` replied in a pass of `n` sequences: its
    /// activations go to the next worker, and the logits of the last worker are parted.
    pub open spec fn batch_forwarded(
        &self,
        node: int,
        n: usize,
        reply: WorkerReply<BatchedOutputWire>,
        res: BatchedStep,
    ) -> bool {
        match reply {
            WorkerReply::Answer(b) => if self.output_ok(node, b.output) {
                match b.output {
                    ForwardOutputWire::Logits { data } => if !starts_ok(
                        data@.len() as int,
                        n,
                        b.logit_offsets,
                    ) {
                        res matches BatchedStep::Failed(e) && e.is_pipeline(
                            quoted("worker "@, self.order()[node]@, " returned bad logit offsets"@),
                        )
                    } else {
                        res matches BatchedStep::Logits(l) && is_parted(
                            l@,
                            data@,
                            n,
                            b.logit_offsets,
                        )
                    },
                    ForwardOutputWire::Activations { tensor_header, tensor_data } => res == (
                    BatchedStep::Ask {
                        node: (node + 1) as usize,
                        input: ForwardInputWire::Activations { tensor_header, tensor_data },
                    }),
                }
            } else {
                res matches BatchedStep::Failed(e) && self.output_error(node, b.output, e)
            },
            _ => res matches BatchedStep::Failed(e) && reply_error(
                reply,
                self.order()[node]@,
                " returned error: "@,
                "BatchedForwardResult"@,
                e,
            ),
        }
    }

    /// What follows when worker `node` replied in a pass of `num_sequences` sequences.
    pub fn batched_step(
        &self,
        node: usize,
        num_sequences: usize,
        reply: WorkerReply<BatchedOutputWire>,
    ) -> (res: BatchedStep)
        requires
            node < self.order().len(),
        ensures
            self.batch_forwarded(node as int, num_sequences, reply, res),
    {
        let n: usize = self.pipeline_order.len();
        let node_id = self.pipeline_order[node].as_str();
        let answer = match answer_of(reply, node_id, " returned error: ", "BatchedForwardResult") {
            Ok(answer) => answer,
            Err(e) => {
                return BatchedStep::Failed(e);
            },
        };
        match self.check_output(node, &answer.output) {
            Ok(()) => {},
            Err(e) => {
                return BatchedStep::Failed(e);
            },
        }
        match answer.output {
            ForwardOutputWire::Logits { data } => {
                match part_logits(data.as_slice(), num_sequences, &answer.logit_offsets) {
                    Some(l) => BatchedStep::Logits(l),
                    None => BatchedStep::Failed(
                        FractureError::Pipeline(
                            quote("worker ", node_id, " returned bad logit offsets"),
                        ),
                    ),
                }
            },
            ForwardOutputWire::Activations { tensor_header, tensor_data } => BatchedStep::Ask {
                node: node + 1,
                input: ForwardInputWire::Activations { tensor_header, tensor_data },
            },
        }
    }

    /// Get the pipeline order (node IDs).
    pub fn pipeline_order(&self) -> (res: &[String])
        ensures
            res@ == self.order(),
    {
        self.pipeline_order.as_slice()
    }

    /// Get the total number of model layers this pipeline covers.
    pub fn total_layers(&self) -> (res: usize)
        ensures
            res == self.layers(),
    {
        self.total_layers
    }

    /// Check whether a sequence ID has an active cache allocation.
    pub fn is_allocated(&self, seq_id: u64) -> (res: bool)
        ensures
            res == self.allocated().contains(seq_id),
    {
        self.allocated_seqs.contains(&seq_id)
    }

    /// Forgets all sequences that have caches. Returns their IDs; all workers are to free
    /// them.
    pub fn abort_all_sequences(&mut self) -> (res: Vec<u64>)
        ensures
            final(self).same_stages(old(self)),
            final(self).allocated() == Set::<u64>::empty(),
            res@.no_duplicates(),
            res@.to_set() == old(self).allocated(),
    {
        let mut ids: Vec<u64> = Vec::new();
        for id in it: self.allocated_seqs.iter()
            invariant
                it.index() == ids@.len(),
                forall|j: int| 0 <= j < ids@.len() ==> ids@[j] == *it.seq()[j],
                it.seq() == self.allocated_seqs.iter().remaining(),
        {
            ids.push(*id);
        }
        proof {
            let all = self.allocated_seqs.iter().remaining().unref();
            assert(all =~= ids@);
        }
        self.allocated_seqs.clear();
        ids
    }
}

/// Where the logits of sequence `k` of `n` begin in `len` bytes.
pub open spec fn part_start(len: int, n: usize, offsets: Option<Vec<usize>>, k: int) -> int {
    match offsets {
        Some(o) => if k < n {
            o@[k] as int
        } else {
            len
        },
        None => k * (len / n as int),
    }
}

/// The given beginnings are as many as there are sequences, in order, and within the data.
pub open spec fn starts_ok(len: int, n: usize, offsets: Option<Vec<usize>>) -> bool {
    offsets matches Some(o) ==> {
        &&& o@.len() == n
        &&& forall|k: int| 0 <= k < n ==> #[trigger] o@[k] <= len
        &&& forall|k: int| 0 < k < n ==> o@[k - 1] <= #[trigger] o@[k]
    }
}

/// `l` are the logits of each sequence.
pub open spec fn is_parted(
    l: Seq<Vec<Single>>,
    data: Seq<u8>,
    n: usize,
    offsets: Option<Vec<usize>>,
) -> bool {
    let len = data.len() as int;
    &&& l.len() == n
    &&& forall|k: int|
        0 <= k < n ==> (#[trigger] l[k])@ == singles(
            data.subrange(part_start(len, n, offsets, k), part_start(len, n, offsets, k + 1)),
        )
}

/// Whether the beginnings are as many as there are sequences, in order, and within the
/// data.
fn check_starts(len: usize, n: usize, offsets: &Option<Vec<usize>>) -> (res: bool)
    ensures
        res == starts_ok(len as int, n, *offsets),
{
    match offsets {
        None => true,
        Some(o) => {
            if o.len() != n {
                return false;
            }
            let mut k: usize = 0;
            while k < n
                invariant
                    k <= n == o@.len(),
                    *offsets == Some(*o),
                    forall|j: int| 0 <= j < k ==> #[trigger] o@[j] <= len,
                    forall|j: int| 0 < j < k ==> o@[j - 1] <= #[trigger] o@[j],
                decreases n - k,
            {
                if o[k] > len || (k > 0 && o[k - 1] > o[k]) {
                    assert(!starts_ok(len as int, n, *offsets)) by {
                        if o@[k as int] <= len {
                            assert(o@[k - 1] > o@[k as int]);
                        }
                    }
                    return false;
                }
                k = k + 1;
            }
            true
        },
    }
}

/// Parts the logits of a batch.
fn part_logits(data: &[u8], n: usize, offsets: &Option<Vec<usize>>) -> (res: Option<
    Vec<Vec<Single>>,
>)
    ensures
        res is Some <==> starts_ok(data@.len() as int, n, *offsets),
        res matches Some(l) ==> is_parted(l@, data@, n, *offsets),
{
    let len: usize = data.len();
    if !check_starts(len, n, offsets) {
        return None;
    }
    let mut out: Vec<Vec<Single>> = Vec::new();
    let mut k: usize = 0;
    while k < n
        invariant
            k <= n,
            len == data@.len(),
            starts_ok(len as int, n, *offsets),
            out@.len() == k,
            forall|j: int|
                0 <= j < k ==> (#[trigger] out@[j])@ == singles(
                    data@.subrange(
                        part_start(len as int, n, *offsets, j),
                        part_start(len as int, n, *offsets, j + 1),
                    ),
                ),
        decreases n - k,
    {
        proof {
            part_bounds(len as int, n, *offsets, k as int);
        }
        let (a, b) = match offsets {
            Some(o) => (
                o[k],
                if k + 1 < n {
                    o[k + 1]
                } else {
                    len
                },
            ),
            None => {
                let per: usize = len / n;
                (k * per, (k + 1) * per)
            },
        };
        assert(a == part_start(len as int, n, *offsets, k as int));
        assert(b == part_start(len as int, n, *offsets, k + 1));
        out.push(decode_singles(vstd::slice::slice_subrange(data, a, b)));
        k = k + 1;
    }
    Some(out)
}

proof fn part_bounds(len: int, n: usize, offsets: Option<Vec<usize>>, k: int)
    requires
        0 <= k < n,
        0 <= len,
        starts_ok(len, n, offsets),
    ensures
        0 <= part_start(len, n, offsets, k) <= part_start(len, n, offsets, k + 1) <= len,
{
    match offsets {
        Some(o) => {
            assert(o@[k] <= len);
            if k + 1 < n {
                assert(o@[k + 1] <= len);
                assert(o@[k + 1 - 1] <= o@[k + 1]);
            }
        },
        None => {
            let per = len / n as int;
            assert(0 <= k * per <= (k + 1) * per <= len) by (nonlinear_arith)
                requires
                    0 <= k < n,
                    0 <= len,
                    per == len / n as int,
            ;
        },
    }
}

/// Assignments that make a pipeline hold every layer below its end in one worker, and no
/// layer in two.
pub proof fn layers_lie_in_one_stage(assignments: Seq<LayerAssignment>, layer: int)
    requires
        assignments.len() > 0,
        contiguous(assignments),
        0 <= layer < assignments.last().end(),
    ensures
        exists|i: int|
            0 <= i < assignments.len() && #[trigger] assignments[i].start() <= layer
                < assignments[i].end(),
        forall|i: int, j: int|
            0 <= i < j < assignments.len() && #[trigger] assignments[i].start() <= layer
                < assignments[i].end() ==> !(#[trigger] assignments[j].start() <= layer),
{
    stage_of(assignments, layer, assignments.len() - 1);
    assert forall|i: int, j: int|
        0 <= i < j < assignments.len() && #[trigger] assignments[i].start() <= layer
            < assignments[i].end() implies !(#[trigger] assignments[j].start() <= layer) by {
        stages_ascend(assignments, i, j);
    }
}

proof fn stage_of(assignments: Seq<LayerAssignment>, layer: int, k: int)
    requires
        contiguous(assignments),
        0 <= k < assignments.len(),
        0 <= layer < assignments[k].end(),
    ensures
        exists|i: int|
            0 <= i <= k && #[trigger] assignments[i].start() <= layer < assignments[i].end(),
    decreases k,
{
    assert(fits_in(assignments, k));
    if layer < assignments[k].start() {
        stage_of(assignments, layer, k - 1);
    } else {
        assert(assignments[k].start() <= layer < assignments[k].end());
    }
}

proof fn stages_ascend(assignments: Seq<LayerAssignment>, i: int, j: int)
    requires
        contiguous(assignments),
        0 <= i < j < assignments.len(),
    ensures
        assignments[i].end() <= assignments[j].start(),
    decreases j - i,
{
    assert(fits_in(assignments, j));
    if i < j - 1 {
        stages_ascend(assignments, i, j - 1);
        assert(fits_in(assignments, j - 1));
    }
}

/// A pass goes through the workers one after the other and ends with logits only at the
/// last one.
pub proof fn only_the_tail_gives_logits(
    p: DistributedPipeline,
    node: int,
    reply: WorkerReply<ForwardOutputWire>,
    res: ForwardStep,
)
    requires
        0 <= node < p.order().len() <= usize::MAX,
        p.forwarded(node, reply, res),
    ensures
        res is Logits ==> node == p.order().len() - 1,
        res matches ForwardStep::Ask { node: next, .. } ==> next == node + 1 && next
            < p.order().len(),
{
}

} // verus!
