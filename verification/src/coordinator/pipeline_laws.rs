//! Laws on what happens in a distributed pipeline as a whole: each step follows from the
//! one before it and from what the worker replied.
use crate::base::numeric::{singles, Single};
use crate::coordinator::pipeline::{
    contiguous, fits_in, is_parted, starts_ok, AllocStep, BatchedStep, DistributedPipeline,
    ForwardStep,
};
use crate::coordinator::wire::{BatchedOutputWire, ForwardInputWire, ForwardOutputWire, WorkerReply};
use crate::coordinator::worker::LayerAssignment;
use vstd::prelude::*;

verus! {

/// The steps of a forward pass that began with these tokens and got these replies.
pub open spec fn forward_run(
    p: DistributedPipeline,
    tokens: Seq<u32>,
    replies: Seq<WorkerReply<ForwardOutputWire>>,
    steps: Seq<ForwardStep>,
) -> bool {
    &&& steps.len() == replies.len() + 1
    &&& steps[0] matches ForwardStep::Ask { node, input } && node == 0 && (input matches
        ForwardInputWire::TokenIds { ids } && ids@ == tokens)
    &&& forall|i: int|
        0 <= i < replies.len() ==> (steps[i] matches ForwardStep::Ask { node, .. } && p.forwarded(
            node as int,
            #[trigger] replies[i],
            steps[i + 1],
        ))
}

/// What worker `i` is given is what the worker before it gave.
pub open spec fn is_handed_on(
    replies: Seq<WorkerReply<ForwardOutputWire>>,
    steps: Seq<ForwardStep>,
    i: int,
) -> bool {
    &&& replies[i - 1] matches WorkerReply::Answer(ForwardOutputWire::Activations {
        tensor_header,
        tensor_data,
    }) && steps[i] == (ForwardStep::Ask {
        node: i as usize,
        input: ForwardInputWire::Activations { tensor_header, tensor_data },
    })
}

/// The step after `i` replies asks worker `i`, if it asks one.
proof fn asked_in_order(
    p: DistributedPipeline,
    tokens: Seq<u32>,
    replies: Seq<WorkerReply<ForwardOutputWire>>,
    steps: Seq<ForwardStep>,
    i: int,
)
    requires
        forward_run(p, tokens, replies, steps),
        0 < p.order().len() <= usize::MAX,
        0 <= i <= replies.len(),
    ensures
        steps[i] matches ForwardStep::Ask { node, .. } ==> node == i && i < p.order().len(),
        steps[i] is Ask && i > 0 ==> is_handed_on(replies, steps, i),
    decreases i,
{
    if i > 0 {
        asked_in_order(p, tokens, replies, steps, i - 1);
        let r = replies[i - 1];
        assert(steps[i - 1 + 1] == steps[i]);
    }
}

/// A forward pass asks the workers one after the other, each once, and gives each what
/// the one before it gave. Its result is what the last worker gave.
pub proof fn passes_go_through_all_workers(
    p: DistributedPipeline,
    tokens: Seq<u32>,
    replies: Seq<WorkerReply<ForwardOutputWire>>,
    steps: Seq<ForwardStep>,
)
    requires
        forward_run(p, tokens, replies, steps),
        0 < p.order().len() <= usize::MAX,
    ensures
        replies.len() <= p.order().len(),
        forall|i: int|
            0 <= i < replies.len() ==> (#[trigger] steps[i] matches ForwardStep::Ask { node, .. }
                && node == i),
        forall|i: int|
            0 < i < replies.len() ==> #[trigger] is_handed_on(replies, steps, i),
        steps.last() matches ForwardStep::Logits(l) ==> replies.len() == p.order().len() && (
        replies.last() matches WorkerReply::Answer(ForwardOutputWire::Logits { data }) && l@
            == singles(data@)),
{
    assert forall|i: int| 0 <= i < replies.len() implies (#[trigger] steps[i] matches
        ForwardStep::Ask { node, .. } && node == i) by {
        let r = replies[i];
        asked_in_order(p, tokens, replies, steps, i);
    }
    assert forall|i: int| 0 < i < replies.len() implies #[trigger] is_handed_on(
        replies,
        steps,
        i,
    ) by {
        let r = replies[i];
        asked_in_order(p, tokens, replies, steps, i);
    }
    if replies.len() > 0 {
        let last = replies.len() - 1;
        let r = replies[last];
        asked_in_order(p, tokens, replies, steps, last);
        assert(steps[last] is Ask);
        assert(steps[last + 1] == steps.last());
    }
}

/// The steps in which caches for a sequence are allocated, with these replies, and the
/// sequences that have caches before each step.
pub open spec fn alloc_run(
    p: Seq<DistributedPipeline>,
    seq_id: u64,
    replies: Seq<WorkerReply<()>>,
    steps: Seq<AllocStep>,
) -> bool {
    &&& steps.len() == replies.len() + 1
    &&& p.len() == steps.len()
    &&& steps[0] == AllocStep::Ask(0)
    &&& forall|i: int|
        0 <= i < replies.len() ==> p[i + 1].order() == p[i].order() && (steps[i] matches
            AllocStep::Ask(node) && p[i].alloc_follows(
            p[i + 1].allocated(),
            seq_id,
            node as int,
            #[trigger] replies[i],
            steps[i + 1],
        ))
}

/// After `i` replies worker `i` is asked, or it is over.
proof fn allocated_in_order(
    p: Seq<DistributedPipeline>,
    seq_id: u64,
    replies: Seq<WorkerReply<()>>,
    steps: Seq<AllocStep>,
    i: int,
)
    requires
        alloc_run(p, seq_id, replies, steps),
        0 < p[0].order().len() <= usize::MAX,
        0 <= i <= replies.len(),
    ensures
        p[i].order() == p[0].order(),
        steps[i] matches AllocStep::Ask(node) ==> node == i && i < p[0].order().len()
            && p[i].allocated() == p[0].allocated(),
        forall|j: int|
            0 <= j < i - 1 ==> #[trigger] replies[j] is Answer,
    decreases i,
{
    if i > 0 {
        allocated_in_order(p, seq_id, replies, steps, i - 1);
        let r = replies[i - 1];
        assert(p[i - 1 + 1] == p[i]);
        assert(steps[i - 1 + 1] == steps[i]);
        if i > 1 {
            let q = replies[i - 2];
            allocated_in_order(p, seq_id, replies, steps, i - 2);
            assert(steps[i - 2 + 1] == steps[i - 1]);
        }
    }
}

/// Allocation is all or nothing. It ends well only where every worker has allocated, and
/// the sequence has its caches then. Else the sequence has none, and just the workers
/// that have allocated are to free again.
pub proof fn allocation_is_all_or_nothing(
    p: Seq<DistributedPipeline>,
    seq_id: u64,
    replies: Seq<WorkerReply<()>>,
    steps: Seq<AllocStep>,
)
    requires
        alloc_run(p, seq_id, replies, steps),
        0 < p[0].order().len() <= usize::MAX,
    ensures
        steps.last() is Done ==> {
            &&& replies.len() == p[0].order().len()
            &&& forall|j: int| 0 <= j < replies.len() ==> #[trigger] replies[j] is Answer
            &&& p.last().allocated() == p[0].allocated().insert(seq_id)
        },
        steps.last() matches AllocStep::RollBack { allocated, .. } ==> {
            &&& allocated == replies.len() - 1
            &&& forall|j: int| 0 <= j < allocated ==> #[trigger] replies[j] is Answer
            &&& !(replies.last() is Answer)
            &&& p.last().allocated() == p[0].allocated()
        },
{
    let n = replies.len() as int;
    allocated_in_order(p, seq_id, replies, steps, n);
    if n > 0 {
        let r = replies[n - 1];
        allocated_in_order(p, seq_id, replies, steps, n - 1);
        assert(steps[n - 1 + 1] == steps.last());
        assert(p[n - 1 + 1] == p.last());
    }
}

/// What a worker rightly gives is taken: logits of the last worker end the pass, and activations
/// of the model's width of any other go to the next one.
pub proof fn right_outputs_are_taken(
    p: DistributedPipeline,
    node: int,
    output: ForwardOutputWire,
    res: ForwardStep,
)
    requires
        0 <= node < p.order().len() <= usize::MAX,
        p.forwarded(node, WorkerReply::Answer(output), res),
    ensures
        output matches ForwardOutputWire::Logits { data } ==> if node + 1 == p.order().len() {
            res matches ForwardStep::Logits(l) && l@ == singles(data@)
        } else {
            res is Failed
        },
        output matches ForwardOutputWire::Activations { tensor_header, tensor_data } ==> if node + 1
            == p.order().len() {
            res is Failed
        } else if tensor_header.shape@.len() > 0 && tensor_header.shape@.last() == p.width() {
            res == (ForwardStep::Ask {
                node: (node + 1) as usize,
                input: ForwardInputWire::Activations { tensor_header, tensor_data },
            })
        } else {
            tensor_header.shape@.len() > 0 ==> res is Failed
        },
{
}

/// A worker that does not answer ends the pass without logits.
pub proof fn silence_ends_the_pass(
    p: DistributedPipeline,
    node: int,
    reply: WorkerReply<ForwardOutputWire>,
    res: ForwardStep,
)
    requires
        p.forwarded(node, reply, res),
        !(reply is Answer),
    ensures
        res is Failed,
        reply matches WorkerReply::Broken(e) ==> res == ForwardStep::Failed(e),
{
}

/// The steps of a pass of a batch of `n` sequences that began with these tokens and got these
/// replies.
pub open spec fn batched_run(
    p: DistributedPipeline,
    n: usize,
    tokens: Seq<u32>,
    replies: Seq<WorkerReply<BatchedOutputWire>>,
    steps: Seq<BatchedStep>,
) -> bool {
    &&& steps.len() == replies.len() + 1
    &&& steps[0] matches BatchedStep::Ask { node, input } && node == 0 && (input matches
        ForwardInputWire::TokenIds { ids } && ids@ == tokens)
    &&& forall|i: int|
        0 <= i < replies.len() ==> (steps[i] matches BatchedStep::Ask { node, .. }
            && p.batch_forwarded(node as int, n, #[trigger] replies[i], steps[i + 1]))
}

/// What worker `i` is given of a batch is what the worker before it gave.
pub open spec fn is_handed_on_batched(
    replies: Seq<WorkerReply<BatchedOutputWire>>,
    steps: Seq<BatchedStep>,
    i: int,
) -> bool {
    &&& replies[i - 1] matches WorkerReply::Answer(b) && (b.output matches
        ForwardOutputWire::Activations { tensor_header, tensor_data } && steps[i] == (
    BatchedStep::Ask {
        node: i as usize,
        input: ForwardInputWire::Activations { tensor_header, tensor_data },
    }))
}

proof fn batch_asked_in_order(
    p: DistributedPipeline,
    n: usize,
    tokens: Seq<u32>,
    replies: Seq<WorkerReply<BatchedOutputWire>>,
    steps: Seq<BatchedStep>,
    i: int,
)
    requires
        batched_run(p, n, tokens, replies, steps),
        0 < p.order().len() <= usize::MAX,
        0 <= i <= replies.len(),
    ensures
        steps[i] matches BatchedStep::Ask { node, .. } ==> node == i && i < p.order().len(),
        steps[i] is Ask && i > 0 ==> is_handed_on_batched(replies, steps, i),
    decreases i,
{
    if i > 0 {
        batch_asked_in_order(p, n, tokens, replies, steps, i - 1);
        let r = replies[i - 1];
        assert(steps[i - 1 + 1] == steps[i]);
    }
}

/// A pass of a batch asks the workers one after the other, each once, and gives each what the
/// one before it gave. Its result are the logits that the last worker gave, for each sequence.
pub proof fn batches_go_through_all_workers(
    p: DistributedPipeline,
    n: usize,
    tokens: Seq<u32>,
    replies: Seq<WorkerReply<BatchedOutputWire>>,
    steps: Seq<BatchedStep>,
)
    requires
        batched_run(p, n, tokens, replies, steps),
        0 < p.order().len() <= usize::MAX,
    ensures
        replies.len() <= p.order().len(),
        forall|i: int|
            0 <= i < replies.len() ==> (#[trigger] steps[i] matches BatchedStep::Ask { node, .. }
                && node == i),
        forall|i: int|
            0 < i < replies.len() ==> #[trigger] is_handed_on_batched(replies, steps, i),
        steps.last() matches BatchedStep::Logits(l) ==> replies.len() == p.order().len() && l@.len()
            == n,
{
    assert forall|i: int| 0 <= i < replies.len() implies (#[trigger] steps[i] matches
        BatchedStep::Ask { node, .. } && node == i) by {
        let r = replies[i];
        batch_asked_in_order(p, n, tokens, replies, steps, i);
    }
    assert forall|i: int| 0 < i < replies.len() implies #[trigger] is_handed_on_batched(
        replies,
        steps,
        i,
    ) by {
        let r = replies[i];
        batch_asked_in_order(p, n, tokens, replies, steps, i);
    }
    if replies.len() > 0 {
        let last = replies.len() - 1;
        let r = replies[last];
        batch_asked_in_order(p, n, tokens, replies, steps, last);
        assert(steps[last] is Ask);
        assert(steps[last + 1] == steps.last());
    }
}

/// The logits of a batch are those of its sequences, one after the other: with the same number
/// of them for each, number `i` of sequence `k` is number `k * size + i` of all.
pub proof fn equal_parts_follow_each_other(
    l: Seq<Vec<Single>>,
    data: Seq<u8>,
    n: usize,
    size: int,
    k: int,
    i: int,
)
    requires
        is_parted(l, data, n, None),
        0 <= size,
        data.len() == 4 * size * n,
        0 <= k < n,
        0 <= i < size,
    ensures
        l.len() == n,
        l[k]@.len() == size,
        l[k]@[i] == singles(data)[k * size + i],
        0 <= k * size + i < singles(data).len(),
{
    let len = data.len() as int;
    let per = len / n as int;
    assert(per == 4 * size && 0 <= k * per && (k + 1) * per == k * per + per && (k + 1) * per
        <= len && 0 <= k * size && k * per == 4 * (k * size) && k * size + size <= size * n)
        by (nonlinear_arith)
        requires
            len == 4 * size * n,
            per == len / n as int,
            0 <= k < n,
            0 <= size,
    ;
    let part = data.subrange(k * per, (k + 1) * per);
    assert(l[k]@ == singles(part));
    assert(len == 4 * (size * n)) by (nonlinear_arith)
        requires
            len == 4 * size * n,
    ;
    assert(part[4 * i] == data[4 * (k * size + i)]);
    assert(part[4 * i + 1] == data[4 * (k * size + i) + 1]);
    assert(part[4 * i + 2] == data[4 * (k * size + i) + 2]);
    assert(part[4 * i + 3] == data[4 * (k * size + i) + 3]);
}

/// Where the worker says where the logits of each sequence begin, those of sequence `k` lie from
/// there to where the next begin, or to the end.
pub proof fn given_parts_follow_each_other(
    l: Seq<Vec<Single>>,
    data: Seq<u8>,
    n: usize,
    starts: Vec<usize>,
    k: int,
    i: int,
)
    requires
        is_parted(l, data, n, Some(starts)),
        starts_ok(data.len() as int, n, Some(starts)),
        0 <= k < n,
        starts@[k] % 4 == 0,
        0 <= i,
        starts@[k] + 4 * i + 4 <= if k + 1 < n {
            starts@[k + 1] as int
        } else {
            data.len() as int
        },
    ensures
        i < l[k]@.len(),
        l[k]@[i] == singles(data)[starts@[k] / 4 + i],
{
    let a = starts@[k] as int;
    let b = if k + 1 < n {
        starts@[k + 1] as int
    } else {
        data.len() as int
    };
    assert(b <= data.len());
    let part = data.subrange(a, b);
    assert(l[k]@ == singles(part));
    let at = a / 4 + i;
    assert(4 * at == a + 4 * i);
    assert(part[4 * i] == data[4 * at]);
    assert(part[4 * i + 1] == data[4 * at + 1]);
    assert(part[4 * i + 2] == data[4 * at + 2]);
    assert(part[4 * i + 3] == data[4 * at + 3]);
}

/// An assignment fits into a pipeline just where it has a layer and begins where the one before
/// it ends, the first one at layer 0.
pub proof fn assignments_fit_behind_each_other(assignments: Seq<LayerAssignment>, i: int)
    requires
        0 <= i < assignments.len(),
    ensures
        fits_in(assignments, i) <==> {
            &&& assignments[i].layer_range.start < assignments[i].layer_range.end
            &&& i == 0 ==> assignments[i].layer_range.start == 0
            &&& i > 0 ==> assignments[i].layer_range.start == assignments[i - 1].layer_range.end
        },
        contiguous(assignments) ==> fits_in(assignments, i),
        !contiguous(assignments) ==> exists|j: int|
            0 <= j < assignments.len() && !(#[trigger] fits_in(assignments, j)),
{
}

} // verus!
