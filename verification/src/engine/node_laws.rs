//! Which inputs a node takes, which layers it runs, and how nodes work together.
use crate::base::backend::Backend;
use crate::base::dataflow::{Kernels, Memory, Rows};
use crate::base::error::Result;
use crate::base::numeric::Half;
use crate::engine::engine::{full_result, Engine};
use crate::engine::model::Past;
use crate::engine::model_laws::{hidden_after, hidden_row, pass_layer};
use crate::engine::node::{NodeConfig, NodeInputInfo, NodeOutput, NodeOutputInfo};
use crate::engine::pass::{largest, node_pass, Pass};
use crate::engine::pipeline::{connected, follows};
use crate::engine::weights::WeightStore;
use vstd::prelude::*;

verus! {

/// The largest position is one of them, and none is larger.
proof fn largest_is_largest(s: Seq<u32>, i: int)
    requires
        0 <= i < s.len(),
    ensures
        s[i] <= largest(s),
        exists|j: int| 0 <= j < s.len() && #[trigger] s[j] == largest(s),
    decreases s.len(),
{
    if s.len() == 1 {
        assert(s[0] == largest(s));
    } else {
        let rest = s.drop_last();
        largest_is_largest(
            rest,
            if i < rest.len() {
                i
            } else {
                0
            },
        );
        let j = choose|j: int| 0 <= j < rest.len() && #[trigger] rest[j] == largest(rest);
        assert(s[j] == rest[j]);
        if i < rest.len() {
            assert(s[i] == rest[i]);
        }
        assert(s[s.len() - 1] == s.last());
    }
}

/// A pass goes beyond the model just where one of its tokens does: where it stands at or behind
/// the longest length of a sequence.
pub proof fn passes_beyond_the_model_are_found(p: Pass)
    ensures
        p.beyond() <==> exists|i: int|
            0 <= i < p.positions().len() && #[trigger] p.positions()[i] >= p.cfg.max_seq_len,
{
    let s = p.positions();
    if s.len() > 0 {
        largest_is_largest(s, 0);
        if p.beyond() {
            let j = choose|j: int| 0 <= j < s.len() && #[trigger] s[j] == largest(s);
            assert(s[j] >= p.cfg.max_seq_len);
        }
        if exists|i: int| 0 <= i < s.len() && #[trigger] s[i] >= p.cfg.max_seq_len {
            let i = choose|i: int| 0 <= i < s.len() && #[trigger] s[i] >= p.cfg.max_seq_len;
            largest_is_largest(s, i);
        }
    }
}

/// The first node takes tokens, at least one, and every other node takes activations.
pub proof fn nodes_take_their_input(weights: WeightStore, base: int, node: NodeConfig, input: NodeInputInfo)
    ensures
        ({
            let p = node_pass(weights, base, node, input);
            match input {
                NodeInputInfo::TokenIds { ids, .. } => !p.refused() <==> node.layer_range.start
                    == 0 && ids.len() > 0,
                NodeInputInfo::Activations { .. } => !p.refused() <==> node.layer_range.start != 0,
            }
        }),
{
}

/// A node runs the layers of its range, each with its own weights, and gives logits just where
/// its range ends with the model.
pub proof fn nodes_run_their_layers(
    weights: WeightStore,
    base: int,
    node: NodeConfig,
    input: NodeInputInfo,
    layer: int,
)
    requires
        node.layer_range.start <= layer < node.layer_range.end,
    ensures
        ({
            let p = node_pass(weights, base, node, input);
            &&& p.layers.len() == node.layer_range.end - node.layer_range.start
            &&& p.layers[layer - p.first] == weights.layers@[layer - base]@
            &&& p.first == node.layer_range.start
            &&& p.tail <==> node.layer_range.end == node.total_layers
            &&& p.cfg == weights.config
            &&& p.token_embedding == weights.token_embedding@
            &&& p.output_norm == weights.output_norm@
            &&& p.lm_head == weights.lm_head@
            &&& p.input == input
        }),
{
}

/// Two passes work on the same tokens of the same model, with hidden states of the same shape.
pub open spec fn same_work(p: Pass, q: Pass) -> bool {
    &&& p.cfg == q.cfg
    &&& p.positions() == q.positions()
    &&& p.n() == q.n()
    &&& hidden_row(p) == hidden_row(q)
}

proof fn first_layers_agree<R>(
    k: Kernels<R>,
    mem: Memory<R>,
    whole: Pass,
    part: Pass,
    pasts: Seq<Past<R>>,
    h: Rows<R>,
    l: int,
)
    requires
        same_work(whole, part),
        l <= part.layers.len() <= whole.layers.len(),
        whole.layers.len() == pasts.len(),
        part.layers == whole.layers.take(part.layers.len() as int),
    ensures
        hidden_after(k, mem, whole, pasts, h, l) == hidden_after(
            k,
            mem,
            part,
            pasts.take(part.layers.len() as int),
            h,
            l,
        ),
    decreases l,
{
    if l > 0 {
        first_layers_agree(k, mem, whole, part, pasts, h, l - 1);
        assert(part.layers[l - 1] == whole.layers[l - 1]);
        assert(pass_layer(mem, whole, l - 1) == pass_layer(mem, part, l - 1));
    }
}

/// A model can be split over nodes: where one node runs the first layers and the next one the
/// others, from what the first one gives, they compute what one node with all layers does.
pub proof fn models_can_be_split<R>(
    k: Kernels<R>,
    mem: Memory<R>,
    whole: Pass,
    a: Pass,
    b: Pass,
    pasts: Seq<Past<R>>,
    h: Rows<R>,
    l: int,
)
    requires
        same_work(whole, a),
        same_work(whole, b),
        whole.layers == a.layers + b.layers,
        whole.layers.len() == pasts.len(),
        0 <= l <= b.layers.len(),
    ensures
        ({
            let m = a.layers.len() as int;
            let middle = hidden_after(k, mem, a, pasts.take(m), h, m);
            hidden_after(k, mem, whole, pasts, h, m + l) == hidden_after(
                k,
                mem,
                b,
                pasts.skip(m),
                middle,
                l,
            )
        }),
    decreases l,
{
    let m = a.layers.len() as int;
    if l > 0 {
        models_can_be_split(k, mem, whole, a, b, pasts, h, l - 1);
        assert(whole.layers[m + l - 1] == b.layers[l - 1]);
        assert(pasts[m + l - 1] == pasts.skip(m)[l - 1]);
        assert(pass_layer(mem, whole, m + l - 1) == pass_layer(mem, b, l - 1));
    } else {
        assert(a.layers =~= whole.layers.take(m));
        first_layers_agree(k, mem, whole, a, pasts, h, m);
    }
}

/// Nodes make a pipeline just where the first begins with the model, each begins where the one
/// before it ends, and the last ends with the model.
pub proof fn pipelines_are_taken_when_connected(places: Seq<NodeConfig>)
    ensures
        connected(places) <==> {
            &&& places.len() > 0
            &&& places[0].layer_range.start == 0
            &&& places.last().layer_range.end == places.last().total_layers
            &&& forall|i: int|
                1 <= i < places.len() ==> places[i - 1].layer_range.end == (
                #[trigger] places[i]).layer_range.start
        },
{
    if connected(places) {
        assert forall|i: int| 1 <= i < places.len() implies places[i - 1].layer_range.end == (
        #[trigger] places[i]).layer_range.start by {
            assert(follows(places, i));
        }
    }
}

/// A node is taken where it has a layer, and all its layers are those of the model.
pub proof fn nodes_have_layers_of_the_model(node: NodeConfig)
    ensures
        node.valid() <==> node.layer_range.start < node.layer_range.end && node.layer_range.end
            <= node.total_layers,
        node.head() && node.tail() && node.total_layers > 0 ==> node.valid(),
{
}

/// An engine on its own runs the layers that it holds of the model that it holds.
pub proof fn engines_run_what_they_hold<B: Backend>(e: Engine<B>)
    ensures
        e.own_node().layer_range == e.range(),
        e.own_node().total_layers == e.store().config.num_layers,
{
}

/// An engine runs a layer of a node with the weights that it holds of that layer.
pub proof fn engines_run_layers_with_their_weights<B: Backend>(
    e: Engine<B>,
    node: NodeConfig,
    input: NodeInputInfo,
    layer: int,
)
    requires
        node.layer_range.start <= layer < node.layer_range.end,
    ensures
        e.pass(node, input).layers[layer - node.layer_range.start] == e.store().layers@[layer
            - e.range().start]@,
        e.pass(node, input).layers.len() == node.layer_range.end - node.layer_range.start,
{
}

/// The result of a full pass are the logits of the pass of its node, or its error.
pub proof fn full_passes_give_logits(inner: Result<NodeOutput>, res: Result<Vec<Half>>)
    requires
        full_result(inner, res),
    ensures
        inner matches Ok(o) ==> (o@ matches NodeOutputInfo::Logits(l) ==> (res matches Ok(r) && r@
            == l)),
        inner matches Err(e) ==> (res matches Err(f) && f == e),
        inner matches Ok(o) ==> (o@ is Activations ==> res is Err),
{
}

} // verus!
