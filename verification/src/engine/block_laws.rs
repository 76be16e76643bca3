//! How many blocks a sequence has, and which batches a node takes.
use crate::base::program::joined;
use crate::base::tensor::TensorInfo;
use crate::engine::batched::{node_accepts, position_runs, token_runs, SequenceSlice};
use crate::engine::block_table::{blocks_for, fill_of, BlocksInfo};
use crate::engine::kv_cache::CacheHandle;
use crate::engine::node::NodeConfig;
use crate::engine::paged_kv_cache::CacheModel;
use crate::engine::weights::WeightStore;
use vstd::prelude::*;

verus! {

/// The blocks of `len` tokens hold them all, and one block less would not, but for the one block
/// that an empty sequence has. The last of them is filled with what the others do not hold.
pub proof fn blocks_are_just_enough(len: int)
    requires
        0 <= len,
    ensures
        len <= 16 * blocks_for(len),
        len > 0 ==> 16 * (blocks_for(len) - 1) < len,
        len == 0 ==> blocks_for(len) == 1,
        16 * (blocks_for(len) - 1) + fill_of(len) == len,
        0 <= fill_of(len) <= 16,
{
}

/// A sequence keeps its blocks when it grows, and takes no block more than its tokens need. What
/// it takes comes from the free blocks, the last of them first.
pub proof fn growing_takes_what_is_needed(s: BlocksInfo, free: Seq<usize>, n: int, i: int)
    requires
        s.wf(),
        s.exact(),
        0 <= n,
        s.len + n <= usize::MAX,
        s.missing(n) <= free.len(),
    ensures
        ({
            let g = s.grown(free, n);
            &&& g.wf()
            &&& g.exact()
            &&& g.len == s.len + n
            &&& g.len <= 16 * g.table.len()
            &&& g.len > 0 ==> 16 * (g.table.len() - 1) < g.len
            &&& 0 <= i < s.table.len() ==> g.table[i] == s.table[i]
            &&& s.table.len() <= i < g.table.len() ==> g.table[i] == free[free.len() - 1 - (i
                - s.table.len())]
        }),
{
}

/// Appending to the first layer of a cache counts the tokens in, takes the blocks that are
/// missing from the free ones, and leaves every other sequence as it is. Appending to another
/// layer changes nothing.
pub proof fn first_layers_count_tokens(
    m: CacheModel,
    handle: CacheHandle,
    layer: int,
    n: int,
    other: u64,
)
    requires
        m.seqs.contains_key(handle.0),
        0 <= n,
        m.seqs[handle.0].len + n <= usize::MAX,
        m.has_room(handle, layer, n),
    ensures
        ({
            let after = m.append(handle, layer, n);
            &&& layer == 0 ==> after.seqs[handle.0].len == m.seqs[handle.0].len + n
            &&& layer == 0 ==> after.free.len() + after.seqs[handle.0].table.len() == m.free.len()
                + m.seqs[handle.0].table.len()
            &&& layer != 0 ==> after == m
            &&& other != handle.0 && m.seqs.contains_key(other) ==> after.seqs[other]
                == m.seqs[other]
            &&& after.free.is_prefix_of(m.free)
        }),
{
}

/// There is room for more tokens of a sequence just where its blocks and the free ones hold all
/// of them.
pub proof fn room_is_what_blocks_hold(m: CacheModel, handle: CacheHandle, layer: int, n: int)
    requires
        m.seqs[handle.0].exact(),
        0 <= n,
    ensures
        ({
            let s = m.seqs[handle.0];
            &&& layer == 0 ==> (m.has_room(handle, layer, n) <==> s.len + n <= 16 * (s.table.len()
                + m.free.len()))
            &&& layer != 0 ==> m.has_room(handle, layer, n)
        }),
{
}

/// Where blocks are lacking, the sequence gets all that are free and no token.
pub proof fn lacking_blocks_are_all_taken(m: CacheModel, handle: CacheHandle, other: u64)
    requires
        m.seqs.contains_key(handle.0),
    ensures
        ({
            let after = m.drained(handle);
            &&& after.free.len() == 0
            &&& after.seqs[handle.0].len == m.seqs[handle.0].len
            &&& after.seqs[handle.0].table.len() == m.seqs[handle.0].table.len() + m.free.len()
            &&& m.seqs[handle.0].table.is_prefix_of(after.seqs[handle.0].table)
            &&& other != handle.0 && m.seqs.contains_key(other) ==> after.seqs[other]
                == m.seqs[other]
        }),
{
    assert(m.seqs[handle.0].table =~= m.drained(handle).seqs[handle.0].table.take(
        m.seqs[handle.0].table.len() as int,
    ));
}

/// The tokens of all sequences are as many as those of each one together.
pub open spec fn count_of(counts: Seq<nat>) -> nat
    decreases counts.len(),
{
    if counts.len() == 0 {
        0
    } else {
        count_of(counts.drop_last()) + counts.last()
    }
}

proof fn joined_count(runs: Seq<Seq<u32>>)
    ensures
        joined(runs).len() == count_of(runs.map_values(|r: Seq<u32>| r.len())),
    decreases runs.len(),
{
    let counts = runs.map_values(|r: Seq<u32>| r.len());
    if runs.len() > 0 {
        joined_count(runs.drop_last());
        assert(counts.drop_last() =~= runs.drop_last().map_values(|r: Seq<u32>| r.len()));
    }
}

/// A node takes a batch of at least one sequence just where the first node is given no
/// activations and as many tokens as positions, and every other node is given activations with a
/// row of the model's width for each position.
pub proof fn nodes_take_batches_that_fit(
    weights: WeightStore,
    node: NodeConfig,
    seqs: Seq<SequenceSlice>,
    input: Option<TensorInfo>,
)
    ensures
        ({
            let tokens = count_of(
                token_runs(seqs).map_values(|r: Seq<u32>| r.len()),
            );
            let positions = count_of(
                position_runs(seqs).map_values(|r: Seq<u32>| r.len()),
            );
            node_accepts(weights, node, seqs, input) <==> seqs.len() > 0 && (if node.layer_range.start
                == 0 {
                input is None && tokens == positions
            } else {
                input is Some && input->Some_0.shape[0] == positions && input->Some_0.shape[1]
                    == weights.config.hidden_size
            })
        }),
{
    joined_count(token_runs(seqs));
    joined_count(position_runs(seqs));
}

} // verus!
