//! Which assignments by hand are taken.
use crate::base::model_config::ModelConfig;
use crate::coordinator::manual::{
    all_feasible, covered, holds, in_order, manually_scheduled, missing, repeated, sound,
};
use crate::coordinator::scheduler::{LayerPlan, ManualAssignment, ScheduleError};
use crate::coordinator::worker::WorkerCapabilities;
use vstd::prelude::*;

verus! {

/// The layer belongs to one of the assignments.
pub open spec fn belongs(asked: Seq<ManualAssignment>, l: int) -> bool {
    exists|i: int|
        0 <= i < asked.len() && (#[trigger] asked[i]).layer_range.start <= l
            < asked[i].layer_range.end
}

/// The assignments lay the model out: each lies within it, every layer belongs to one of them
/// and no layer to two, and no two are for one node.
pub open spec fn lays_out(asked: Seq<ManualAssignment>, num_layers: usize) -> bool {
    &&& forall|i: int|
        0 <= i < asked.len() ==> (#[trigger] asked[i]).layer_range.end <= num_layers
    &&& forall|l: int| 0 <= l < num_layers ==> #[trigger] belongs(asked, l)
    &&& forall|i: int, j: int, l: int|
        0 <= i < j < asked.len() && #[trigger] holds(asked[i], l) ==> !(
        asked[j].layer_range.start <= l < (#[trigger] asked[j]).layer_range.end)
    &&& forall|i: int, j: int|
        0 <= i < j < asked.len() ==> (#[trigger] asked[i]).node_id@ != (
        #[trigger] asked[j]).node_id@
}

proof fn nothing_is_missing(asked: Seq<ManualAssignment>, n: int)
    ensures
        missing(asked, n).len() == 0 <==> forall|l: int|
            0 <= l < n ==> #[trigger] covered(asked, asked.len() as int, l),
    decreases n,
{
    if n > 0 {
        nothing_is_missing(asked, n - 1);
        let last = n - 1;
        if forall|l: int| 0 <= l < n ==> #[trigger] covered(asked, asked.len() as int, l) {
            assert(covered(asked, asked.len() as int, last));
        }
        if missing(asked, n).len() == 0 {
            assert forall|l: int| 0 <= l < n implies #[trigger] covered(
                asked,
                asked.len() as int,
                l,
            ) by {
                if l == last {
                    assert(covered(asked, asked.len() as int, last));
                }
            }
        }
    }
}

/// Assignments are taken just where they lay the model out and every node can hold its layers.
pub proof fn layouts_are_taken(
    asked: Seq<ManualAssignment>,
    nodes: Seq<WorkerCapabilities>,
    c: ModelConfig,
    max_seq_len: usize,
    res: core::result::Result<LayerPlan, ScheduleError>,
)
    requires
        manually_scheduled(asked, nodes, c, max_seq_len, res),
    ensures
        res is Ok <==> lays_out(asked, c.num_layers) && all_feasible(
            in_order(asked),
            nodes,
            c,
            max_seq_len,
        ),
{
    let n = c.num_layers;
    nothing_is_missing(asked, n as int);
    if lays_out(asked, n) {
        assert forall|k: int| 0 <= k < asked.len() implies #[trigger] sound(asked, n, k) by {
            assert forall|l: int| #[trigger] holds(asked[k], l) implies !covered(asked, k, l) by {
                if covered(asked, k, l) {
                    let j = choose|j: int| 0 <= j < k && holds(#[trigger] asked[j], l);
                    assert(holds(asked[j], l));
                }
            }
        }
        assert forall|l: int| 0 <= l < n implies #[trigger] covered(
            asked,
            asked.len() as int,
            l,
        ) by {
            assert(belongs(asked, l));
            let i = choose|i: int|
                0 <= i < asked.len() && (#[trigger] asked[i]).layer_range.start <= l
                    < asked[i].layer_range.end;
            assert(holds(asked[i], l));
        }
        assert forall|k: int| 0 <= k < asked.len() implies !(#[trigger] repeated(asked, k)) by {
            if repeated(asked, k) {
                let j = choose|j: int|
                    0 <= j < k && (#[trigger] asked[j]).node_id@ == asked[k].node_id@;
                assert(asked[j].node_id@ != asked[k].node_id@);
            }
        }
    }
    if res is Ok {
        assert forall|i: int| 0 <= i < asked.len() implies (
        #[trigger] asked[i]).layer_range.end <= n by {
            assert(sound(asked, n, i));
        }
        assert forall|l: int| 0 <= l < n implies #[trigger] belongs(asked, l) by {
            assert(covered(asked, asked.len() as int, l));
            let i = choose|i: int| 0 <= i < asked.len() && holds(#[trigger] asked[i], l);
            assert(holds(asked[i], l));
        }
        assert forall|i: int, j: int, l: int|
            0 <= i < j < asked.len() && #[trigger] holds(asked[i], l) implies !(
        asked[j].layer_range.start <= l < (#[trigger] asked[j]).layer_range.end) by {
            assert(sound(asked, n, j));
            if holds(asked[j], l) {
                assert(covered(asked, j, l));
            }
        }
        assert forall|i: int, j: int| 0 <= i < j < asked.len() implies (
        #[trigger] asked[i]).node_id@ != (#[trigger] asked[j]).node_id@ by {
            assert(!repeated(asked, j));
        }
    }
}

} // verus!
