//! What holds of every plan.
use crate::coordinator::counts::{redistribution_keeps_room, sum};
use crate::coordinator::manual::{
    all_sound, ascending, by_start, covered, feasible, has_layer, holds, in_order, missing,
    node_named, placed, range_count, range_counts, sound,
};
use crate::coordinator::scheduler::{
    assignments_are_contiguous, candidates, clamped, equal_split_is_even, is_assignment,
    prune_count, pruned, rooms_of, scheduled, Estimate, LayerPlan, NodeFigures, ManualAssignment,
    SchedulerInput, SchedulingMode,
};
use crate::coordinator::pipeline::{contiguous, fits_in};
use crate::coordinator::worker::{LayerAssignment, WorkerCapabilities};
use vstd::prelude::*;
use vstd::set_lib::{lemma_int_range, lemma_set_disjoint_lens, set_int_range};

verus! {

/// The layers that the first `k` assignments hold.
spec fn covered_set(asked: Seq<ManualAssignment>, n: int, k: int) -> Set<int> {
    set_int_range(0, n).filter(|l: int| covered(asked, k, l))
}

/// Sound assignments hold as many layers as their ranges count.
proof fn covered_layers(asked: Seq<ManualAssignment>, num_layers: usize, k: int)
    requires
        all_sound(asked, num_layers),
        0 <= k <= asked.len(),
    ensures
        covered_set(asked, num_layers as int, k).finite(),
        covered_set(asked, num_layers as int, k).len() == sum(range_counts(asked).take(k)),
    decreases k,
{
    let n = num_layers as int;
    let all = set_int_range(0, n);
    lemma_int_range(0, n);
    let s = covered_set(asked, n, k);
    if k == 0 {
        assert(s =~= Set::empty());
        assert(range_counts(asked).take(0) =~= Seq::empty());
    } else {
        covered_layers(asked, num_layers, k - 1);
        let r = covered_set(asked, n, k - 1);
        let a = asked[k - 1];
        assert(sound(asked, num_layers, k - 1));
        let t = if a.layer_range.start < a.layer_range.end {
            set_int_range(a.layer_range.start as int, a.layer_range.end as int)
        } else {
            Set::empty()
        };
        if a.layer_range.start < a.layer_range.end {
            lemma_int_range(a.layer_range.start as int, a.layer_range.end as int);
        }
        assert forall|l: int| t.contains(l) <==> holds(a, l) by {}
        assert(r.disjoint(t)) by {
            assert forall|l: int| !(r.contains(l) && t.contains(l)) by {
                if t.contains(l) {
                    assert(holds(asked[k - 1], l));
                }
            }
        }
        assert(s =~= r + t) by {
            assert forall|l: int| s.contains(l) <==> (r + t).contains(l) by {
                if covered(asked, k, l) {
                    let j = choose|j: int| 0 <= j < k && holds(#[trigger] asked[j], l);
                    if j < k - 1 {
                        assert(covered(asked, k - 1, l));
                    }
                }
                if covered(asked, k - 1, l) {
                    let j = choose|j: int| 0 <= j < k - 1 && holds(#[trigger] asked[j], l);
                    assert(holds(asked[j], l));
                }
                if holds(asked[k - 1], l) {
                    assert(covered(asked, k, l));
                }
            }
        }
        lemma_set_disjoint_lens(r, t);
        let counts = range_counts(asked);
        assert(counts.take(k).drop_last() =~= counts.take(k - 1));
    }
}

/// A layer that is not missing is held.
proof fn not_missing(asked: Seq<ManualAssignment>, n: int, l: int)
    requires
        0 <= l < n,
        missing(asked, n).len() == 0,
    ensures
        covered(asked, asked.len() as int, l),
    decreases n,
{
    if l < n - 1 {
        not_missing(asked, n - 1, l);
    }
}

/// Assignments without overlaps and gaps have exactly the layers of the model.
pub proof fn manual_covers_model(asked: Seq<ManualAssignment>, num_layers: usize)
    requires
        all_sound(asked, num_layers),
        missing(asked, num_layers as int).len() == 0,
    ensures
        sum(range_counts(asked)) == num_layers,
{
    let n = num_layers as int;
    covered_layers(asked, num_layers, asked.len() as int);
    let s = covered_set(asked, n, asked.len() as int);
    lemma_int_range(0, n);
    assert(s =~= set_int_range(0, n)) by {
        assert forall|l: int| 0 <= l < n implies covered(asked, asked.len() as int, l) by {
            not_missing(asked, n, l);
        }
    }
    assert(range_counts(asked).take(asked.len() as int) =~= range_counts(asked));
}

/// No two assignments hold one layer.
spec fn apart(s: Seq<ManualAssignment>) -> bool {
    forall|i: int, j: int, l: int|
        0 <= i < s.len() && 0 <= j < s.len() && i != j && #[trigger] holds(s[i], l)
            ==> !(#[trigger] holds(s[j], l))
}

/// Every assignment begins no later than those behind it.
spec fn sorted(s: Seq<ManualAssignment>) -> bool {
    forall|i: int, j: int|
        0 <= i < j < s.len() ==> (#[trigger] s[i]).layer_range.start <= (
        #[trigger] s[j]).layer_range.start
}

/// Placing an assignment is inserting it somewhere.
proof fn placed_somewhere(s: Seq<ManualAssignment>, a: ManualAssignment) -> (at: int)
    requires
        sorted(s),
    ensures
        0 <= at <= s.len(),
        placed(s, a) == s.insert(at, a),
        sorted(placed(s, a)),
    decreases s.len(),
{
    if s.len() > 0 && s.last().layer_range.start > a.layer_range.start {
        let front = s.drop_last();
        assert(sorted(front)) by {
            assert forall|i: int, j: int| 0 <= i < j < front.len() implies (#[trigger]
                front[i]).layer_range.start <= (#[trigger] front[j]).layer_range.start by {
                assert(front[i] == s[i] && front[j] == s[j]);
            }
        }
        let at = placed_somewhere(front, a);
        assert(front.insert(at, a).push(s.last()) =~= s.insert(at, a));
        let r = placed(s, a);
        assert forall|i: int, j: int| 0 <= i < j < r.len() implies (#[trigger]
            r[i]).layer_range.start <= (#[trigger] r[j]).layer_range.start by {
            let f = placed(front, a);
            if j < f.len() {
                assert(r[i] == f[i] && r[j] == f[j]);
            } else {
                assert(r[j] == s.last());
                if i == at {
                    assert(r[i] == a);
                } else {
                    let x = if i < at {
                        i
                    } else {
                        i - 1
                    };
                    assert(r[i] == s[x]);
                    assert(s[s.len() - 1] == s.last());
                }
            }
        }
        at
    } else {
        let at = s.len() as int;
        assert(s.push(a) =~= s.insert(at, a));
        let r = placed(s, a);
        assert forall|i: int, j: int| 0 <= i < j < r.len() implies (#[trigger]
            r[i]).layer_range.start <= (#[trigger] r[j]).layer_range.start by {
            assert(r[i] == s[i]);
            if j < s.len() {
                assert(r[j] == s[j]);
            } else {
                assert(s[i].layer_range.start <= s[s.len() - 1].layer_range.start);
            }
        }
        at
    }
}

/// Sorting keeps the assignments.
proof fn by_start_sorts(s: Seq<ManualAssignment>)
    ensures
        by_start(s).len() == s.len(),
        sorted(by_start(s)),
        forall|a: ManualAssignment|
            #![trigger by_start(s).contains(a)]
            #![trigger s.contains(a)]
            by_start(s).contains(a) <==> s.contains(a),
        apart(s) ==> apart(by_start(s)),
    decreases s.len(),
{
    if s.len() > 0 {
        let front = s.drop_last();
        let e = s.last();
        by_start_sorts(front);
        let t = by_start(front);
        let r = by_start(s);
        let at = placed_somewhere(t, e);
        assert forall|a: ManualAssignment|
            #![trigger r.contains(a)]
            #![trigger s.contains(a)]
            r.contains(a) <==> s.contains(a) by {
            if r.contains(a) {
                let i = r.index_of(a);
                if i == at {
                    assert(s[s.len() - 1] == a);
                } else {
                    let x = if i < at {
                        i
                    } else {
                        i - 1
                    };
                    assert(t[x] == a);
                    assert(t.contains(a));
                    let y = front.index_of(a);
                    assert(s[y] == a);
                }
            }
            if s.contains(a) {
                let y = s.index_of(a);
                if y == s.len() - 1 {
                    assert(r[at] == a);
                } else {
                    assert(front[y] == a);
                    assert(front.contains(a));
                    let x = t.index_of(a);
                    if x < at {
                        assert(r[x] == a);
                    } else {
                        assert(r[x + 1] == a);
                    }
                }
            }
        }
        if apart(s) {
            assert(apart(front)) by {
                assert forall|i: int, j: int, l: int|
                    0 <= i < front.len() && 0 <= j < front.len() && i != j && #[trigger] holds(
                        front[i],
                        l,
                    ) implies !(#[trigger] holds(front[j], l)) by {
                    assert(holds(s[i], l));
                }
            }
            assert forall|i: int, j: int, l: int|
                0 <= i < r.len() && 0 <= j < r.len() && i != j && #[trigger] holds(
                    r[i],
                    l,
                ) implies !(#[trigger] holds(r[j], l)) by {
                let last = s.len() - 1;
                let x = if i < at {
                    i
                } else {
                    i - 1
                };
                let y = if j < at {
                    j
                } else {
                    j - 1
                };
                if i != at && j != at {
                    assert(r[i] == t[x] && r[j] == t[y]);
                    assert(holds(t[x], l));
                } else if i == at {
                    assert(r[j] == t[y]);
                    assert(t.contains(t[y]));
                    let z = front.index_of(t[y]);
                    assert(front[z] == t[y]);
                    assert(s[z] == r[j] && s[last] == r[i]);
                    assert(holds(s[last], l));
                } else {
                    assert(r[i] == t[x]);
                    assert(t.contains(t[x]));
                    let z = front.index_of(t[x]);
                    assert(front[z] == t[x]);
                    assert(s[z] == r[i] && s[last] == r[j]);
                    assert(holds(s[z], l));
                }
            }
        }
    }
}

/// The pipeline's order keeps the assignments: none is lost, they stay sound, and their
/// ranges ascend.
proof fn order_keeps_assignments(asked: Seq<ManualAssignment>, num_layers: usize)
    requires
        all_sound(asked, num_layers),
    ensures
        in_order(asked).len() == asked.len(),
        ascending(in_order(asked)),
        all_sound(in_order(asked), num_layers),
        apart(in_order(asked)),
        forall|a: ManualAssignment|
            #![trigger in_order(asked).contains(a)]
            #![trigger asked.contains(a)]
            in_order(asked).contains(a) <==> asked.contains(a),
{
    let list = in_order(asked);
    assert(apart(asked)) by {
        assert forall|i: int, j: int, l: int|
            0 <= i < asked.len() && 0 <= j < asked.len() && i != j && #[trigger] holds(
                asked[i],
                l,
            ) implies !(#[trigger] holds(asked[j], l)) by {
            if holds(asked[j], l) {
                assert(sound(asked, num_layers, i) && sound(asked, num_layers, j));
                if i < j {
                    assert(covered(asked, j, l));
                } else {
                    assert(covered(asked, i, l));
                }
            }
        }
    }
    by_start_sorts(asked);
    assert forall|k: int| 0 <= k < list.len() implies #[trigger] sound(list, num_layers, k) by {
        assert(list.contains(list[k]));
        let y = asked.index_of(list[k]);
        assert(sound(asked, num_layers, y));
        assert forall|l: int| #[trigger] holds(list[k], l) implies !covered(list, k, l) by {
            if covered(list, k, l) {
                let j = choose|j: int| 0 <= j < k && holds(#[trigger] list[j], l);
                assert(holds(list[j], l));
            }
        }
    }
}

/// The same layers are held in the pipeline's order.
proof fn order_keeps_cover(asked: Seq<ManualAssignment>, num_layers: usize, l: int)
    requires
        all_sound(asked, num_layers),
    ensures
        covered(in_order(asked), asked.len() as int, l) <==> covered(
            asked,
            asked.len() as int,
            l,
        ),
{
    let list = in_order(asked);
    order_keeps_assignments(asked, num_layers);
    if covered(list, asked.len() as int, l) {
        let j = choose|j: int| 0 <= j < asked.len() && holds(#[trigger] list[j], l);
        assert(list.contains(list[j]));
        let y = asked.index_of(list[j]);
        assert(holds(asked[y], l));
    }
    if covered(asked, asked.len() as int, l) {
        let j = choose|j: int| 0 <= j < asked.len() && holds(#[trigger] asked[j], l);
        assert(asked.contains(asked[j]));
        let y = list.index_of(asked[j]);
        assert(holds(list[y], l));
    }
}

proof fn order_keeps_missing(asked: Seq<ManualAssignment>, num_layers: usize, n: int)
    requires
        all_sound(asked, num_layers),
    ensures
        missing(in_order(asked), n) == missing(asked, n),
    decreases n,
{
    order_keeps_assignments(asked, num_layers);
    if n > 0 {
        order_keeps_missing(asked, num_layers, n - 1);
        order_keeps_cover(asked, num_layers, n - 1);
    }
}

/// In the pipeline's order, the assignments before one that has layers hold just the layers
/// before its first.
proof fn layers_before(asked: Seq<ManualAssignment>, num_layers: usize, k: int)
    requires
        all_sound(asked, num_layers),
        missing(asked, num_layers as int).len() == 0,
        0 <= k < asked.len(),
        has_layer(in_order(asked)[k]),
    ensures
        sum(range_counts(in_order(asked)).take(k)) == in_order(asked)[k].layer_range.start,
        sum(range_counts(in_order(asked)).take(k + 1)) == in_order(asked)[k].layer_range.end,
{
    let n = num_layers as int;
    let list = in_order(asked);
    let a = list[k];
    let start = a.layer_range.start as int;
    order_keeps_assignments(asked, num_layers);
    order_keeps_missing(asked, num_layers, n);
    assert(sound(list, num_layers, k));
    covered_layers(list, num_layers, k);
    assert(holds(list[k], start));
    assert(covered_set(list, n, k) =~= set_int_range(0, start)) by {
        assert forall|l: int|
            covered_set(list, n, k).contains(l) <==> set_int_range(0, start).contains(l) by {
            if 0 <= l < n && covered(list, k, l) {
                let j = choose|j: int| 0 <= j < k && holds(#[trigger] list[j], l);
                assert(has_layer(list[j]) && has_layer(list[k]));
                if l >= start {
                    assert(holds(list[j], start));
                }
            }
            if 0 <= l < start {
                not_missing(list, n, l);
                let j = choose|j: int| 0 <= j < list.len() && holds(#[trigger] list[j], l);
                assert(has_layer(list[j]) && has_layer(list[k]));
                assert(j < k);
            }
        }
    }
    lemma_int_range(0, start);
    let counts = range_counts(list);
    assert(counts.take(k + 1).drop_last() =~= counts.take(k));
    assert(counts.take(k + 1).last() == counts[k]);
    assert(counts[k] == range_count(list[k]));
}

/// In every mode a plan gives out exactly the layers of the model.
pub proof fn plans_cover_model(input: SchedulerInput, estimates: Seq<Estimate>, p: LayerPlan)
    requires
        scheduled(input, estimates, Ok(p)),
    ensures
        sum(p.layer_counts@) == input.model_config.num_layers,
{
    let nodes = candidates(input);
    let c = input.model_config;
    match input.mode {
        SchedulingMode::Auto => {},
        SchedulingMode::EqualSplit => {
            equal_split_is_even(nodes, c.num_layers, 0, 0);
        },
        SchedulingMode::Manual(asked) => {
            order_keeps_assignments(asked@, c.num_layers);
            order_keeps_missing(asked@, c.num_layers, c.num_layers as int);
            manual_covers_model(in_order(asked@), c.num_layers);
        },
    }
}

/// In every mode no node gets more layers than its memory holds.
pub proof fn plans_keep_memory(
    input: SchedulerInput,
    estimates: Seq<Estimate>,
    p: LayerPlan,
    i: int,
)
    requires
        scheduled(input, estimates, Ok(p)),
        0 <= i < p.workers@.len(),
    ensures
        p.layer_counts@.len() == p.workers@.len(),
        p.layer_counts@[i] <= rooms_of(p.workers@, input.model_config, input.max_seq_len)[i],
{
    let nodes = candidates(input);
    let c = input.model_config;
    if input.mode is Auto {
        let k = prune_count(nodes, c, input.max_seq_len, estimates, 0);
        let left = pruned(nodes, k);
        let rooms = rooms_of(left, c, input.max_seq_len);
        let start = clamped(estimates[k].ideal@, rooms);
        redistribution_keeps_room(start, rooms, estimates[k].speeds@, c.num_layers);
    }
    if let SchedulingMode::Manual(asked) = input.mode {
        let list = in_order(asked@);
        assert(feasible(list, nodes, c, input.max_seq_len, i));
        assert(Some(p.workers@[i]) == node_named(nodes, list[i].node_id@));
        assert(p.layer_counts@[i] == range_count(list[i]));
    }
}

/// A node that is found by its ID has that ID.
proof fn named_has_name(nodes: Seq<WorkerCapabilities>, id: Seq<char>)
    ensures
        node_named(nodes, id) matches Some(w) ==> w.node_id@ == id,
    decreases nodes.len(),
{
    if nodes.len() > 0 && nodes[0].node_id@ != id {
        named_has_name(nodes.skip(1), id);
    }
}

/// The assignment gives a node just the layers that it is asked to hold.
pub open spec fn gives(a: LayerAssignment, asked: ManualAssignment) -> bool {
    &&& a.node_id@ == asked.node_id@
    &&& a.start() == asked.layer_range.start
    &&& a.end() == asked.layer_range.end
}

/// Explicit ranges are kept: every node that is asked to hold layers gets just those, in
/// whatever order the ranges are given.
pub proof fn explicit_ranges_are_kept(
    input: SchedulerInput,
    estimates: Seq<Estimate>,
    p: LayerPlan,
    f: Seq<NodeFigures>,
    assignments: Seq<LayerAssignment>,
    asked: Seq<ManualAssignment>,
    j: int,
)
    requires
        scheduled(input, estimates, Ok(p)),
        input.mode matches SchedulingMode::Manual(m) && m@ == asked,
        assignments.len() == p.workers@.len(),
        forall|i: int|
            0 <= i < assignments.len() ==> is_assignment(#[trigger] assignments[i], p, f, i),
        0 <= j < asked.len(),
        has_layer(asked[j]),
    ensures
        exists|i: int| 0 <= i < assignments.len() && gives(#[trigger] assignments[i], asked[j]),
{
    let c = input.model_config;
    let list = in_order(asked);
    order_keeps_assignments(asked, c.num_layers);
    assert(asked.contains(asked[j]));
    let i = list.index_of(asked[j]);
    assert(list[i] == asked[j]);
    layers_before(asked, c.num_layers, i);
    assert(is_assignment(assignments[i], p, f, i));
    assert(Some(p.workers@[i]) == node_named(candidates(input), list[i].node_id@));
    named_has_name(candidates(input), list[i].node_id@);
    assert(gives(assignments[i], asked[j]));
}

/// The assignments of a plan in which every node has a layer make a pipeline.
pub proof fn plans_make_pipelines(
    p: LayerPlan,
    f: Seq<NodeFigures>,
    assignments: Seq<LayerAssignment>,
)
    requires
        p.layer_counts@.len() == p.workers@.len(),
        assignments.len() == p.workers@.len(),
        forall|j: int|
            0 <= j < assignments.len() ==> is_assignment(#[trigger] assignments[j], p, f, j),
        forall|j: int| 0 <= j < p.layer_counts@.len() ==> #[trigger] p.layer_counts@[j] > 0,
    ensures
        contiguous(assignments),
{
    assert forall|i: int| 0 <= i < assignments.len() implies #[trigger] fits_in(
        assignments,
        i,
    ) by {
        assignments_are_contiguous(p, f, assignments, i);
        assert(p.layer_counts@[i] > 0);
    }
}

} // verus!
