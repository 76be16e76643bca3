//! Layer assignment by explicit ranges.
use crate::base::error::FractureError;
use crate::base::model_config::ModelConfig;
use crate::base::text::{bracketed, bracketed_text, decimal, numbered, push_decimal, same_text};
use crate::coordinator::memory::{
    cache_memory_per_layer, layer_bytes, layers_that_fit, max_layers_for_node, node_sizes_fit,
    overhead_bytes, role_overhead, sizes_are_not_negative, weight_memory_per_layer,
};
use crate::coordinator::scheduler::{
    cannot_hold, cannot_hold_text, LayerPlan, ManualAssignment, ScheduleError,
};
use crate::coordinator::worker::WorkerCapabilities;
use vstd::prelude::*;
use vstd::string::StringExecFns;

verus! {

/// The layer `l` lies in the range of an assignment.
pub open spec fn holds(a: ManualAssignment, l: int) -> bool {
    a.layer_range.start <= l < a.layer_range.end
}

/// How many layers an assignment has.
pub open spec fn range_count(a: ManualAssignment) -> int {
    if a.layer_range.start < a.layer_range.end {
        a.layer_range.end - a.layer_range.start
    } else {
        0
    }
}

/// How many layers each assignment has.
pub open spec fn range_counts(s: Seq<ManualAssignment>) -> Seq<usize> {
    Seq::new(s.len(), |k: int| range_count(s[k]) as usize)
}

/// One of the first `k` assignments holds the layer `l`.
pub open spec fn covered(asked: Seq<ManualAssignment>, k: int, l: int) -> bool {
    exists|j: int| 0 <= j < k && holds(#[trigger] asked[j], l)
}

/// Assignment `k` lies within the model and does not overlap the ones before it.
pub open spec fn sound(asked: Seq<ManualAssignment>, num_layers: usize, k: int) -> bool {
    &&& asked[k].layer_range.end <= num_layers
    &&& forall|l: int| #[trigger] holds(asked[k], l) ==> !covered(asked, k, l)
}

/// The layers below `n` that no assignment holds, in order.
pub open spec fn missing(asked: Seq<ManualAssignment>, n: int) -> Seq<usize>
    decreases n,
{
    if n <= 0 {
        Seq::empty()
    } else {
        let rest = missing(asked, n - 1);
        if covered(asked, asked.len() as int, n - 1) {
            rest
        } else {
            rest.push((n - 1) as usize)
        }
    }
}

/// Assignment `k` is for a node that an earlier one is for.
pub open spec fn repeated(asked: Seq<ManualAssignment>, k: int) -> bool {
    exists|j: int| 0 <= j < k && (#[trigger] asked[j]).node_id@ == asked[k].node_id@
}

/// The assignment has a layer.
pub open spec fn has_layer(a: ManualAssignment) -> bool {
    a.layer_range.start < a.layer_range.end
}

/// Of the assignments that have layers, no earlier one begins behind a later one.
pub open spec fn ascending(asked: Seq<ManualAssignment>) -> bool {
    forall|i: int, j: int|
        0 <= i < j < asked.len() && has_layer(#[trigger] asked[i]) && has_layer(
            #[trigger] asked[j],
        ) ==> asked[i].layer_range.start <= asked[j].layer_range.start
}

/// An assignment among others: behind all that do not begin later.
pub open spec fn placed(s: Seq<ManualAssignment>, a: ManualAssignment) -> Seq<ManualAssignment>
    decreases s.len(),
{
    if s.len() > 0 && s.last().layer_range.start > a.layer_range.start {
        placed(s.drop_last(), a).push(s.last())
    } else {
        s.push(a)
    }
}

/// Assignments in the order of their first layers.
pub open spec fn by_start(s: Seq<ManualAssignment>) -> Seq<ManualAssignment>
    decreases s.len(),
{
    if s.len() == 0 {
        s
    } else {
        placed(by_start(s.drop_last()), s.last())
    }
}

/// Assignments in the order in which the pipeline takes them: as they are given where their
/// ranges ascend, else in the order of their first layers.
pub open spec fn in_order(asked: Seq<ManualAssignment>) -> Seq<ManualAssignment> {
    if ascending(asked) {
        asked
    } else {
        by_start(asked)
    }
}

/// The first of the nodes with this ID.
pub open spec fn node_named(nodes: Seq<WorkerCapabilities>, id: Seq<char>) -> Option<
    WorkerCapabilities,
>
    decreases nodes.len(),
{
    if nodes.len() == 0 {
        None
    } else if nodes[0].node_id@ == id {
        Some(nodes[0])
    } else {
        node_named(nodes.skip(1), id)
    }
}

/// How many layers the node of assignment `k` can hold in its place.
pub open spec fn manual_room(
    w: WorkerCapabilities,
    k: int,
    n: int,
    c: ModelConfig,
    max_seq_len: usize,
) -> usize {
    layers_that_fit(
        w.gpu_memory_available as int,
        layer_bytes(c, max_seq_len),
        overhead_bytes(k, n, c),
    ) as usize
}

/// Assignment `k` is for a node that exists and can hold its layers.
pub open spec fn feasible(
    asked: Seq<ManualAssignment>,
    nodes: Seq<WorkerCapabilities>,
    c: ModelConfig,
    max_seq_len: usize,
    k: int,
) -> bool {
    node_named(nodes, asked[k].node_id@) matches Some(w) && range_count(asked[k]) <= manual_room(
        w,
        k,
        asked.len() as int,
        c,
        max_seq_len,
    )
}

/// What is wrong with the first assignment that is not sound.
pub open spec fn unsound_text(
    asked: Seq<ManualAssignment>,
    num_layers: usize,
    k: int,
    text: Seq<char>,
) -> bool {
    if asked[k].layer_range.end > num_layers {
        text == "manual assignment for '"@ + asked[k].node_id@ + "' exceeds model layers: "@
            + decimal(asked[k].layer_range.start as nat) + ".."@ + decimal(
            asked[k].layer_range.end as nat,
        ) + " > "@ + decimal(num_layers as nat)
    } else {
        exists|l: int|
            #![trigger holds(asked[k], l)]
            holds(asked[k], l) && covered(asked, k, l) && (forall|m: int| #[trigger]
                holds(asked[k], m) && m < l ==> !covered(asked, k, m)) && text
                == "manual assignment overlap at layer "@ + decimal(l as nat)
    }
}

/// What is wrong with the first assignment that is not feasible.
pub open spec fn infeasible_text(
    asked: Seq<ManualAssignment>,
    nodes: Seq<WorkerCapabilities>,
    c: ModelConfig,
    max_seq_len: usize,
    k: int,
) -> Seq<char> {
    match node_named(nodes, asked[k].node_id@) {
        None => "manual assignment references unknown node '"@ + asked[k].node_id@ + "'"@,
        Some(w) => cannot_hold(
            asked[k].node_id@,
            range_count(asked[k]) as usize,
            manual_room(w, k, asked.len() as int, c, max_seq_len),
        ),
    }
}

/// All assignments lie within the model, and no two overlap.
pub open spec fn all_sound(asked: Seq<ManualAssignment>, num_layers: usize) -> bool {
    forall|k: int| 0 <= k < asked.len() ==> #[trigger] sound(asked, num_layers, k)
}

/// No two assignments are for one node.
pub open spec fn none_repeated(asked: Seq<ManualAssignment>) -> bool {
    forall|k: int| 0 <= k < asked.len() ==> !(#[trigger] repeated(asked, k))
}

/// All assignments are for nodes that exist and can hold their layers.
pub open spec fn all_feasible(
    asked: Seq<ManualAssignment>,
    nodes: Seq<WorkerCapabilities>,
    c: ModelConfig,
    max_seq_len: usize,
) -> bool {
    forall|k: int|
        0 <= k < asked.len() ==> #[trigger] feasible(asked, nodes, c, max_seq_len, k)
}

/// The first of the assignments that is not sound has this text.
pub open spec fn unsound(asked: Seq<ManualAssignment>, num_layers: usize, e: FractureError) -> bool {
    exists|k: int, text: Seq<char>|
        0 <= k < asked.len() && (forall|j: int| 0 <= j < k ==> #[trigger] sound(asked, num_layers, j))
            && !sound(asked, num_layers, k) && #[trigger] unsound_text(asked, num_layers, k, text)
            && e.is_pipeline(text)
}

/// The first of the assignments that is for a node of an earlier one is named.
pub open spec fn duplicate(asked: Seq<ManualAssignment>, e: FractureError) -> bool {
    exists|k: int|
        0 <= k < asked.len() && (forall|j: int| 0 <= j < k ==> !(#[trigger] repeated(asked, j)))
            && #[trigger] repeated(asked, k) && e.is_pipeline(
            "duplicate manual assignment for node '"@ + asked[k].node_id@ + "'"@,
        )
}

/// The first of the assignments that is not feasible is named.
pub open spec fn infeasible(
    asked: Seq<ManualAssignment>,
    nodes: Seq<WorkerCapabilities>,
    c: ModelConfig,
    max_seq_len: usize,
    e: FractureError,
) -> bool {
    exists|k: int|
        0 <= k < asked.len() && (forall|j: int|
            0 <= j < k ==> #[trigger] feasible(asked, nodes, c, max_seq_len, j))
            && !(#[trigger] feasible(asked, nodes, c, max_seq_len, k)) && e.is_pipeline(
            infeasible_text(asked, nodes, c, max_seq_len, k),
        )
}

/// What scheduling by hand gives: the assignments are checked for overlaps, then for gaps,
/// then for repeated nodes, then, in the order of the pipeline, each one's node is looked
/// up and its memory checked.
pub open spec fn manually_scheduled(
    asked: Seq<ManualAssignment>,
    nodes: Seq<WorkerCapabilities>,
    c: ModelConfig,
    max_seq_len: usize,
    res: core::result::Result<LayerPlan, ScheduleError>,
) -> bool {
    let gaps = missing(asked, c.num_layers as int);
    let list = in_order(asked);
    match res {
        Ok(p) => {
            &&& all_sound(asked, c.num_layers)
            &&& gaps.len() == 0
            &&& none_repeated(asked)
            &&& all_feasible(list, nodes, c, max_seq_len)
            &&& p.workers@.len() == list.len()
            &&& forall|k: int|
                0 <= k < list.len() ==> Some(#[trigger] p.workers@[k]) == node_named(
                    nodes,
                    list[k].node_id@,
                )
            &&& p.layer_counts@ == range_counts(list)
            &&& p.excluded@.len() == 0
        },
        Err(ScheduleError::Refused(e)) => if !all_sound(asked, c.num_layers) {
            unsound(asked, c.num_layers, e)
        } else if gaps.len() > 0 {
            e.is_pipeline("manual assignments have gaps at layers: "@ + bracketed(gaps))
        } else if !none_repeated(asked) {
            duplicate(asked, e)
        } else {
            infeasible(list, nodes, c, max_seq_len, e)
        },
        Err(_) => false,
    }
}

/// Marks the layers that the assignments hold; or says which assignment is not sound.
fn mark_covered(asked: &[ManualAssignment], num_layers: usize) -> (res: core::result::Result<
    Vec<bool>,
    FractureError,
>)
    ensures
        res is Ok <==> all_sound(asked@, num_layers),
        res matches Ok(marks) ==> marks@ == Seq::new(
            num_layers as nat,
            |l: int| covered(asked@, asked@.len() as int, l),
        ),
        res matches Err(e) ==> unsound(asked@, num_layers, e),
{
    let mut marks: Vec<bool> = Vec::new();
    let mut i: usize = 0;
    while i < num_layers
        invariant
            i <= num_layers,
            marks@ =~= Seq::new(i as nat, |l: int| false),
        decreases num_layers - i,
    {
        marks.push(false);
        i = i + 1;
    }
    let mut k: usize = 0;
    assert(marks@ =~= Seq::new(num_layers as nat, |l: int| covered(asked@, 0, l)));
    while k < asked.len()
        invariant
            k <= asked@.len(),
            marks@ == Seq::new(num_layers as nat, |l: int| covered(asked@, k as int, l)),
            forall|j: int| 0 <= j < k ==> #[trigger] sound(asked@, num_layers, j),
        decreases asked@.len() - k,
    {
        let a = &asked[k];
        if a.layer_range.end > num_layers {
            let mut m: String = "manual assignment for '".to_owned();
            m.append(a.node_id.as_str());
            m.append("' exceeds model layers: ");
            push_decimal(&mut m, a.layer_range.start as u64);
            m.append("..");
            push_decimal(&mut m, a.layer_range.end as u64);
            m.append(" > ");
            push_decimal(&mut m, num_layers as u64);
            assert(!sound(asked@, num_layers, k as int));
            assert(unsound_text(asked@, num_layers, k as int, m@));
            return Err(FractureError::Pipeline(m));
        }
        let ghost before = marks@;
        let mut l: usize = a.layer_range.start;
        while l < a.layer_range.end
            invariant
                a.layer_range.start <= l,
                l <= a.layer_range.end || l == a.layer_range.start,
                a.layer_range.end <= num_layers,
                k < asked@.len(),
                *a == asked@[k as int],
                before == Seq::new(num_layers as nat, |l: int| covered(asked@, k as int, l)),
                marks@ == Seq::new(
                    num_layers as nat,
                    |m: int| before[m] || (holds(asked@[k as int], m) && m < l),
                ),
                forall|m: int| #[trigger]
                    holds(asked@[k as int], m) && m < l ==> !covered(asked@, k as int, m),
                forall|j: int| 0 <= j < k ==> #[trigger] sound(asked@, num_layers, j),
            decreases a.layer_range.end - l,
        {
            assert(holds(asked@[k as int], l as int));
            if marks[l] {
                assert(covered(asked@, k as int, l as int));
                assert(!sound(asked@, num_layers, k as int));
                let m: String = numbered("manual assignment overlap at layer ", l as u64);
                assert(unsound_text(asked@, num_layers, k as int, m@));
                return Err(FractureError::Pipeline(m));
            }
            marks.set(l, true);
            assert(marks@ =~= Seq::new(
                num_layers as nat,
                |m: int| before[m] || (holds(asked@[k as int], m) && m < l + 1),
            ));
            l = l + 1;
        }
        assert(sound(asked@, num_layers, k as int));
        assert(marks@ =~= Seq::new(num_layers as nat, |m: int| covered(asked@, k + 1, m))) by {
            assert forall|m: int| 0 <= m < num_layers implies (before[m] || holds(
                asked@[k as int],
                m,
            )) == covered(asked@, k + 1, m) by {
                if before[m] {
                    let j = choose|j: int| 0 <= j < k && holds(#[trigger] asked@[j], m);
                    assert(holds(asked@[j], m));
                }
                if covered(asked@, k + 1, m) {
                    let j = choose|j: int| 0 <= j < k + 1 && holds(#[trigger] asked@[j], m);
                    if j < k {
                        assert(covered(asked@, k as int, m));
                    }
                }
            }
        }
        k = k + 1;
    }
    Ok(marks)
}

/// The layers that are not marked.
fn find_missing(marks: &Vec<bool>, Ghost(asked): Ghost<Seq<ManualAssignment>>) -> (res: Vec<usize>)
    requires
        marks@ == Seq::new(marks@.len(), |l: int| covered(asked, asked.len() as int, l)),
    ensures
        res@ == missing(asked, marks@.len() as int),
{
    let mut out: Vec<usize> = Vec::new();
    let mut l: usize = 0;
    while l < marks.len()
        invariant
            l <= marks@.len(),
            marks@ == Seq::new(marks@.len(), |l: int| covered(asked, asked.len() as int, l)),
            out@ == missing(asked, l as int),
        decreases marks@.len() - l,
    {
        if !marks[l] {
            out.push(l);
        }
        l = l + 1;
    }
    out
}

/// The first assignment for a node that an earlier one is for.
fn find_repeated(asked: &[ManualAssignment]) -> (res: Option<usize>)
    ensures
        res is None <==> none_repeated(asked@),
        res matches Some(k) ==> k < asked@.len() && repeated(asked@, k as int) && forall|j: int|
            0 <= j < k ==> !(#[trigger] repeated(asked@, j)),
{
    let mut k: usize = 0;
    while k < asked.len()
        invariant
            k <= asked@.len(),
            forall|j: int| 0 <= j < k ==> !(#[trigger] repeated(asked@, j)),
        decreases asked@.len() - k,
    {
        let mut j: usize = 0;
        while j < k
            invariant
                j <= k < asked@.len(),
                forall|i: int| 0 <= i < j ==> (#[trigger] asked@[i]).node_id@ != asked@[k as int].node_id@,
                forall|i: int| 0 <= i < k ==> !(#[trigger] repeated(asked@, i)),
            decreases k - j,
        {
            if same_text(asked[j].node_id.as_str(), asked[k].node_id.as_str()) {
                assert(asked@[j as int].node_id@ == asked@[k as int].node_id@);
                assert(repeated(asked@, k as int));
                return Some(k);
            }
            j = j + 1;
        }
        assert(!repeated(asked@, k as int));
        k = k + 1;
    }
    None
}

/// The first of the nodes with this ID.
fn find_node<'a>(nodes: &'a Vec<WorkerCapabilities>, id: &str) -> (res: Option<
    &'a WorkerCapabilities,
>)
    ensures
        (match res {
            Some(w) => Some(*w),
            None => None,
        }) == node_named(nodes@, id@),
{
    let mut i: usize = 0;
    assert(nodes@.skip(0) =~= nodes@);
    while i < nodes.len()
        invariant
            i <= nodes@.len(),
            node_named(nodes@, id@) == node_named(nodes@.skip(i as int), id@),
        decreases nodes@.len() - i,
    {
        assert(nodes@.skip(i as int)[0] == nodes@[i as int]);
        if same_text(nodes[i].node_id.as_str(), id) {
            return Some(&nodes[i]);
        }
        assert(nodes@.skip(i as int).skip(1) =~= nodes@.skip(i + 1));
        i = i + 1;
    }
    None
}

/// Where an assignment is placed.
proof fn placed_at(s: Seq<ManualAssignment>, a: ManualAssignment, at: int)
    requires
        0 <= at <= s.len(),
        forall|i: int|
            at <= i < s.len() ==> (#[trigger] s[i]).layer_range.start > a.layer_range.start,
        at > 0 ==> s[at - 1].layer_range.start <= a.layer_range.start,
    ensures
        placed(s, a) == s.insert(at, a),
    decreases s.len(),
{
    if at < s.len() {
        assert(s.last().layer_range.start > a.layer_range.start);
        assert forall|i: int| at <= i < s.drop_last().len() implies (#[trigger]
            s.drop_last()[i]).layer_range.start > a.layer_range.start by {
            assert(s.drop_last()[i] == s[i]);
        }
        placed_at(s.drop_last(), a, at);
        assert(s.drop_last().insert(at, a).push(s.last()) =~= s.insert(at, a));
    } else {
        assert(s.push(a) =~= s.insert(at, a));
    }
}

/// Whether the ranges ascend.
fn is_ascending(asked: &[ManualAssignment]) -> (res: bool)
    ensures
        res == ascending(asked@),
{
    // The last assignment so far that has a layer.
    let mut last: Option<usize> = None;
    let mut k: usize = 0;
    while k < asked.len()
        invariant
            k <= asked@.len(),
            ascending(asked@.take(k as int)),
            last matches Some(l) ==> l < k && has_layer(asked@[l as int]),
            forall|j: int|
                0 <= j < k && has_layer(#[trigger] asked@[j]) ==> last is Some && j <= last->0
                    && asked@[j].layer_range.start <= asked@[last->0 as int].layer_range.start,
        decreases asked@.len() - k,
    {
        let ghost some = asked@.take(k as int);
        let ghost more = asked@.take(k + 1);
        let a = &asked[k];
        if a.layer_range.start < a.layer_range.end {
            if let Some(l) = last {
                if asked[l].layer_range.start > a.layer_range.start {
                    assert(has_layer(asked@[l as int]) && has_layer(asked@[k as int]));
                    return false;
                }
            }
            last = Some(k);
        }
        assert(ascending(more)) by {
            assert forall|i: int, j: int|
                0 <= i < j < more.len() && has_layer(#[trigger] more[i]) && has_layer(
                    #[trigger] more[j],
                ) implies more[i].layer_range.start <= more[j].layer_range.start by {
                assert(more[i] == asked@[i] && more[j] == asked@[j]);
                if j < k {
                    assert(some[i] == asked@[i] && some[j] == asked@[j]);
                }
            }
        }
        k = k + 1;
    }
    assert(asked@.take(k as int) =~= asked@);
    true
}

/// The assignments in the order in which the pipeline takes them.
fn order_assignments(asked: &[ManualAssignment]) -> (res: Vec<ManualAssignment>)
    ensures
        res@ == in_order(asked@),
{
    let sort: bool = !is_ascending(asked);
    let mut list: Vec<ManualAssignment> = Vec::new();
    let mut k: usize = 0;
    assert(asked@.take(0) =~= Seq::empty());
    while k < asked.len()
        invariant
            k <= asked@.len(),
            list@ == if sort {
                by_start(asked@.take(k as int))
            } else {
                asked@.take(k as int)
            },
        decreases asked@.len() - k,
    {
        let a = asked[k].clone();
        let mut at: usize = list.len();
        if sort {
            while at > 0 && list[at - 1].layer_range.start > a.layer_range.start
                invariant
                    at <= list@.len(),
                    forall|i: int|
                        at <= i < list@.len() ==> (#[trigger] list@[i]).layer_range.start
                            > a.layer_range.start,
                decreases at,
            {
                at = at - 1;
            }
            proof {
                placed_at(list@, a, at as int);
            }
        }
        assert(asked@.take(k + 1).drop_last() =~= asked@.take(k as int));
        assert(!sort ==> list@.insert(at as int, a) =~= asked@.take(k + 1));
        list.insert(at, a);
        k = k + 1;
    }
    assert(asked@.take(k as int) =~= asked@);
    list
}

/// Looks up the node of each assignment, in order, and checks its memory.
fn place_assignments(
    config: &ModelConfig,
    max_seq_len: usize,
    nodes: &Vec<WorkerCapabilities>,
    list: &Vec<ManualAssignment>,
) -> (res: core::result::Result<LayerPlan, FractureError>)
    requires
        node_sizes_fit(*config, max_seq_len),
    ensures
        res is Ok <==> all_feasible(list@, nodes@, *config, max_seq_len),
        res matches Ok(p) ==> {
            &&& p.workers@.len() == list@.len()
            &&& forall|k: int|
                0 <= k < list@.len() ==> Some(#[trigger] p.workers@[k]) == node_named(
                    nodes@,
                    list@[k].node_id@,
                )
            &&& p.layer_counts@ == range_counts(list@)
            &&& p.excluded@.len() == 0
        },
        res matches Err(e) ==> infeasible(list@, nodes@, *config, max_seq_len, e),
{
    proof {
        sizes_are_not_negative(*config, max_seq_len);
    }
    let per_layer: usize = weight_memory_per_layer(config) + cache_memory_per_layer(
        config,
        max_seq_len,
    );
    let n: usize = list.len();
    let mut workers: Vec<WorkerCapabilities> = Vec::new();
    let mut layer_counts: Vec<usize> = Vec::new();
    let mut k: usize = 0;
    while k < n
        invariant
            k <= n == list@.len(),
            node_sizes_fit(*config, max_seq_len),
            per_layer == layer_bytes(*config, max_seq_len),
            workers@.len() == k,
            forall|j: int|
                0 <= j < k ==> Some(#[trigger] workers@[j]) == node_named(
                    nodes@,
                    list@[j].node_id@,
                ),
            layer_counts@ =~= range_counts(list@).take(k as int),
            forall|j: int|
                0 <= j < k ==> #[trigger] feasible(list@, nodes@, *config, max_seq_len, j),
        decreases n - k,
    {
        proof {
            sizes_are_not_negative(*config, max_seq_len);
        }
        let a = &list[k];
        let count: usize = if a.layer_range.start < a.layer_range.end {
            a.layer_range.end - a.layer_range.start
        } else {
            0
        };
        match find_node(nodes, a.node_id.as_str()) {
            None => {
                let mut m: String = "manual assignment references unknown node '".to_owned();
                m.append(a.node_id.as_str());
                m.append("'");
                assert(!feasible(list@, nodes@, *config, max_seq_len, k as int));
                return Err(FractureError::Pipeline(m));
            },
            Some(w) => {
                let overhead: usize = role_overhead(k, n, config);
                let max: usize = max_layers_for_node(w.gpu_memory_available, per_layer, overhead);
                if count > max {
                    let m: String = cannot_hold_text(a.node_id.as_str(), count, max);
                    assert(!feasible(list@, nodes@, *config, max_seq_len, k as int));
                    return Err(FractureError::Pipeline(m));
                }
                assert(feasible(list@, nodes@, *config, max_seq_len, k as int));
                workers.push(w.clone());
                layer_counts.push(count);
            },
        }
        k = k + 1;
    }
    assert(layer_counts@ =~= range_counts(list@));
    Ok(LayerPlan { workers, layer_counts, excluded: Vec::new() })
}

/// Schedules by explicit ranges. Each node gets the layers that it is asked to hold: the
/// pipeline takes the ranges in their order, in whatever order they are given.
pub fn schedule_manual(
    config: &ModelConfig,
    max_seq_len: usize,
    nodes: &Vec<WorkerCapabilities>,
    asked: &[ManualAssignment],
) -> (res: core::result::Result<LayerPlan, ScheduleError>)
    requires
        node_sizes_fit(*config, max_seq_len),
    ensures
        manually_scheduled(asked@, nodes@, *config, max_seq_len, res),
{
    let marks = match mark_covered(asked, config.num_layers) {
        Ok(marks) => marks,
        Err(e) => {
            return Err(ScheduleError::Refused(e));
        },
    };
    let gaps = find_missing(&marks, Ghost(asked@));
    if gaps.len() > 0 {
        let mut m: String = "manual assignments have gaps at layers: ".to_owned();
        m.append(bracketed_text(gaps.as_slice()).as_str());
        return Err(ScheduleError::Refused(FractureError::Pipeline(m)));
    }
    if let Some(k) = find_repeated(asked) {
        let mut m: String = "duplicate manual assignment for node '".to_owned();
        m.append(asked[k].node_id.as_str());
        m.append("'");
        assert(repeated(asked@, k as int));
        return Err(ScheduleError::Refused(FractureError::Pipeline(m)));
    }
    let list = order_assignments(asked);
    match place_assignments(config, max_seq_len, nodes, &list) {
        Ok(plan) => Ok(plan),
        Err(e) => Err(ScheduleError::Refused(e)),
    }
}

} // verus!
