//! How many layers each node gets.
use crate::base::error::{FractureError, Result};
use crate::base::numeric::Single;
use crate::base::text::{decimal, numbered, push_decimal};
use crate::coordinator::memory::rest_of;
use vstd::prelude::*;
use vstd::string::StringExecFns;

verus! {

/// The least finite number in single precision.
pub const SINGLE_MIN: u32 = 0xff7f_ffff;

/// The greatest finite number in single precision.
pub const SINGLE_MAX: u32 = 0x7f7f_ffff;

/// The sum of all counts.
pub open spec fn sum(s: Seq<usize>) -> int
    decreases s.len(),
{
    if s.len() == 0 {
        0
    } else {
        sum(s.drop_last()) + s.last()
    }
}

/// Changing one count changes the sum by as much.
pub(crate) proof fn sum_update(s: Seq<usize>, i: int, v: usize)
    requires
        0 <= i < s.len(),
    ensures
        sum(s.update(i, v)) == sum(s) - s[i] + v,
    decreases s.len(),
{
    let t = s.update(i, v);
    if i == s.len() - 1 {
        assert(t.drop_last() =~= s.drop_last());
    } else {
        assert(t.drop_last() =~= s.drop_last().update(i, v));
        sum_update(s.drop_last(), i, v);
    }
}

/// A sum is no less than each of its parts, and no less than a sum of smaller parts.
pub(crate) proof fn sum_bounds(s: Seq<usize>, t: Seq<usize>)
    requires
        s.len() == t.len(),
        forall|i: int| 0 <= i < s.len() ==> s[i] <= t[i],
    ensures
        0 <= sum(s) <= sum(t),
    decreases s.len(),
{
    if s.len() > 0 {
        sum_bounds(s.drop_last(), t.drop_last());
    }
}

/// A positive sum has a positive part.
proof fn positive_part(s: Seq<usize>) -> (i: int)
    requires
        sum(s) > 0,
    ensures
        0 <= i < s.len(),
        s[i] > 0,
    decreases s.len(),
{
    if s.last() > 0 {
        s.len() - 1
    } else {
        positive_part(s.drop_last())
    }
}

/// The fastest of the first `k` nodes that have room for another layer; the first one of
/// several.
pub open spec fn fastest_with_room(
    counts: Seq<usize>,
    rooms: Seq<usize>,
    speeds: Seq<Single>,
    k: int,
) -> Option<int>
    decreases k,
{
    if k <= 0 {
        None
    } else {
        let best = fastest_with_room(counts, rooms, speeds, k - 1);
        let best_speed = match best {
            Some(b) => speeds[b],
            None => Single { bits: SINGLE_MIN },
        };
        if counts[k - 1] < rooms[k - 1] && best_speed.below(speeds[k - 1]) {
            Some(k - 1)
        } else {
            best
        }
    }
}

/// The slowest of the first `k` nodes that have a layer; the first one of several.
pub open spec fn slowest_with_layer(
    counts: Seq<usize>,
    speeds: Seq<Single>,
    k: int,
) -> Option<int>
    decreases k,
{
    if k <= 0 {
        None
    } else {
        let worst = slowest_with_layer(counts, speeds, k - 1);
        let worst_speed = match worst {
            Some(w) => speeds[w],
            None => Single { bits: SINGLE_MAX },
        };
        if counts[k - 1] > 0 && speeds[k - 1].below(worst_speed) {
            Some(k - 1)
        } else {
            worst
        }
    }
}

/// With up to `k` more layers, each given to the fastest node that has room for it.
pub open spec fn filled(
    counts: Seq<usize>,
    rooms: Seq<usize>,
    speeds: Seq<Single>,
    k: int,
) -> Seq<usize>
    decreases k,
{
    if k <= 0 {
        counts
    } else {
        let c = filled(counts, rooms, speeds, k - 1);
        match fastest_with_room(c, rooms, speeds, c.len() as int) {
            Some(i) => c.update(i, (c[i] + 1) as usize),
            None => c,
        }
    }
}

/// With up to `k` fewer layers, each taken from the slowest node that has one.
pub open spec fn thinned(counts: Seq<usize>, speeds: Seq<Single>, k: int) -> Seq<usize>
    decreases k,
{
    if k <= 0 {
        counts
    } else {
        let c = thinned(counts, speeds, k - 1);
        match slowest_with_layer(c, speeds, c.len() as int) {
            Some(i) => c.update(i, (c[i] - 1) as usize),
            None => c,
        }
    }
}

/// The counts after missing layers were added.
pub open spec fn topped_up(
    counts: Seq<usize>,
    rooms: Seq<usize>,
    speeds: Seq<Single>,
    num_layers: usize,
) -> Seq<usize> {
    filled(counts, rooms, speeds, rest_of(num_layers as int, sum(counts)))
}

/// The counts after missing layers were added and surplus ones taken away.
pub open spec fn redistributed(
    counts: Seq<usize>,
    rooms: Seq<usize>,
    speeds: Seq<Single>,
    num_layers: usize,
) -> Seq<usize> {
    let f = topped_up(counts, rooms, speeds, num_layers);
    thinned(f, speeds, rest_of(sum(f), num_layers as int))
}

proof fn fastest_bounds(counts: Seq<usize>, rooms: Seq<usize>, speeds: Seq<Single>, k: int)
    requires
        0 <= k <= counts.len(),
    ensures
        fastest_with_room(counts, rooms, speeds, k) matches Some(i) ==> 0 <= i < k && counts[i]
            < rooms[i],
    decreases k,
{
    if k > 0 {
        fastest_bounds(counts, rooms, speeds, k - 1);
    }
}

proof fn slowest_bounds(counts: Seq<usize>, speeds: Seq<Single>, k: int)
    requires
        0 <= k <= counts.len(),
    ensures
        slowest_with_layer(counts, speeds, k) matches Some(i) ==> 0 <= i < k && counts[i] > 0,
    decreases k,
{
    if k > 0 {
        slowest_bounds(counts, speeds, k - 1);
    }
}

/// Filling keeps every node within its room and adds up to `k` layers.
proof fn filled_bounds(counts: Seq<usize>, rooms: Seq<usize>, speeds: Seq<Single>, k: int)
    requires
        counts.len() == rooms.len(),
        0 <= k,
        forall|i: int| 0 <= i < counts.len() ==> counts[i] <= rooms[i],
    ensures
        filled(counts, rooms, speeds, k).len() == counts.len(),
        forall|i: int|
            0 <= i < counts.len() ==> counts[i] <= #[trigger] filled(counts, rooms, speeds, k)[i]
                <= rooms[i],
        sum(counts) <= sum(filled(counts, rooms, speeds, k)) <= sum(counts) + k,
        sum(filled(counts, rooms, speeds, k)) < sum(counts) + k ==> fastest_with_room(
            filled(counts, rooms, speeds, k),
            rooms,
            speeds,
            counts.len() as int,
        ) is None,
    decreases k,
{
    if k > 0 {
        filled_bounds(counts, rooms, speeds, k - 1);
        let c = filled(counts, rooms, speeds, k - 1);
        fastest_bounds(c, rooms, speeds, c.len() as int);
        match fastest_with_room(c, rooms, speeds, c.len() as int) {
            Some(i) => {
                sum_update(c, i, (c[i] + 1) as usize);
            },
            None => {},
        }
    }
}

/// Once no node has room, filling has ended.
proof fn filling_ends(
    counts: Seq<usize>,
    rooms: Seq<usize>,
    speeds: Seq<Single>,
    j: int,
    k: int,
)
    requires
        0 <= j <= k,
        ({
            let c = filled(counts, rooms, speeds, j);
            fastest_with_room(c, rooms, speeds, c.len() as int) is None
        }),
    ensures
        filled(counts, rooms, speeds, k) == filled(counts, rooms, speeds, j),
    decreases k - j,
{
    if j < k {
        filling_ends(counts, rooms, speeds, j, k - 1);
    }
}

/// Thinning takes away up to `k` layers.
proof fn thinned_bounds(counts: Seq<usize>, speeds: Seq<Single>, k: int)
    requires
        0 <= k,
    ensures
        thinned(counts, speeds, k).len() == counts.len(),
        forall|i: int|
            0 <= i < counts.len() ==> #[trigger] thinned(counts, speeds, k)[i] <= counts[i],
        sum(counts) - k <= sum(thinned(counts, speeds, k)) <= sum(counts),
        sum(thinned(counts, speeds, k)) > sum(counts) - k ==> slowest_with_layer(
            thinned(counts, speeds, k),
            speeds,
            counts.len() as int,
        ) is None,
    decreases k,
{
    if k > 0 {
        thinned_bounds(counts, speeds, k - 1);
        let c = thinned(counts, speeds, k - 1);
        slowest_bounds(c, speeds, c.len() as int);
        match slowest_with_layer(c, speeds, c.len() as int) {
            Some(i) => {
                sum_update(c, i, (c[i] - 1) as usize);
            },
            None => {},
        }
    }
}

/// Once no node gives a layer, thinning has ended.
proof fn thinning_ends(counts: Seq<usize>, speeds: Seq<Single>, j: int, k: int)
    requires
        0 <= j <= k,
        ({
            let c = thinned(counts, speeds, j);
            slowest_with_layer(c, speeds, c.len() as int) is None
        }),
    ensures
        thinned(counts, speeds, k) == thinned(counts, speeds, j),
    decreases k - j,
{
    if j < k {
        thinning_ends(counts, speeds, j, k - 1);
    }
}

fn find_fastest(counts: &Vec<usize>, rooms: &Vec<usize>, speeds: &Vec<Single>) -> (res: Option<
    usize,
>)
    requires
        counts@.len() == rooms@.len() == speeds@.len(),
    ensures
        (match res {
            Some(i) => Some(i as int),
            None => None,
        }) == fastest_with_room(counts@, rooms@, speeds@, counts@.len() as int),
{
    let mut best: Option<usize> = None;
    let mut best_speed = Single { bits: SINGLE_MIN };
    let mut k: usize = 0;
    while k < counts.len()
        invariant
            k <= counts@.len() == rooms@.len() == speeds@.len(),
            (match best {
                Some(i) => Some(i as int),
                None => None,
            }) == fastest_with_room(counts@, rooms@, speeds@, k as int),
            best matches Some(i) ==> i < k && best_speed == speeds@[i as int],
            best is None ==> best_speed == (Single { bits: SINGLE_MIN }),
        decreases counts@.len() - k,
    {
        if counts[k] < rooms[k] && best_speed.is_below(speeds[k]) {
            best_speed = speeds[k];
            best = Some(k);
        }
        k = k + 1;
    }
    best
}

fn find_slowest(counts: &Vec<usize>, speeds: &Vec<Single>) -> (res: Option<usize>)
    requires
        counts@.len() == speeds@.len(),
    ensures
        (match res {
            Some(i) => Some(i as int),
            None => None,
        }) == slowest_with_layer(counts@, speeds@, counts@.len() as int),
{
    let mut worst: Option<usize> = None;
    let mut worst_speed = Single { bits: SINGLE_MAX };
    let mut k: usize = 0;
    while k < counts.len()
        invariant
            k <= counts@.len() == speeds@.len(),
            (match worst {
                Some(i) => Some(i as int),
                None => None,
            }) == slowest_with_layer(counts@, speeds@, k as int),
            worst matches Some(i) ==> i < k && worst_speed == speeds@[i as int],
            worst is None ==> worst_speed == (Single { bits: SINGLE_MAX }),
        decreases counts@.len() - k,
    {
        if counts[k] > 0 && speeds[k].is_below(worst_speed) {
            worst_speed = speeds[k];
            worst = Some(k);
        }
        k = k + 1;
    }
    worst
}

fn total_of(counts: &Vec<usize>) -> (res: usize)
    requires
        sum(counts@) <= usize::MAX,
    ensures
        res == sum(counts@),
{
    let mut total: usize = 0;
    let mut k: usize = 0;
    assert(counts@.take(0) =~= Seq::empty());
    while k < counts.len()
        invariant
            k <= counts@.len(),
            sum(counts@) <= usize::MAX,
            total == sum(counts@.take(k as int)),
        decreases counts@.len() - k,
    {
        proof {
            assert(counts@.take(k + 1).drop_last() =~= counts@.take(k as int));
            prefix_sum(counts@, k + 1);
        }
        total = total + counts[k];
        k = k + 1;
    }
    assert(counts@.take(k as int) =~= counts@);
    total
}

/// The sum of the first counts is no more than the whole sum.
pub(crate) proof fn prefix_sum(s: Seq<usize>, k: int)
    requires
        0 <= k <= s.len(),
    ensures
        0 <= sum(s.take(k)) <= sum(s),
    decreases s.len(),
{
    if k == s.len() {
        assert(s.take(k) =~= s);
        sum_bounds(s, s);
    } else {
        prefix_sum(s.drop_last(), k);
        assert(s.drop_last().take(k) =~= s.take(k));
    }
}

/// Redistribute layers so the total matches num_layers exactly: missing layers go to the
/// fastest nodes that have room, surplus layers are taken from the slowest nodes.
pub fn redistribute_layers(
    layer_counts: &mut Vec<usize>,
    rooms: &Vec<usize>,
    speeds: &Vec<Single>,
    num_layers: usize,
) -> (res: Result<()>)
    requires
        old(layer_counts)@.len() == rooms@.len() == speeds@.len(),
        forall|i: int| 0 <= i < rooms@.len() ==> old(layer_counts)@[i] <= rooms@[i],
        sum(old(layer_counts)@) <= usize::MAX,
    ensures
        ({
            let c = old(layer_counts)@;
            let f = topped_up(c, rooms@, speeds@, num_layers);
            let t = redistributed(c, rooms@, speeds@, num_layers);
            &&& res is Ok <==> sum(f) >= num_layers && sum(t) == num_layers
            &&& final(layer_counts)@ == if sum(f) < num_layers {
                f
            } else {
                t
            }
            &&& res matches Err(e) ==> if sum(f) < num_layers {
                e.is_pipeline(
                    "insufficient total capacity: need "@ + decimal(num_layers as nat)
                        + " layers, can fit "@ + decimal(sum(f) as nat),
                )
            } else {
                e.is_pipeline(
                    "failed to assign all layers: assigned "@ + decimal(sum(t) as nat)
                        + ", need "@ + decimal(num_layers as nat),
                )
            }
        }),
{
    let ghost c = layer_counts@;
    let ghost d = rest_of(num_layers as int, sum(c));
    let ghost mut j: int = 0;
    let mut total: usize = total_of(layer_counts);
    while total < num_layers
        invariant
            layer_counts@.len() == rooms@.len() == speeds@.len() == c.len(),
            c == old(layer_counts)@,
            forall|i: int| 0 <= i < rooms@.len() ==> c[i] <= rooms@[i],
            d == rest_of(num_layers as int, sum(c)),
            0 <= j <= d,
            total == sum(c) + j,
            total == sum(layer_counts@),
            layer_counts@ == filled(c, rooms@, speeds@, j),
        decreases num_layers - total,
    {
        proof {
            filled_bounds(c, rooms@, speeds@, j);
            fastest_bounds(layer_counts@, rooms@, speeds@, c.len() as int);
        }
        match find_fastest(layer_counts, rooms, speeds) {
            Some(i) => {
                proof {
                    sum_update(layer_counts@, i as int, (layer_counts@[i as int] + 1) as usize);
                }
                let n: usize = layer_counts[i] + 1;
                layer_counts.set(i, n);
                total = total + 1;
                proof {
                    j = j + 1;
                    assert(layer_counts@ =~= filled(c, rooms@, speeds@, j));
                }
            },
            None => {
                proof {
                    filling_ends(c, rooms@, speeds@, j, d);
                }
                let mut m: String = numbered(
                    "insufficient total capacity: need ",
                    num_layers as u64,
                );
                m.append(" layers, can fit ");
                push_decimal(&mut m, total as u64);
                return Err(FractureError::Pipeline(m));
            },
        }
    }
    let ghost f = layer_counts@;
    proof {
        assert(j == d);
        assert(f == topped_up(c, rooms@, speeds@, num_layers));
    }
    let ghost s = rest_of(sum(f), num_layers as int);
    proof {
        j = 0;
    }
    while total > num_layers
        invariant
            layer_counts@.len() == speeds@.len() == f.len(),
            f == topped_up(c, rooms@, speeds@, num_layers),
            c == old(layer_counts)@,
            sum(f) >= num_layers,
            s == rest_of(sum(f), num_layers as int),
            0 <= j <= s,
            total == sum(f) - j,
            total == sum(layer_counts@),
            layer_counts@ == thinned(f, speeds@, j),
        ensures
            layer_counts@ == thinned(f, speeds@, s),
            total == sum(layer_counts@),
        decreases total,
    {
        proof {
            slowest_bounds(layer_counts@, speeds@, f.len() as int);
        }
        match find_slowest(layer_counts, speeds) {
            Some(i) => {
                proof {
                    sum_update(layer_counts@, i as int, (layer_counts@[i as int] - 1) as usize);
                }
                let n: usize = layer_counts[i] - 1;
                layer_counts.set(i, n);
                total = total - 1;
                proof {
                    j = j + 1;
                    assert(layer_counts@ =~= thinned(f, speeds@, j));
                }
            },
            None => {
                proof {
                    thinning_ends(f, speeds@, j, s);
                }
                break;
            },
        }
    }
    if total != num_layers {
        let mut m: String = numbered("failed to assign all layers: assigned ", total as u64);
        m.append(", need ");
        push_decimal(&mut m, num_layers as u64);
        return Err(FractureError::Pipeline(m));
    }
    Ok(())
}

/// A speed that takes part in the comparisons: a positive number below the greatest one.
pub open spec fn usable(speed: Single) -> bool {
    0 < speed.rank() < SINGLE_MAX
}

proof fn nobody_has_room(counts: Seq<usize>, rooms: Seq<usize>, speeds: Seq<Single>, k: int)
    requires
        0 <= k <= counts.len(),
        forall|i: int| 0 <= i < k ==> usable(#[trigger] speeds[i]),
        fastest_with_room(counts, rooms, speeds, k) is None,
    ensures
        forall|i: int| 0 <= i < k ==> counts[i] >= rooms[i],
    decreases k,
{
    if k > 0 {
        assert(usable(speeds[k - 1]));
        nobody_has_room(counts, rooms, speeds, k - 1);
    }
}

proof fn nobody_has_a_layer(counts: Seq<usize>, speeds: Seq<Single>, k: int)
    requires
        0 <= k <= counts.len(),
        forall|i: int| 0 <= i < k ==> usable(#[trigger] speeds[i]),
        slowest_with_layer(counts, speeds, k) is None,
    ensures
        forall|i: int| 0 <= i < k ==> counts[i] == 0,
    decreases k,
{
    if k > 0 {
        assert(usable(speeds[k - 1]));
        nobody_has_a_layer(counts, speeds, k - 1);
    }
}

/// No node gets more layers than it has room for.
pub proof fn redistribution_keeps_room(
    counts: Seq<usize>,
    rooms: Seq<usize>,
    speeds: Seq<Single>,
    num_layers: usize,
)
    requires
        counts.len() == rooms.len(),
        forall|i: int| 0 <= i < counts.len() ==> counts[i] <= rooms[i],
    ensures
        redistributed(counts, rooms, speeds, num_layers).len() == counts.len(),
        forall|i: int|
            0 <= i < counts.len() ==> #[trigger] redistributed(
                counts,
                rooms,
                speeds,
                num_layers,
            )[i] <= rooms[i],
{
    let d = rest_of(num_layers as int, sum(counts));
    filled_bounds(counts, rooms, speeds, d);
    let f = topped_up(counts, rooms, speeds, num_layers);
    thinned_bounds(f, speeds, rest_of(sum(f), num_layers as int));
}

/// Redistribution gives out exactly the layers of the model if and only if the nodes
/// together have room for them.
pub proof fn redistribution_succeeds_with_room(
    counts: Seq<usize>,
    rooms: Seq<usize>,
    speeds: Seq<Single>,
    num_layers: usize,
)
    requires
        counts.len() == rooms.len() == speeds.len(),
        forall|i: int| 0 <= i < counts.len() ==> counts[i] <= rooms[i],
        forall|i: int| 0 <= i < speeds.len() ==> usable(#[trigger] speeds[i]),
    ensures
        sum(topped_up(counts, rooms, speeds, num_layers)) >= num_layers <==> sum(rooms)
            >= num_layers,
        sum(rooms) >= num_layers ==> sum(redistributed(counts, rooms, speeds, num_layers))
            == num_layers,
{
    let d = rest_of(num_layers as int, sum(counts));
    filled_bounds(counts, rooms, speeds, d);
    let f = topped_up(counts, rooms, speeds, num_layers);
    sum_bounds(f, rooms);
    if sum(f) < num_layers {
        nobody_has_room(f, rooms, speeds, f.len() as int);
        sum_bounds(rooms, f);
    }
    let s = rest_of(sum(f), num_layers as int);
    thinned_bounds(f, speeds, s);
    let t = thinned(f, speeds, s);
    if sum(t) > sum(f) - s {
        nobody_has_a_layer(t, speeds, t.len() as int);
        if sum(t) > 0 {
            let i = positive_part(t);
        }
    }
}

} // verus!
