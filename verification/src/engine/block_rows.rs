//! The rows of sequences that lie in blocks.
use crate::base::backend::DeviceCall;
use crate::base::dataflow::{
    after_call, after_calls, after_calls_add, changes_only, first, gathered, with_rows, Kernels,
    Memory,
};
use crate::base::tensor::{TensorId, TensorInfo};
use crate::engine::block_table::{chunks_from, Chunk};
use crate::engine::model::{after_push, Past};
use crate::engine::paged::{block_column, table_ids};
use crate::engine::paged_kv_cache::{append_calls, chunk_calls};
use vstd::prelude::*;

verus! {

/// The tensor of a block: K of layer `i` at `2 * i`, V of layer `i` at `2 * i + 1`.
pub open spec fn block_tensor(tensors: Seq<Seq<TensorInfo>>, block: int, at: int) -> TensorId {
    tensors[block][at].id
}

/// Every block has the tensors of `layers` layers, and each tensor has memory of its own.
pub open spec fn pool_is_apart(tensors: Seq<Seq<TensorInfo>>, layers: int) -> bool {
    &&& forall|b: int| 0 <= b < tensors.len() ==> 2 * layers <= (#[trigger] tensors[b]).len()
    &&& forall|a: int, i: int, b: int, j: int|
        0 <= a < tensors.len() && 0 <= b < tensors.len() && 0 <= i < 2 * layers && 0 <= j < 2
            * layers && #[trigger] block_tensor(tensors, a, i) == #[trigger] block_tensor(
            tensors,
            b,
            j,
        ) ==> a == b && i == j
}

/// The memory of a pool.
pub open spec fn pool_memory(tensors: Seq<Seq<TensorInfo>>) -> Set<TensorId> {
    Set::new(
        |id: TensorId|
            exists|b: int, i: int|
                0 <= b < tensors.len() && 0 <= i < tensors[b].len() && #[trigger] block_tensor(
                    tensors,
                    b,
                    i,
                ) == id,
    )
}

/// The table of a sequence names blocks of the pool, each once.
pub open spec fn table_is_sound(tensors: Seq<Seq<TensorInfo>>, table: Seq<usize>) -> bool {
    &&& table.no_duplicates()
    &&& forall|i: int| 0 <= i < table.len() ==> #[trigger] table[i] < tensors.len()
}

/// The row of position `p` of a sequence in tensor `at` of its blocks.
pub open spec fn row_at<R>(
    mem: Memory<R>,
    tensors: Seq<Seq<TensorInfo>>,
    table: Seq<usize>,
    at: int,
    p: int,
) -> R {
    mem[block_tensor(tensors, table[p / 16] as int, at)](p % 16)
}

/// The first `n` keys and values of a layer in a paged cache.
pub open spec fn paged<R>(
    mem: Memory<R>,
    tensors: Seq<Seq<TensorInfo>>,
    table: Seq<usize>,
    layer: int,
    n: int,
) -> Past<R> {
    Past {
        keys: Seq::new(n as nat, |p: int| row_at(mem, tensors, table, 2 * layer, p)),
        values: Seq::new(n as nat, |p: int| row_at(mem, tensors, table, 2 * layer + 1, p)),
    }
}

/// The memory that a layer of a sequence has in its blocks.
pub open spec fn table_memory(
    tensors: Seq<Seq<TensorInfo>>,
    table: Seq<usize>,
    layer: int,
) -> Set<TensorId> {
    Set::new(
        |id: TensorId|
            exists|i: int|
                #![trigger table[i]]
                0 <= i < table.len() && (block_tensor(tensors, table[i] as int, 2 * layer) == id
                    || block_tensor(tensors, table[i] as int, 2 * layer + 1) == id),
    )
}

/// Paged attention reads the rows of the sequence.
pub(crate) proof fn attention_gathers<R>(
    mem: Memory<R>,
    tensors: Seq<Seq<TensorInfo>>,
    table: Seq<usize>,
    layer: int,
    n: int,
)
    requires
        table_is_sound(tensors, table),
        tensors.len() <= i32::MAX,
        0 <= n <= 16 * table.len(),
    ensures
        gathered(mem, table_ids(table), block_column(tensors, 2 * layer), n) == paged(
            mem,
            tensors,
            table,
            layer,
            n,
        ).keys,
        gathered(mem, table_ids(table), block_column(tensors, 2 * layer + 1), n) == paged(
            mem,
            tensors,
            table,
            layer,
            n,
        ).values,
{
    assert forall|j: int| 0 <= j < table.len() implies table_ids(table)[j] as int
        == #[trigger] table[j] && table[j] < tensors.len() by {}
    assert forall|p: int| 0 <= p < n implies #[trigger] row_at(
        mem,
        tensors,
        table,
        2 * layer,
        p,
    ) == mem[block_column(tensors, 2 * layer)[table_ids(table)[p / 16] as int].id](p % 16) by {
        assert(0 <= p / 16 < table.len());
        assert(table[p / 16] < tensors.len());
    }
    assert forall|p: int| 0 <= p < n implies #[trigger] row_at(
        mem,
        tensors,
        table,
        2 * layer + 1,
        p,
    ) == mem[block_column(tensors, 2 * layer + 1)[table_ids(table)[p / 16] as int].id](
        p % 16,
    ) by {
        assert(0 <= p / 16 < table.len());
        assert(table[p / 16] < tensors.len());
    }
    assert(gathered(mem, table_ids(table), block_column(tensors, 2 * layer), n) =~= paged(
        mem,
        tensors,
        table,
        layer,
        n,
    ).keys);
    assert(gathered(mem, table_ids(table), block_column(tensors, 2 * layer + 1), n) =~= paged(
        mem,
        tensors,
        table,
        layer,
        n,
    ).values);
}

proof fn append_calls_add(
    tensors: Seq<Seq<TensorInfo>>,
    table: Seq<usize>,
    layer: int,
    keys: TensorInfo,
    values: TensorInfo,
    a: Seq<Chunk>,
    b: Seq<Chunk>,
)
    ensures
        append_calls(tensors, table, layer, keys, values, a + b) == append_calls(
            tensors,
            table,
            layer,
            keys,
            values,
            a,
        ) + append_calls(tensors, table, layer, keys, values, b),
    decreases b.len(),
{
    if b.len() == 0 {
        assert(a + b =~= a);
        assert(append_calls(tensors, table, layer, keys, values, a + b) =~= append_calls(
            tensors,
            table,
            layer,
            keys,
            values,
            a,
        ) + append_calls(tensors, table, layer, keys, values, b));
    } else {
        append_calls_add(tensors, table, layer, keys, values, a, b.drop_last());
        assert((a + b).drop_last() =~= a + b.drop_last());
        assert(append_calls(tensors, table, layer, keys, values, a + b) =~= append_calls(
            tensors,
            table,
            layer,
            keys,
            values,
            a,
        ) + append_calls(tensors, table, layer, keys, values, b));
    }
}

/// Position `p` of the sequence holds the new row `p - start` if it is one of the tokens
/// `from..to` of a batch that follows `start` others; otherwise what it held.
pub open spec fn row_is_written<R>(
    before: Memory<R>,
    after: Memory<R>,
    tensors: Seq<Seq<TensorInfo>>,
    table: Seq<usize>,
    at: int,
    rows: TensorId,
    start: int,
    from: int,
    to: int,
    p: int,
) -> bool {
    row_at(after, tensors, table, at, p) == if start + from <= p < start + to {
        before[rows](p - start)
    } else {
        row_at(before, tensors, table, at, p)
    }
}

/// One chunk is written to its positions.
proof fn chunk_is_written<R>(
    k: Kernels<R>,
    mem: Memory<R>,
    tensors: Seq<Seq<TensorInfo>>,
    layers: int,
    table: Seq<usize>,
    layer: int,
    keys: TensorInfo,
    values: TensorInfo,
    start: int,
    c: Chunk,
)
    requires
        0 <= layer < layers,
        pool_is_apart(tensors, layers),
        table_is_sound(tensors, table),
        !pool_memory(tensors).contains(keys.id),
        !pool_memory(tensors).contains(values.id),
        0 <= start,
        c.block_index < table.len(),
        start + c.written == 16 * c.block_index + c.offset,
        c.offset + c.count <= 16,
    ensures
        ({
            let m = after_calls(
                k,
                mem,
                chunk_calls(tensors, table, layer, keys, values, c),
            );
            &&& forall|p: int|
                0 <= p < 16 * table.len() ==> #[trigger] row_is_written(
                    mem,
                    m,
                    tensors,
                    table,
                    2 * layer,
                    keys.id,
                    start,
                    c.written as int,
                    c.written + c.count,
                    p,
                )
            &&& forall|p: int|
                0 <= p < 16 * table.len() ==> #[trigger] row_is_written(
                    mem,
                    m,
                    tensors,
                    table,
                    2 * layer + 1,
                    values.id,
                    start,
                    c.written as int,
                    c.written + c.count,
                    p,
                )
            &&& changes_only(mem, m, table_memory(tensors, table, layer))
        }),
{
    let calls = chunk_calls(tensors, table, layer, keys, values, c);
    let e = Seq::<DeviceCall>::empty();
    after_push(k, mem, e, calls[0]);
    after_push(k, mem, e.push(calls[0]), calls[1]);
    assert(e.push(calls[0]).push(calls[1]) =~= calls);
    let block = table[c.block_index as int] as int;
    let kt = block_tensor(tensors, block, 2 * layer);
    let vt = block_tensor(tensors, block, 2 * layer + 1);
    let m0 = after_call(k, mem, calls[0]);
    let m = after_call(k, m0, calls[1]);
    assert(tensors[block].len() >= 2 * layers);
    assert(kt != vt);
    assert(pool_memory(tensors).contains(kt));
    assert(pool_memory(tensors).contains(vt));
    assert(m[kt] == with_rows(
        mem[kt],
        c.offset as int,
        mem[keys.id],
        c.written as int,
        c.count as int,
    ));
    assert(m[vt] == with_rows(
        mem[vt],
        c.offset as int,
        mem[values.id],
        c.written as int,
        c.count as int,
    ));
    assert forall|p: int| 0 <= p < 16 * table.len() implies #[trigger] row_is_written(
        mem,
        m,
        tensors,
        table,
        2 * layer,
        keys.id,
        start,
        c.written as int,
        c.written + c.count,
        p,
    ) by {
        let b = table[p / 16] as int;
        assert(0 <= p / 16 < table.len());
        assert(b < tensors.len());
        if p / 16 == c.block_index {
            assert(p == 16 * c.block_index + p % 16);
        } else {
            assert(b != block);
            assert(block_tensor(tensors, b, 2 * layer) != kt);
            assert(block_tensor(tensors, b, 2 * layer) != vt);
        }
    }
    assert forall|p: int| 0 <= p < 16 * table.len() implies #[trigger] row_is_written(
        mem,
        m,
        tensors,
        table,
        2 * layer + 1,
        values.id,
        start,
        c.written as int,
        c.written + c.count,
        p,
    ) by {
        let b = table[p / 16] as int;
        assert(0 <= p / 16 < table.len());
        assert(b < tensors.len());
        if p / 16 == c.block_index {
            assert(p == 16 * c.block_index + p % 16);
        } else {
            assert(b != block);
            assert(block_tensor(tensors, b, 2 * layer + 1) != kt);
            assert(block_tensor(tensors, b, 2 * layer + 1) != vt);
        }
    }
    assert(table_memory(tensors, table, layer).contains(kt)) by {
        assert(table[c.block_index as int] == block);
    }
    assert(table_memory(tensors, table, layer).contains(vt)) by {
        assert(table[c.block_index as int] == block);
    }
}

/// All chunks are written to their positions.
proof fn chunks_are_written<R>(
    k: Kernels<R>,
    mem: Memory<R>,
    tensors: Seq<Seq<TensorInfo>>,
    layers: int,
    table: Seq<usize>,
    layer: int,
    keys: TensorInfo,
    values: TensorInfo,
    start: int,
    n: int,
    written: int,
)
    requires
        0 <= layer < layers,
        pool_is_apart(tensors, layers),
        table_is_sound(tensors, table),
        !pool_memory(tensors).contains(keys.id),
        !pool_memory(tensors).contains(values.id),
        0 <= start,
        0 <= written <= n,
        start + n <= usize::MAX,
        start + n <= 16 * table.len(),
    ensures
        ({
            let m = after_calls(
                k,
                mem,
                append_calls(
                    tensors,
                    table,
                    layer,
                    keys,
                    values,
                    chunks_from(start, n, written),
                ),
            );
            &&& forall|p: int|
                0 <= p < 16 * table.len() ==> #[trigger] row_is_written(
                    mem,
                    m,
                    tensors,
                    table,
                    2 * layer,
                    keys.id,
                    start,
                    written,
                    n,
                    p,
                )
            &&& forall|p: int|
                0 <= p < 16 * table.len() ==> #[trigger] row_is_written(
                    mem,
                    m,
                    tensors,
                    table,
                    2 * layer + 1,
                    values.id,
                    start,
                    written,
                    n,
                    p,
                )
            &&& changes_only(mem, m, table_memory(tensors, table, layer))
        }),
    decreases n - written,
{
    let cs = chunks_from(start, n, written);
    if written < n {
        let pos = start + written;
        let c = cs[0];
        let rest = chunks_from(start, n, written + c.count);
        assert(cs =~= seq![c] + rest);
        append_calls_add(tensors, table, layer, keys, values, seq![c], rest);
        let one = chunk_calls(tensors, table, layer, keys, values, c);
        assert(append_calls(tensors, table, layer, keys, values, seq![c]) =~= one) by {
            reveal_with_fuel(append_calls, 2);
            assert(seq![c].drop_last() =~= Seq::<Chunk>::empty());
        }
        let others = append_calls(tensors, table, layer, keys, values, rest);
        after_calls_add(k, mem, one, others);
        let m1 = after_calls(k, mem, one);
        let m = after_calls(k, m1, others);
        chunk_is_written(k, mem, tensors, layers, table, layer, keys, values, start, c);
        chunks_are_written(
            k,
            m1,
            tensors,
            layers,
            table,
            layer,
            keys,
            values,
            start,
            n,
            written + c.count,
        );
        table_memory_in_pool(tensors, layers, table, layer);
        assert(m1[keys.id] == mem[keys.id]);
        assert(m1[values.id] == mem[values.id]);
        assert forall|p: int| 0 <= p < 16 * table.len() implies #[trigger] row_is_written(
            mem,
            m,
            tensors,
            table,
            2 * layer,
            keys.id,
            start,
            written,
            n,
            p,
        ) by {
            assert(row_is_written(
                mem,
                m1,
                tensors,
                table,
                2 * layer,
                keys.id,
                start,
                c.written as int,
                c.written + c.count,
                p,
            ));
            assert(row_is_written(
                m1,
                m,
                tensors,
                table,
                2 * layer,
                keys.id,
                start,
                written + c.count,
                n,
                p,
            ));
        }
        assert forall|p: int| 0 <= p < 16 * table.len() implies #[trigger] row_is_written(
            mem,
            m,
            tensors,
            table,
            2 * layer + 1,
            values.id,
            start,
            written,
            n,
            p,
        ) by {
            assert(row_is_written(
                mem,
                m1,
                tensors,
                table,
                2 * layer + 1,
                values.id,
                start,
                c.written as int,
                c.written + c.count,
                p,
            ));
            assert(row_is_written(
                m1,
                m,
                tensors,
                table,
                2 * layer + 1,
                values.id,
                start,
                written + c.count,
                n,
                p,
            ));
        }
    } else {
        assert(cs =~= Seq::empty());
    }
}

/// The blocks of a sequence lie in the pool.
pub(crate) proof fn table_memory_in_pool(
    tensors: Seq<Seq<TensorInfo>>,
    layers: int,
    table: Seq<usize>,
    layer: int,
)
    requires
        0 <= layer < layers,
        pool_is_apart(tensors, layers),
        table_is_sound(tensors, table),
    ensures
        table_memory(tensors, table, layer).subset_of(pool_memory(tensors)),
{
    assert forall|id: TensorId| table_memory(tensors, table, layer).contains(id) implies pool_memory(
        tensors,
    ).contains(id) by {
        let i = choose|i: int|
            #![trigger table[i]]
            0 <= i < table.len() && (block_tensor(tensors, table[i] as int, 2 * layer) == id
                || block_tensor(tensors, table[i] as int, 2 * layer + 1) == id);
        let b = table[i] as int;
        assert(tensors[b].len() >= 2 * layers);
        if block_tensor(tensors, b, 2 * layer) == id {
            assert(block_tensor(tensors, b, 2 * layer) == id);
        } else {
            assert(block_tensor(tensors, b, 2 * layer + 1) == id);
        }
    }
}

/// Appending to a paged cache puts the new keys and values behind those that are there, in
/// order, and changes no block that is not the sequence's.
pub proof fn appends_follow_the_others<R>(
    k: Kernels<R>,
    mem: Memory<R>,
    tensors: Seq<Seq<TensorInfo>>,
    layers: int,
    table: Seq<usize>,
    layer: int,
    keys: TensorInfo,
    values: TensorInfo,
    start: int,
    n: int,
)
    requires
        0 <= layer < layers,
        pool_is_apart(tensors, layers),
        table_is_sound(tensors, table),
        !pool_memory(tensors).contains(keys.id),
        !pool_memory(tensors).contains(values.id),
        0 <= start,
        0 <= n,
        start + n <= usize::MAX,
        start + n <= 16 * table.len(),
    ensures
        ({
            let m = after_calls(
                k,
                mem,
                append_calls(tensors, table, layer, keys, values, chunks_from(start, n, 0)),
            );
            let past = paged(mem, tensors, table, layer, start);
            &&& paged(m, tensors, table, layer, start + n) == (Past {
                keys: past.keys + first(mem[keys.id], n),
                values: past.values + first(mem[values.id], n),
            })
            &&& changes_only(mem, m, table_memory(tensors, table, layer))
        }),
{
    chunks_are_written(k, mem, tensors, layers, table, layer, keys, values, start, n, 0);
    let m = after_calls(
        k,
        mem,
        append_calls(tensors, table, layer, keys, values, chunks_from(start, n, 0)),
    );
    let past = paged(mem, tensors, table, layer, start);
    let after = paged(m, tensors, table, layer, start + n);
    assert forall|p: int| 0 <= p < start + n implies after.keys[p] == (past.keys + first(
        mem[keys.id],
        n,
    ))[p] by {
        assert(row_is_written(mem, m, tensors, table, 2 * layer, keys.id, start, 0, n, p));
    }
    assert forall|p: int| 0 <= p < start + n implies after.values[p] == (past.values + first(
        mem[values.id],
        n,
    ))[p] by {
        assert(row_is_written(mem, m, tensors, table, 2 * layer + 1, values.id, start, 0, n, p));
    }
    assert(after.keys =~= past.keys + first(mem[keys.id], n));
    assert(after.values =~= past.values + first(mem[values.id], n));
}

} // verus!
