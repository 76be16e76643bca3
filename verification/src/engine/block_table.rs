//! Block tables: which block of a pool holds which tokens of which sequence.
use crate::engine::kv_cache::CacheHandle;
use std::collections::HashMap;
use vstd::prelude::*;

verus! {

broadcast use vstd::std_specs::hash::group_hash_axioms;

/// Fixed number of tokens per block. The attention kernel is tuned for this.
pub const BLOCK_SIZE: usize = 16;

/// Blocks that hold `len` tokens. An empty sequence has one block.
pub open spec fn blocks_for(len: int) -> int {
    if len <= 0 {
        1
    } else {
        (len + BLOCK_SIZE - 1) / BLOCK_SIZE as int
    }
}

/// Tokens in the last block of `len` tokens.
pub open spec fn fill_of(len: int) -> int {
    if len <= 0 {
        0
    } else {
        (len - 1) % BLOCK_SIZE as int + 1
    }
}

/// Per-sequence block allocation state.
pub struct SequenceBlocks {
    /// Logical block index to physical block id: entry `i` holds the tokens
    /// `i * BLOCK_SIZE .. (i + 1) * BLOCK_SIZE`.
    block_table: Vec<usize>,
    /// Number of valid tokens in the last block; 0 for an empty sequence.
    last_block_fill: usize,
    /// Total tokens stored across all blocks.
    current_len: usize,
}

/// What the cache holds of a sequence.
#[verifier::ext_equal]
pub struct BlocksInfo {
    /// The physical block of each logical block.
    pub table: Seq<usize>,
    /// Tokens in the last block.
    pub last_fill: usize,
    /// Tokens in all blocks.
    pub len: usize,
}

impl BlocksInfo {
    /// There are the blocks that the tokens need, and the last one of those is filled
    /// as far as they reach.
    pub open spec fn wf(self) -> bool {
        &&& self.table.len() >= blocks_for(self.len as int)
        &&& self.last_fill == fill_of(self.len as int)
    }

    /// There are no more blocks than the tokens need.
    pub open spec fn exact(self) -> bool {
        self.table.len() == blocks_for(self.len as int)
    }

    /// How many blocks `n` more tokens take: those that they need beyond the blocks of
    /// the tokens that are there.
    pub open spec fn missing(self, n: int) -> int {
        let need = blocks_for(self.len + n) - blocks_for(self.len as int);
        if need > 0 {
            need
        } else {
            0
        }
    }

    /// With all free blocks, and no more tokens.
    pub open spec fn drained(self, free: Seq<usize>) -> BlocksInfo {
        BlocksInfo { table: self.table + taken(free, free.len() as int), ..self }
    }

    /// After `n` more tokens, with the missing blocks from the end of `free`.
    pub open spec fn grown(self, free: Seq<usize>, n: int) -> BlocksInfo {
        BlocksInfo {
            table: self.table + taken(free, self.missing(n)),
            last_fill: fill_of(self.len + n) as usize,
            len: (self.len + n) as usize,
        }
    }
}

impl SequenceBlocks {
    /// What this says.
    pub closed spec fn info(self) -> BlocksInfo {
        BlocksInfo {
            table: self.block_table@,
            last_fill: self.last_block_fill,
            len: self.current_len,
        }
    }
}

/// The blocks that `m` allocations take from a free list, in order.
pub open spec fn taken(free: Seq<usize>, m: int) -> Seq<usize> {
    Seq::new(m as nat, |i: int| free[free.len() - 1 - i])
}

/// The sequence `id` has a logical block `i`.
pub open spec fn has_slot(seqs: Map<u64, BlocksInfo>, id: u64, i: int) -> bool {
    seqs.contains_key(id) && 0 <= i < seqs[id].table.len()
}

/// The physical block behind logical block `i` of sequence `id`.
pub open spec fn slot(seqs: Map<u64, BlocksInfo>, id: u64, i: int) -> usize {
    seqs[id].table[i]
}

/// Every block of a pool of `size` blocks is either free or holds one logical
/// block of one sequence: nothing is shared, and nothing is lost.
pub open spec fn partitioned(seqs: Map<u64, BlocksInfo>, free: Seq<usize>, size: usize) -> bool {
    &&& free.no_duplicates()
    &&& forall|i: int| 0 <= i < free.len() ==> #[trigger] free[i] < size
    &&& forall|id: u64, i: int| #[trigger]
        has_slot(seqs, id, i) ==> slot(seqs, id, i) < size && !free.contains(slot(seqs, id, i))
    &&& forall|a: u64, i: int, b: u64, j: int|
        #![trigger has_slot(seqs, a, i), has_slot(seqs, b, j)]
        has_slot(seqs, a, i) && has_slot(seqs, b, j) && slot(seqs, a, i) == slot(seqs, b, j) ==> a
            == b && i == j
    &&& forall|x: usize|
        x < size && !(#[trigger] free.contains(x)) ==> exists|id: u64, i: int| #[trigger]
            has_slot(seqs, id, i) && slot(seqs, id, i) == x
}

/// Moving the last free block to the end of a table keeps the partition.
proof fn partition_push(
    seqs: Map<u64, BlocksInfo>,
    free: Seq<usize>,
    size: usize,
    id: u64,
    grown: BlocksInfo,
)
    requires
        partitioned(seqs, free, size),
        seqs.contains_key(id),
        free.len() > 0,
        grown.table == seqs[id].table.push(free.last()),
    ensures
        partitioned(seqs.insert(id, grown), free.drop_last(), size),
{
    let after = seqs.insert(id, grown);
    let rest = free.drop_last();
    let n = seqs[id].table.len() as int;
    let moved = free.last();
    assert forall|x: usize| rest.contains(x) implies free.contains(x) && x != moved by {
        let i = choose|i: int| 0 <= i < rest.len() && rest[i] == x;
        assert(free[i] == x);
    }
    assert forall|x: usize| free.contains(x) && x != moved implies rest.contains(x) by {
        let i = choose|i: int| 0 <= i < free.len() && free[i] == x;
        assert(rest[i] == x);
    }
    assert(free.contains(moved));
    assert forall|a: u64, i: int| #[trigger] has_slot(after, a, i) implies if a == id && i == n {
        slot(after, a, i) == moved
    } else {
        has_slot(seqs, a, i) && slot(after, a, i) == slot(seqs, a, i)
    } by {}
    assert forall|x: usize| x < size && !(#[trigger] rest.contains(x)) implies exists|a: u64, i: int|
        #[trigger]
        has_slot(after, a, i) && slot(after, a, i) == x by {
        if x == moved {
            assert(has_slot(after, id, n) && slot(after, id, n) == x);
        } else {
            assert(!free.contains(x));
            let (a, i) = choose|a: u64, i: int| #[trigger]
                has_slot(seqs, a, i) && slot(seqs, a, i) == x;
            assert(has_slot(after, a, i) && slot(after, a, i) == x);
        }
    }
}

/// Moving `m` blocks from the end of the free list to a table keeps the partition.
proof fn partition_grow(
    seqs: Map<u64, BlocksInfo>,
    free: Seq<usize>,
    size: usize,
    id: u64,
    grown: BlocksInfo,
    m: int,
)
    requires
        partitioned(seqs, free, size),
        seqs.contains_key(id),
        0 <= m <= free.len(),
        grown.table == seqs[id].table + taken(free, m),
    ensures
        partitioned(seqs.insert(id, grown), free.take(free.len() - m), size),
    decreases m,
{
    if m == 0 {
        assert(grown.table =~= seqs[id].table);
        assert(free.take(free.len() as int) =~= free);
        let after = seqs.insert(id, grown);
        assert forall|a: u64, i: int| #[trigger] has_slot(after, a, i) implies has_slot(seqs, a, i)
            && slot(after, a, i) == slot(seqs, a, i) by {}
        assert forall|x: usize| x < size && !(#[trigger] free.contains(x)) implies exists|
            a: u64,
            i: int,
        | #[trigger] has_slot(after, a, i) && slot(after, a, i) == x by {
            let (a, i) = choose|a: u64, i: int| #[trigger]
                has_slot(seqs, a, i) && slot(seqs, a, i) == x;
            assert(has_slot(after, a, i) && slot(after, a, i) == x);
        }
    } else {
        let less = BlocksInfo { table: seqs[id].table + taken(free, m - 1), ..grown };
        partition_grow(seqs, free, size, id, less, m - 1);
        let rest = free.take(free.len() - (m - 1));
        assert(grown.table =~= less.table.push(rest.last()));
        partition_push(seqs.insert(id, less), rest, size, id, grown);
        assert(seqs.insert(id, less).insert(id, grown) =~= seqs.insert(id, grown));
        assert(rest.drop_last() =~= free.take(free.len() - m));
    }
}

/// Giving the first free block to a new sequence keeps the partition.
proof fn partition_create(
    seqs: Map<u64, BlocksInfo>,
    free: Seq<usize>,
    size: usize,
    id: u64,
    first: BlocksInfo,
)
    requires
        partitioned(seqs, free, size),
        !seqs.contains_key(id),
        free.len() > 0,
        first.table == seq![free.last()],
    ensures
        partitioned(seqs.insert(id, first), free.drop_last(), size),
{
    let none = BlocksInfo { table: Seq::empty(), ..first };
    let before = seqs.insert(id, none);
    assert forall|a: u64, i: int| #[trigger] has_slot(before, a, i) implies has_slot(seqs, a, i)
        && slot(before, a, i) == slot(seqs, a, i) by {}
    assert forall|x: usize| x < size && !(#[trigger] free.contains(x)) implies exists|
        a: u64,
        i: int,
    | #[trigger] has_slot(before, a, i) && slot(before, a, i) == x by {
        let (a, i) = choose|a: u64, i: int| #[trigger]
            has_slot(seqs, a, i) && slot(seqs, a, i) == x;
        assert(has_slot(before, a, i) && slot(before, a, i) == x);
    }
    assert(first.table =~= before[id].table.push(free.last()));
    partition_push(before, free, size, id, first);
    assert(before.insert(id, first) =~= seqs.insert(id, first));
}

/// Returning all blocks of a sequence keeps the partition.
proof fn partition_release(
    seqs: Map<u64, BlocksInfo>,
    free: Seq<usize>,
    size: usize,
    id: u64,
)
    requires
        partitioned(seqs, free, size),
        seqs.contains_key(id),
    ensures
        partitioned(seqs.remove(id), free + seqs[id].table, size),
{
    let after = seqs.remove(id);
    let table = seqs[id].table;
    let all = free + table;
    assert forall|x: usize| all.contains(x) implies free.contains(x) || exists|i: int|
        has_slot(seqs, id, i) && #[trigger] slot(seqs, id, i) == x by {
        let i = choose|i: int| 0 <= i < all.len() && all[i] == x;
        if i < free.len() {
            assert(free[i] == x);
        } else {
            assert(has_slot(seqs, id, i - free.len()) && slot(seqs, id, i - free.len()) == x);
        }
    }
    assert forall|x: usize| free.contains(x) implies all.contains(x) by {
        let i = choose|i: int| 0 <= i < free.len() && free[i] == x;
        assert(all[i] == x);
    }
    assert forall|i: int, j: int| 0 <= i < j < all.len() implies all[i] != all[j] by {
        if j < free.len() {
            assert(free[i] == all[i] && free[j] == all[j]);
        } else {
            assert(has_slot(seqs, id, j - free.len()));
            assert(slot(seqs, id, j - free.len()) == all[j]);
            if i < free.len() {
                assert(free.contains(free[i]));
            } else {
                assert(has_slot(seqs, id, i - free.len()));
                assert(slot(seqs, id, i - free.len()) == all[i]);
            }
        }
    }
    assert forall|i: int| 0 <= i < all.len() implies #[trigger] all[i] < size by {
        if i >= free.len() {
            assert(has_slot(seqs, id, i - free.len()));
            assert(slot(seqs, id, i - free.len()) == all[i]);
        } else {
            assert(free[i] == all[i]);
        }
    }
    assert forall|a: u64, i: int| #[trigger] has_slot(after, a, i) implies has_slot(seqs, a, i)
        && slot(after, a, i) == slot(seqs, a, i) && a != id by {}
    assert forall|x: usize| x < size && !(#[trigger] all.contains(x)) implies exists|
        a: u64,
        i: int,
    | #[trigger] has_slot(after, a, i) && slot(after, a, i) == x by {
        assert(!free.contains(x));
        let (a, i) = choose|a: u64, i: int| #[trigger]
            has_slot(seqs, a, i) && slot(seqs, a, i) == x;
        if a == id {
            assert(all[free.len() + i] == x);
        }
        assert(has_slot(after, a, i) && slot(after, a, i) == x);
    }
}

/// The block tables of all sequences. The free list belongs to the pool and is
/// handed to the operations that take or return blocks.
pub struct BlockTables {
    sequences: HashMap<u64, SequenceBlocks>,
    next_id: u64,
}

impl BlockTables {
    /// What is held of each sequence, by handle.
    pub closed spec fn seqs(&self) -> Map<u64, BlocksInfo> {
        self.sequences@.map_values(|s: SequenceBlocks| s.info())
    }

    /// The number that the next handle gets.
    pub closed spec fn next_handle(&self) -> u64 {
        self.next_id
    }

    /// Handles are numbered below the next one, every sequence has the blocks that
    /// its tokens need, and each block of the pool is free or held once.
    pub open spec fn wf(&self, free: Seq<usize>, size: usize) -> bool {
        &&& partitioned(self.seqs(), free, size)
        &&& forall|id: u64| #[trigger]
            self.seqs().contains_key(id) ==> id < self.next_handle() && self.seqs()[id].wf()
    }

    /// There are finitely many sequences.
    pub(crate) proof fn few_sequences(&self)
        ensures
            self.seqs().dom().finite(),
    {
        assert(self.seqs().dom() =~= self.sequences@.dom());
    }

    /// No sequences.
    pub fn new() -> (res: Self)
        ensures
            res.seqs() == Map::<u64, BlocksInfo>::empty(),
            res.next_handle() == 0,
    {
        let res = BlockTables { sequences: HashMap::new(), next_id: 0 };
        assert(res.seqs() =~= Map::<u64, BlocksInfo>::empty());
        res
    }

    /// Adds an empty sequence with one block. `None` where no block is free; the
    /// handle number is spent either way.
    pub(crate) fn create(&mut self, free: &mut Vec<usize>, Ghost(size): Ghost<usize>) -> (res: Option<
        CacheHandle,
    >)
        requires
            old(self).wf(old(free)@, size),
            old(self).next_handle() < u64::MAX,
        ensures
            final(self).wf(final(free)@, size),
            final(self).next_handle() == old(self).next_handle() + 1,
            res is Some <==> old(free)@.len() > 0,
            res matches Some(h) ==> h.0 == old(self).next_handle() && final(free)@ == old(
                free,
            )@.drop_last() && final(self).seqs() == old(self).seqs().insert(
                h.0,
                BlocksInfo { table: seq![old(free)@.last()], last_fill: 0, len: 0 },
            ),
            res is None ==> final(free)@ == old(free)@ && final(self).seqs() == old(self).seqs(),
    {
        let id: u64 = self.next_id;
        self.next_id = self.next_id + 1;
        match free.pop() {
            None => {
                assert(self.seqs() =~= old(self).seqs());
                None
            },
            Some(block) => {
                let mut block_table: Vec<usize> = Vec::new();
                block_table.push(block);
                let s = SequenceBlocks { block_table, last_block_fill: 0, current_len: 0 };
                let ghost info = s.info();
                proof {
                    assert(info.table =~= seq![old(free)@.last()]);
                    partition_create(old(self).seqs(), old(free)@, size, id, info);
                }
                self.sequences.insert(id, s);
                assert(self.seqs() =~= old(self).seqs().insert(id, info));
                Some(CacheHandle(id))
            },
        }
    }

    /// Makes room for `n` more tokens of a sequence and counts them in. Returns
    /// false, with nothing changed, where too few blocks are free.
    pub(crate) fn reserve(
        &mut self,
        free: &mut Vec<usize>,
        handle: CacheHandle,
        n: usize,
        Ghost(size): Ghost<usize>,
    ) -> (res: bool)
        requires
            old(self).wf(old(free)@, size),
            old(self).seqs().contains_key(handle.0),
            old(self).seqs()[handle.0].missing(n as int) <= old(free)@.len() ==> old(
                self,
            ).seqs()[handle.0].len + n <= usize::MAX,
        ensures
            final(self).wf(final(free)@, size),
            final(self).next_handle() == old(self).next_handle(),
            ({
                let s = old(self).seqs()[handle.0];
                let m = s.missing(n as int);
                &&& res == (m <= old(free)@.len())
                &&& res ==> final(free)@ == old(free)@.take(old(free)@.len() - m)
                    && final(self).seqs() == old(self).seqs().insert(
                    handle.0,
                    s.grown(old(free)@, n as int),
                )
                &&& !res ==> final(free)@ == old(free)@ && final(self).seqs() == old(self).seqs()
            }),
    {
        let ghost s0 = self.seqs()[handle.0];
        let mut s = match self.sequences.remove(&handle.0) {
            Some(s) => s,
            None => {
                return false;
            },
        };
        assert(s.info() == s0);
        let slots: usize = BLOCK_SIZE - s.last_block_fill;
        let m: usize = if n <= slots {
            0
        } else {
            (n - slots - 1) / BLOCK_SIZE + 1
        };
        assert(m == s0.missing(n as int)) by {
            let len = s0.len as int;
            let q = (len - 1) / 16;
            if len > 0 {
                assert(len == 16 * q + s0.last_fill);
            }
        }
        if m > free.len() {
            self.sequences.insert(handle.0, s);
            assert(self.seqs() =~= old(self).seqs());
            return false;
        }
        let mut i: usize = 0;
        while i < m
            invariant
                i <= m <= old(free)@.len(),
                s0.table + taken(old(free)@, i as int) =~= s.block_table@,
                s.current_len == s0.len,
                free@ =~= old(free)@.take(old(free)@.len() - i),
                self.seqs() == old(self).seqs().remove(handle.0),
                self.next_handle() == old(self).next_handle(),
            decreases m - i,
        {
            match free.pop() {
                Some(block) => {
                    s.block_table.push(block);
                },
                None => {},
            }
            i = i + 1;
        }
        let total: usize = s.current_len + n;
        s.current_len = total;
        s.last_block_fill = if total == 0 {
            0
        } else {
            (total - 1) % BLOCK_SIZE + 1
        };
        let ghost info = s.info();
        proof {
            assert(info =~= s0.grown(old(free)@, n as int));
            partition_grow(old(self).seqs(), old(free)@, size, handle.0, info, m as int);
        }
        self.sequences.insert(handle.0, s);
        assert(self.seqs() =~= old(self).seqs().insert(handle.0, info));
        true
    }

    /// Gives all free blocks to a sequence.
    pub(crate) fn drain(
        &mut self,
        free: &mut Vec<usize>,
        handle: CacheHandle,
        Ghost(size): Ghost<usize>,
    )
        requires
            old(self).wf(old(free)@, size),
            old(self).seqs().contains_key(handle.0),
        ensures
            final(self).wf(final(free)@, size),
            final(self).next_handle() == old(self).next_handle(),
            final(free)@ == Seq::<usize>::empty(),
            final(self).seqs() == old(self).seqs().insert(
                handle.0,
                old(self).seqs()[handle.0].drained(old(free)@),
            ),
    {
        let ghost s0 = self.seqs()[handle.0];
        let ghost all = free@;
        if let Some(mut s) = self.sequences.remove(&handle.0) {
            assert(s.info() == s0);
            let m: usize = free.len();
            let mut i: usize = 0;
            while i < m
                invariant
                    i <= m == all.len(),
                    s0.table + taken(all, i as int) =~= s.block_table@,
                    s.current_len == s0.len,
                    s.last_block_fill == s0.last_fill,
                    free@ =~= all.take(m - i),
                    self.seqs() == old(self).seqs().remove(handle.0),
                    self.next_handle() == old(self).next_handle(),
                decreases m - i,
            {
                match free.pop() {
                    Some(block) => {
                        s.block_table.push(block);
                    },
                    None => {},
                }
                i = i + 1;
            }
            let ghost info = s.info();
            proof {
                assert(info =~= s0.drained(all));
                partition_grow(old(self).seqs(), all, size, handle.0, info, m as int);
                assert(free@ =~= Seq::<usize>::empty());
                assert(all.take(0) =~= Seq::<usize>::empty());
            }
            self.sequences.insert(handle.0, s);
            assert(self.seqs() =~= old(self).seqs().insert(handle.0, info));
        }
    }

    /// Returns the blocks of a sequence to the free list, in the order of its
    /// table, and forgets it. Returns false where there is no such sequence.
    pub(crate) fn release(
        &mut self,
        free: &mut Vec<usize>,
        handle: CacheHandle,
        Ghost(size): Ghost<usize>,
    ) -> (res: bool)
        requires
            old(self).wf(old(free)@, size),
        ensures
            final(self).wf(final(free)@, size),
            final(self).next_handle() == old(self).next_handle(),
            res == old(self).seqs().contains_key(handle.0),
            final(self).seqs() == old(self).seqs().remove(handle.0),
            final(free)@ == if res {
                old(free)@ + old(self).seqs()[handle.0].table
            } else {
                old(free)@
            },
    {
        match self.sequences.remove(&handle.0) {
            None => {
                assert(self.seqs() =~= old(self).seqs().remove(handle.0));
                assert(self.seqs() =~= old(self).seqs());
                false
            },
            Some(s) => {
                assert(self.seqs() =~= old(self).seqs().remove(handle.0));
                proof {
                    partition_release(old(self).seqs(), old(free)@, size, handle.0);
                }
                let mut i: usize = 0;
                while i < s.block_table.len()
                    invariant
                        i <= s.block_table@.len(),
                        free@ =~= old(free)@ + s.block_table@.take(i as int),
                    decreases s.block_table@.len() - i,
                {
                    free.push(s.block_table[i]);
                    i = i + 1;
                }
                assert(s.block_table@.take(i as int) =~= s.block_table@);
                true
            },
        }
    }

    /// The state of a sequence.
    pub fn get(&self, handle: CacheHandle) -> (res: Option<&SequenceBlocks>)
        ensures
            res is Some <==> self.seqs().contains_key(handle.0),
            res matches Some(s) ==> s.info() == self.seqs()[handle.0],
    {
        self.sequences.get(&handle.0)
    }
}

impl SequenceBlocks {
    /// The physical block of each logical block.
    pub fn table(&self) -> (res: &[usize])
        ensures
            res@ == self.info().table,
    {
        self.block_table.as_slice()
    }

    /// Tokens in the last block.
    pub(crate) fn last_fill(&self) -> (res: usize)
        ensures
            res == self.info().last_fill,
    {
        self.last_block_fill
    }

    /// Tokens in all blocks.
    pub fn len(&self) -> (res: usize)
        ensures
            res == self.info().len,
    {
        self.current_len
    }
}

/// A run of tokens that lands in one block.
#[derive(Debug, Clone, Copy, PartialEq, Eq, Structural)]
pub struct Chunk {
    /// The first token of the run, counted from the start of the batch.
    pub written: usize,
    /// The logical block.
    pub block_index: usize,
    /// The row of the block that the first token gets.
    pub offset: usize,
    /// Tokens in the run.
    pub count: usize,
}

/// The runs into which the tokens `written..n` fall that are appended behind
/// `start` others: each reaches to the end of its block or of the batch.
pub open spec fn chunks_from(start: int, n: int, written: int) -> Seq<Chunk>
    decreases n - written,
{
    if written >= n || start < 0 || written < 0 {
        Seq::empty()
    } else {
        let pos = start + written;
        let room = BLOCK_SIZE - pos % BLOCK_SIZE as int;
        let count = if n - written < room {
            n - written
        } else {
            room
        };
        seq![
            Chunk {
                written: written as usize,
                block_index: (pos / BLOCK_SIZE as int) as usize,
                offset: (pos % BLOCK_SIZE as int) as usize,
                count: count as usize,
            },
        ] + chunks_from(start, n, written + count)
    }
}

/// Splits `n` tokens that follow `start` others at the block boundaries.
pub(crate) fn split_chunks(start: usize, n: usize) -> (res: Vec<Chunk>)
    requires
        start + n <= usize::MAX,
    ensures
        res@ == chunks_from(start as int, n as int, 0),
{
    let mut chunks: Vec<Chunk> = Vec::new();
    let mut written: usize = 0;
    while written < n
        invariant
            written <= n,
            start + n <= usize::MAX,
            chunks@ + chunks_from(start as int, n as int, written as int) =~= chunks_from(
                start as int,
                n as int,
                0,
            ),
        decreases n - written,
    {
        let pos: usize = start + written;
        let offset: usize = pos % BLOCK_SIZE;
        let room: usize = BLOCK_SIZE - offset;
        let count: usize = if n - written < room {
            n - written
        } else {
            room
        };
        chunks.push(Chunk { written, block_index: pos / BLOCK_SIZE, offset, count });
        written = written + count;
    }
    chunks
}

/// The chunk `c` holds token `t` of a batch that follows `start` others, and puts
/// it where it belongs.
pub open spec fn places(c: Chunk, start: int, t: int) -> bool {
    &&& c.written <= t < c.written + c.count
    &&& c.block_index == (start + t) / BLOCK_SIZE as int
    &&& c.offset + (t - c.written) == (start + t) % BLOCK_SIZE as int
}

/// Every token of a batch falls into one chunk, which puts it into the logical
/// block and row of its position.
pub proof fn every_token_is_placed(start: int, n: int, written: int, t: int)
    requires
        0 <= start,
        0 <= written <= t < n,
        start + n <= usize::MAX,
    ensures
        exists|i: int|
            0 <= i < chunks_from(start, n, written).len() && places(
                #[trigger] chunks_from(start, n, written)[i],
                start,
                t,
            ),
    decreases n - written,
{
    let pos = start + written;
    let room = BLOCK_SIZE - pos % BLOCK_SIZE as int;
    let count = if n - written < room {
        n - written
    } else {
        room
    };
    let all = chunks_from(start, n, written);
    if t < written + count {
        assert((start + t) / 16 == pos / 16 && (start + t) % 16 == pos % 16 + (t - written)) by (
        nonlinear_arith)
            requires
                pos == start + written,
                written <= t < written + (16 - pos % 16),
                0 <= pos,
        ;
        assert(places(all[0], start, t));
    } else {
        let rest = chunks_from(start, n, written + count);
        every_token_is_placed(start, n, written + count, t);
        let i = choose|i: int| 0 <= i < rest.len() && places(#[trigger] rest[i], start, t);
        assert(all[i + 1] == rest[i]);
    }
}

/// Chunk `i` ends where the next one begins.
pub open spec fn adjacent(cs: Seq<Chunk>, i: int) -> bool {
    cs[i].written + cs[i].count == cs[i + 1].written
}

/// The chunks of a batch follow each other without gap or overlap, stay within
/// their blocks, and use only the blocks that the tokens need.
pub proof fn chunks_are_consecutive(start: int, n: int, written: int)
    requires
        0 <= start,
        0 <= written < n,
        start + n <= usize::MAX,
    ensures
        ({
            let cs = chunks_from(start, n, written);
            &&& cs.len() > 0
            &&& cs[0].written == written
            &&& cs.last().written + cs.last().count == n
            &&& forall|i: int| 0 <= i < cs.len() - 1 ==> #[trigger] adjacent(cs, i)
            &&& forall|i: int|
                0 <= i < cs.len() ==> 0 < (#[trigger] cs[i]).count && cs[i].offset + cs[i].count
                    <= BLOCK_SIZE && cs[i].block_index < blocks_for(start + n)
        }),
    decreases n - written,
{
    let pos = start + written;
    let room = BLOCK_SIZE - pos % BLOCK_SIZE as int;
    let count = if n - written < room {
        n - written
    } else {
        room
    };
    let cs = chunks_from(start, n, written);
    let rest = chunks_from(start, n, written + count);
    assert(cs[0].block_index < blocks_for(start + n));
    if written + count < n {
        chunks_are_consecutive(start, n, written + count);
        assert(cs.last() == rest.last());
        assert forall|i: int| 0 <= i < cs.len() - 1 implies #[trigger] adjacent(cs, i) by {
            if i > 0 {
                assert(adjacent(rest, i - 1));
                assert(cs[i] == rest[i - 1]);
                assert(cs[i + 1] == rest[i]);
            } else {
                assert(cs[1] == rest[0]);
            }
        }
        assert forall|i: int| 0 <= i < cs.len() implies 0 < (#[trigger] cs[i]).count
            && cs[i].offset + cs[i].count <= BLOCK_SIZE && cs[i].block_index < blocks_for(
            start + n,
        ) by {
            if i > 0 {
                assert(cs[i] == rest[i - 1]);
            }
        }
    } else {
        assert(rest =~= Seq::empty());
    }
}

/// Blocks of different sequences are different, and so are those of one sequence.
pub proof fn blocks_are_not_shared(
    tables: BlockTables,
    free: Seq<usize>,
    size: usize,
    a: u64,
    i: int,
    b: u64,
    j: int,
)
    requires
        tables.wf(free, size),
        has_slot(tables.seqs(), a, i),
        has_slot(tables.seqs(), b, j),
        a != b || i != j,
    ensures
        slot(tables.seqs(), a, i) != slot(tables.seqs(), b, j),
        !free.contains(slot(tables.seqs(), a, i)),
{
}

/// No block is lost: one that is not free belongs to a sequence.
pub proof fn blocks_are_not_lost(
    tables: BlockTables,
    free: Seq<usize>,
    size: usize,
    block: usize,
)
    requires
        tables.wf(free, size),
        block < size,
        !free.contains(block),
    ensures
        exists|id: u64, i: int| #[trigger]
            has_slot(tables.seqs(), id, i) && slot(tables.seqs(), id, i) == block,
{
}

/// The blocks in the tables of all sequences.
pub open spec fn blocks_held(seqs: Map<u64, BlocksInfo>) -> int
    decreases seqs.dom().len(),
{
    if seqs.dom().finite() && seqs.dom().len() > 0 {
        let id = seqs.dom().choose();
        blocks_held(seqs.remove(id)) + seqs[id].table.len()
    } else {
        0
    }
}

/// `x` stands in the table of a sequence.
spec fn is_held(seqs: Map<u64, BlocksInfo>, x: usize) -> bool {
    exists|id: u64, i: int| #[trigger] has_slot(seqs, id, i) && slot(seqs, id, i) == x
}

/// The blocks that stand in tables.
spec fn held_set(seqs: Map<u64, BlocksInfo>) -> Set<usize> {
    Set::new(|x: usize| is_held(seqs, x))
}

/// Where no block stands twice, as many blocks are held as the tables have places.
proof fn held_blocks_count(seqs: Map<u64, BlocksInfo>)
    requires
        seqs.dom().finite(),
        forall|a: u64, i: int, b: u64, j: int|
            #![trigger has_slot(seqs, a, i), has_slot(seqs, b, j)]
            has_slot(seqs, a, i) && has_slot(seqs, b, j) && slot(seqs, a, i) == slot(seqs, b, j)
                ==> a == b && i == j,
    ensures
        held_set(seqs).finite(),
        held_set(seqs).len() == blocks_held(seqs),
    decreases seqs.dom().len(),
{
    if seqs.dom().len() == 0 {
        assert(seqs.dom() =~= Set::empty());
        assert(held_set(seqs) =~= Set::empty()) by {
            assert forall|x: usize| !held_set(seqs).contains(x) by {
                if is_held(seqs, x) {
                    let (id, i) = choose|id: u64, i: int| #[trigger]
                        has_slot(seqs, id, i) && slot(seqs, id, i) == x;
                    assert(seqs.dom().contains(id));
                }
            }
        }
    } else {
        let id = seqs.dom().choose();
        let rest = seqs.remove(id);
        let table = seqs[id].table;
        assert(seqs.dom().contains(id));
        assert forall|a: u64, i: int| has_slot(rest, a, i) <==> a != id && #[trigger] has_slot(
            seqs,
            a,
            i,
        ) by {}
        assert forall|a: u64, i: int, b: u64, j: int|
            #![trigger has_slot(rest, a, i), has_slot(rest, b, j)]
            has_slot(rest, a, i) && has_slot(rest, b, j) && slot(rest, a, i) == slot(
                rest,
                b,
                j,
            ) implies a == b && i == j by {
            assert(has_slot(seqs, a, i) && has_slot(seqs, b, j));
        }
        held_blocks_count(rest);
        assert(table.no_duplicates()) by {
            assert forall|i: int, j: int|
                0 <= i < table.len() && 0 <= j < table.len() && i != j implies table[i]
                != table[j] by {
                assert(has_slot(seqs, id, i) && has_slot(seqs, id, j));
            }
        }
        table.unique_seq_to_set();
        let others = held_set(rest);
        let own = table.to_set();
        assert(others.disjoint(own)) by {
            assert forall|x: usize| !(others.contains(x) && own.contains(x)) by {
                if is_held(rest, x) && table.contains(x) {
                    let (a, i) = choose|a: u64, i: int| #[trigger]
                        has_slot(rest, a, i) && slot(rest, a, i) == x;
                    let j = table.index_of(x);
                    assert(has_slot(seqs, a, i) && has_slot(seqs, id, j));
                }
            }
        }
        assert(held_set(seqs) =~= others + own) by {
            assert forall|x: usize| held_set(seqs).contains(x) <==> (others + own).contains(x) by {
                if is_held(seqs, x) {
                    let (a, i) = choose|a: u64, i: int| #[trigger]
                        has_slot(seqs, a, i) && slot(seqs, a, i) == x;
                    if a == id {
                        assert(table[i] == x);
                    } else {
                        assert(has_slot(rest, a, i));
                    }
                }
                if is_held(rest, x) {
                    let (a, i) = choose|a: u64, i: int| #[trigger]
                        has_slot(rest, a, i) && slot(rest, a, i) == x;
                    assert(has_slot(seqs, a, i));
                }
                if table.contains(x) {
                    let j = table.index_of(x);
                    assert(has_slot(seqs, id, j));
                }
            }
        }
        vstd::set_lib::lemma_set_disjoint_lens(others, own);
    }
}

/// The numbers below `size`.
spec fn numbers_below(size: nat) -> Set<usize> {
    Set::new(|x: usize| x < size)
}

proof fn numbers_below_count(size: nat)
    requires
        size <= usize::MAX,
    ensures
        numbers_below(size).finite(),
        numbers_below(size).len() == size,
    decreases size,
{
    if size == 0 {
        assert(numbers_below(size) =~= Set::empty());
    } else {
        let less = (size - 1) as nat;
        numbers_below_count(less);
        assert(numbers_below(size) =~= numbers_below(less).insert(less as usize));
    }
}

/// Blocks add up: those in the tables of all sequences and those that are free are
/// together as many as the pool has.
pub proof fn blocks_add_up(seqs: Map<u64, BlocksInfo>, free: Seq<usize>, size: usize)
    requires
        seqs.dom().finite(),
        partitioned(seqs, free, size),
    ensures
        blocks_held(seqs) + free.len() == size,
{
    held_blocks_count(seqs);
    numbers_below_count(size as nat);
    free.unique_seq_to_set();
    let used = held_set(seqs);
    let spare = free.to_set();
    assert(used.disjoint(spare)) by {
        assert forall|x: usize| !(used.contains(x) && spare.contains(x)) by {
            if is_held(seqs, x) {
                let (a, i) = choose|a: u64, i: int| #[trigger]
                    has_slot(seqs, a, i) && slot(seqs, a, i) == x;
                assert(!free.contains(slot(seqs, a, i)));
            }
        }
    }
    assert(used + spare =~= numbers_below(size as nat)) by {
        assert forall|x: usize|
            (used + spare).contains(x) <==> numbers_below(size as nat).contains(x) by {
            if is_held(seqs, x) {
                let (a, i) = choose|a: u64, i: int| #[trigger]
                    has_slot(seqs, a, i) && slot(seqs, a, i) == x;
                assert(slot(seqs, a, i) < size);
            }
            if free.contains(x) {
                let j = free.index_of(x);
                assert(free[j] < size);
            }
            if x < size && !free.contains(x) {
                assert(is_held(seqs, x));
            }
        }
    }
    vstd::set_lib::lemma_set_disjoint_lens(used, spare);
}

/// Creating a sequence and releasing it again leaves the sequences and the free
/// list as they were.
pub proof fn create_then_release_restores(seqs: Map<u64, BlocksInfo>, free: Seq<usize>, id: u64)
    requires
        free.len() > 0,
        !seqs.contains_key(id),
    ensures
        ({
            let first = BlocksInfo { table: seq![free.last()], last_fill: 0, len: 0 };
            let created = seqs.insert(id, first);
            &&& created.remove(id) == seqs
            &&& free.drop_last() + created[id].table == free
        }),
{
    let first = BlocksInfo { table: seq![free.last()], last_fill: 0, len: 0 };
    assert(seqs.insert(id, first).remove(id) =~= seqs);
    assert(free.drop_last() + first.table =~= free);
}

/// Appending to a sequence and releasing it gives back the free blocks and those of
/// the sequence: each block that was taken comes back, and none twice.
pub proof fn append_then_release_returns_blocks(s: BlocksInfo, free: Seq<usize>, n: int)
    requires
        s.missing(n) <= free.len(),
    ensures
        ({
            let left = free.take(free.len() - s.missing(n));
            let back = left + s.grown(free, n).table;
            &&& back.len() == free.len() + s.table.len()
            &&& forall|x: usize| #[trigger] back.contains(x) <==> (free + s.table).contains(x)
        }),
{
    let m = s.missing(n);
    let left = free.take(free.len() - m);
    let back = left + s.grown(free, n).table;
    let all = free + s.table;
    assert forall|x: usize| #[trigger] back.contains(x) implies all.contains(x) by {
        let i = back.index_of(x);
        if i < left.len() {
            assert(all[i] == x);
        } else if i < left.len() + s.table.len() {
            assert(all[i - left.len() + free.len()] == x);
        } else {
            let k = i - left.len() - s.table.len();
            assert(all[free.len() - 1 - k] == x);
        }
    }
    assert forall|x: usize| all.contains(x) implies #[trigger] back.contains(x) by {
        let i = all.index_of(x);
        if i < left.len() {
            assert(back[i] == x);
        } else if i < free.len() {
            assert(back[left.len() + s.table.len() + (free.len() - 1 - i)] == x);
        } else {
            assert(back[left.len() + (i - free.len())] == x);
        }
    }
}

/// Appending `a` tokens and then `b` is appending `a + b` tokens: the same blocks in
/// the same order, and the same free list.
pub proof fn appends_add_up(s: BlocksInfo, free: Seq<usize>, a: int, b: int)
    requires
        0 <= a,
        0 <= b,
        s.len + a + b <= usize::MAX,
        s.missing(a + b) <= free.len(),
    ensures
        ({
            let first = s.grown(free, a);
            let left = free.take(free.len() - s.missing(a));
            &&& first.missing(b) <= left.len()
            &&& first.grown(left, b) == s.grown(free, a + b)
            &&& left.take(left.len() - first.missing(b)) == free.take(
                free.len() - s.missing(a + b),
            )
        }),
{
    let first = s.grown(free, a);
    let left = free.take(free.len() - s.missing(a));
    assert(first.missing(b) == s.missing(a + b) - s.missing(a));
    assert(first.grown(left, b).table =~= s.grown(free, a + b).table);
    assert(left.take(left.len() - first.missing(b)) =~= free.take(
        free.len() - s.missing(a + b),
    ));
}

} // verus!
