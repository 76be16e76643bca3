//! Block pool of the quantized cache: packed indices and norms per block, rotations
//! per layer and codebooks per bit width.
use crate::base::backend::{Backend, DeviceEvent};
use crate::base::dtype::DType;
use crate::base::error::{FractureError, Result};
use crate::base::numeric::{encode_singles, encoded, Single};
use crate::base::program::{
    all_allocated, all_done, allocate_mixed, allocation_fails, bytes_of, calls_of, error_of, frees,
    infos, joined, laid_out, layouts, push_command, ran, run_all, shape2, shaped, shapes_of,
    upload_each, uploads, DeviceCommand, Layout, TensorSpec,
};
use crate::base::tensor::{DeviceTensor, TensorInfo};
use crate::base::text::{decimal, push_decimal};
use crate::base::turboquant::{layer_bytes, layer_widths_are_used, packed_dim, TurboQuantConfig};
use crate::engine::block_table::BLOCK_SIZE;
use vstd::arithmetic::power2::pow2;
use vstd::prelude::*;
use vstd::string::StringExecFns;

verus! {

/// The reconstruction levels for one bit width.
#[derive(Debug)]
pub struct Codebook {
    pub bits: u8,
    pub centroids: Vec<Single>,
}

/// The tables that quantization works with: for each layer the rotations of keys and
/// values, as `[head_dim, head_dim]` rows, and a codebook for each bit width.
#[derive(Debug)]
pub struct QuantTables {
    pub k_rotations: Vec<Vec<Single>>,
    pub v_rotations: Vec<Vec<Single>>,
    pub codebooks: Vec<Codebook>,
}

/// The bit widths of the codebooks.
pub open spec fn codebook_bits(t: QuantTables) -> Seq<u8> {
    t.codebooks@.map_values(|c: Codebook| c.bits)
}

/// The codebooks as they are uploaded.
pub open spec fn codebook_data(t: QuantTables) -> Seq<Seq<u8>> {
    t.codebooks@.map_values(|c: Codebook| encoded(c.centroids@))
}

/// The rotations as they are uploaded: keys and values of layer 0, then of layer 1,
/// and so on.
pub open spec fn rotation_data(t: QuantTables) -> Seq<Seq<u8>> {
    Seq::new(
        2 * t.k_rotations@.len(),
        |i: int|
            if i % 2 == 0 {
                encoded(t.k_rotations@[i / 2]@)
            } else {
                encoded(t.v_rotations@[i / 2]@)
            },
    )
}

/// There is a rotation of keys and one of values for each layer, and one codebook for
/// each bit width that the configuration uses.
pub open spec fn tables_match(t: QuantTables, config: TurboQuantConfig, num_layers: usize) -> bool {
    &&& t.k_rotations@.len() == num_layers
    &&& t.v_rotations@.len() == num_layers
    &&& codebook_bits(t).no_duplicates()
    &&& forall|i: int| 0 <= i < t.codebooks@.len() ==> (#[trigger] t.codebooks@[i]).bits < 32
    &&& forall|bits: u8| #[trigger] config.uses(bits) ==> codebook_bits(t).contains(bits)
}

/// Bytes of one block, for the first `k` layers of these bit widths.
pub open spec fn widths_bytes(
    key_bits: Seq<u8>,
    value_bits: Seq<u8>,
    num_kv_heads: usize,
    head_dim: usize,
    k: int,
) -> int
    decreases k,
{
    if k <= 0 {
        0
    } else {
        widths_bytes(key_bits, value_bits, num_kv_heads, head_dim, k - 1) + layer_bytes(
            num_kv_heads,
            head_dim,
            key_bits[k - 1],
            value_bits[k - 1],
        )
    }
}

/// The sizes that are computed for these bit widths fit in `usize`.
pub open spec fn widths_fit(
    key_bits: Seq<u8>,
    value_bits: Seq<u8>,
    num_kv_heads: usize,
    head_dim: usize,
) -> bool {
    &&& forall|l: int|
        0 <= l < key_bits.len() ==> head_dim * (#[trigger] key_bits[l]) <= usize::MAX && head_dim
            * value_bits[l] <= usize::MAX
    &&& widths_bytes(key_bits, value_bits, num_kv_heads, head_dim, key_bits.len() as int)
        <= usize::MAX
}

/// More layers take no fewer bytes.
proof fn widths_bytes_grow(
    key_bits: Seq<u8>,
    value_bits: Seq<u8>,
    num_kv_heads: usize,
    head_dim: usize,
    j: int,
    k: int,
)
    requires
        j <= k,
    ensures
        widths_bytes(key_bits, value_bits, num_kv_heads, head_dim, j) <= widths_bytes(
            key_bits,
            value_bits,
            num_kv_heads,
            head_dim,
            k,
        ),
    decreases k - j,
{
    if j < k && k > 0 {
        widths_bytes_grow(key_bits, value_bits, num_kv_heads, head_dim, j, k - 1);
        layer_bytes_bounds(num_kv_heads, head_dim, key_bits[k - 1], value_bits[k - 1]);
    }
}

/// The parts of a layer's bytes are no more than all of them.
proof fn layer_bytes_bounds(num_kv_heads: usize, head_dim: usize, kb: u8, vb: u8)
    ensures
        0 <= packed_dim(head_dim, kb),
        0 <= packed_dim(head_dim, vb),
        0 <= num_kv_heads * packed_dim(head_dim, kb) <= layer_bytes(num_kv_heads, head_dim, kb, vb),
        0 <= num_kv_heads * packed_dim(head_dim, vb) <= layer_bytes(num_kv_heads, head_dim, kb, vb),
        0 <= layer_bytes(num_kv_heads, head_dim, kb, vb),
{
    let a = packed_dim(head_dim, kb);
    let b = packed_dim(head_dim, vb);
    assert(0 <= a) by (nonlinear_arith)
        requires
            a == (head_dim * kb + 7) / 8,
    ;
    assert(0 <= b) by (nonlinear_arith)
        requires
            b == (head_dim * vb + 7) / 8,
    ;
    assert(0 <= num_kv_heads * a <= 16 * num_kv_heads * a) by (nonlinear_arith)
        requires
            0 <= a,
    ;
    assert(0 <= num_kv_heads * b <= 16 * num_kv_heads * b) by (nonlinear_arith)
        requires
            0 <= b,
    ;
}

/// The packed bytes of a token's heads.
pub open spec fn packed_width(num_kv_heads: usize, head_dim: usize, bits: u8) -> usize {
    (num_kv_heads * packed_dim(head_dim, bits)) as usize
}

/// The tensors of one block, four per layer: packed keys, norms of keys, packed
/// values, norms of values.
pub open spec fn block_layouts(
    key_bits: Seq<u8>,
    value_bits: Seq<u8>,
    num_kv_heads: usize,
    head_dim: usize,
) -> Seq<Layout> {
    Seq::new(
        4 * key_bits.len(),
        |i: int| block_layout(key_bits, value_bits, num_kv_heads, head_dim, i),
    )
}

/// Tensor `i` of a block.
pub open spec fn block_layout(
    key_bits: Seq<u8>,
    value_bits: Seq<u8>,
    num_kv_heads: usize,
    head_dim: usize,
    i: int,
) -> Layout {
    if i % 4 == 0 {
        Layout {
            shape: seq![BLOCK_SIZE, packed_width(num_kv_heads, head_dim, key_bits[i / 4])],
            dtype: DType::INT8,
        }
    } else if i % 4 == 2 {
        Layout {
            shape: seq![BLOCK_SIZE, packed_width(num_kv_heads, head_dim, value_bits[i / 4])],
            dtype: DType::INT8,
        }
    } else {
        Layout { shape: seq![BLOCK_SIZE, num_kv_heads], dtype: DType::FP16 }
    }
}

/// What the tensor `i` of a block is called in messages.
pub open spec fn block_part(i: int) -> Seq<char> {
    if i % 4 == 0 {
        "K alloc"@
    } else if i % 4 == 1 {
        "K norms alloc"@
    } else if i % 4 == 2 {
        "V alloc"@
    } else {
        "V norms alloc"@
    }
}

/// The error of an allocation that failed in a block.
pub open spec fn is_block_failure(e: FractureError, block: nat, i: int, text: Seq<char>) -> bool {
    e.is_kv_cache(
        "quantized block pool "@ + block_part(i) + " failed at block "@ + decimal(block)
            + " layer "@ + decimal((i / 4) as nat) + ": "@ + text,
    )
}

fn block_failure(block: usize, i: usize, cause: &FractureError) -> (res: FractureError)
    ensures
        exists|text: Seq<char>| #[trigger]
            cause.reads(text) && is_block_failure(res, block as nat, i as int, text),
{
    let text: String = cause.to_string();
    let mut m: String = "quantized block pool ".to_owned();
    if i % 4 == 0 {
        m.append("K alloc");
    } else if i % 4 == 1 {
        m.append("K norms alloc");
    } else if i % 4 == 2 {
        m.append("V alloc");
    } else {
        m.append("V norms alloc");
    }
    m.append(" failed at block ");
    push_decimal(&mut m, block as u64);
    m.append(" layer ");
    push_decimal(&mut m, (i / 4) as u64);
    m.append(": ");
    m.append(text.as_str());
    let res = FractureError::KvCache(m);
    assert(cause.reads(text@) && is_block_failure(res, block as nat, i as int, text@));
    res
}

/// Pre-allocated pool of quantized KV cache blocks in device memory.
///
/// Each block stores compressed K and V data for `BLOCK_SIZE` tokens across all
/// layers. Layers may have different packed sizes (protected layers use more bits).
pub struct QuantizedBlockPool {
    /// The tensors of each block, four per layer: packed keys, norms of keys, packed
    /// values, norms of values.
    blocks: Vec<Vec<DeviceTensor>>,
    /// Stack of free block IDs.
    free_list: Vec<usize>,
    /// Total blocks in the pool.
    capacity: usize,
    num_layers: usize,
    num_kv_heads: usize,
    head_dim: usize,
    /// Per-layer effective bit widths.
    layer_key_bits: Vec<u8>,
    layer_value_bits: Vec<u8>,
    /// Rotations, `[head_dim, head_dim]` FP32: keys and values of each layer in turn.
    rotations: Vec<DeviceTensor>,
    /// The bit widths of the centroid tables.
    centroid_bits: Vec<u8>,
    /// Centroid tables, `[2^bits]` FP32.
    centroid_tables: Vec<DeviceTensor>,
}

impl QuantizedBlockPool {
    /// The tensors of each block.
    pub closed spec fn tensors(&self) -> Seq<Seq<TensorInfo>> {
        self.blocks@.map_values(|b: Vec<DeviceTensor>| infos(b@))
    }

    /// The free blocks. The last one is given out next.
    pub closed spec fn free(&self) -> Seq<usize> {
        self.free_list@
    }

    /// The number of blocks.
    pub closed spec fn size(&self) -> usize {
        self.capacity
    }

    /// Layers per block.
    pub closed spec fn layers(&self) -> usize {
        self.num_layers
    }

    /// Heads per token.
    pub closed spec fn kv_heads(&self) -> usize {
        self.num_kv_heads
    }

    /// Elements per head.
    pub closed spec fn dim(&self) -> usize {
        self.head_dim
    }

    /// Key bits of each layer.
    pub closed spec fn key_widths(&self) -> Seq<u8> {
        self.layer_key_bits@
    }

    /// Value bits of each layer.
    pub closed spec fn value_widths(&self) -> Seq<u8> {
        self.layer_value_bits@
    }

    /// The rotations of keys and values of each layer in turn.
    pub closed spec fn rotation_tensors(&self) -> Seq<TensorInfo> {
        infos(self.rotations@)
    }

    /// The bit widths of the centroid tables.
    pub closed spec fn codebook_widths(&self) -> Seq<u8> {
        self.centroid_bits@
    }

    /// The centroid tables.
    pub closed spec fn codebook_tensors(&self) -> Seq<TensorInfo> {
        infos(self.centroid_tables@)
    }

    /// The layouts of the tensors of a block.
    pub open spec fn layouts(&self) -> Seq<Layout> {
        block_layouts(self.key_widths(), self.value_widths(), self.kv_heads(), self.dim())
    }

    /// Bytes of one block.
    pub open spec fn block_size_bytes(&self) -> int {
        widths_bytes(
            self.key_widths(),
            self.value_widths(),
            self.kv_heads(),
            self.dim(),
            self.layers() as int,
        )
    }

    /// Every block has its tensors; every layer has its bit widths and rotations, and each
    /// bit width a centroid table; the sizes fit in `usize`.
    pub open spec fn stored(&self) -> bool {
        &&& self.tensors().len() == self.size()
        &&& forall|b: int|
            0 <= b < self.size() ==> laid_out(#[trigger] self.tensors()[b], self.layouts())
        &&& self.key_widths().len() == self.layers()
        &&& self.value_widths().len() == self.layers()
        &&& self.rotation_tensors().len() == 2 * self.layers()
        &&& self.codebook_tensors().len() == self.codebook_widths().len()
        &&& forall|l: int|
            0 <= l < self.layers() ==> self.codebook_widths().contains(
                #[trigger] self.key_widths()[l],
            ) && self.codebook_widths().contains(self.value_widths()[l])
        &&& widths_fit(self.key_widths(), self.value_widths(), self.kv_heads(), self.dim())
    }

    /// The tensors are in order, and the free list names blocks of the pool, each at most
    /// once.
    pub open spec fn wf(&self) -> bool {
        &&& self.stored()
        &&& forall|i: int| 0 <= i < self.free().len() ==> #[trigger] self.free()[i] < self.size()
        &&& self.free().no_duplicates()
    }

    /// All but the free lists is the same.
    pub open spec fn same_blocks(&self, other: &Self) -> bool {
        &&& self.tensors() == other.tensors()
        &&& self.size() == other.size()
        &&& self.layers() == other.layers()
        &&& self.kv_heads() == other.kv_heads()
        &&& self.dim() == other.dim()
        &&& self.key_widths() == other.key_widths()
        &&& self.value_widths() == other.value_widths()
        &&& self.rotation_tensors() == other.rotation_tensors()
        &&& self.codebook_widths() == other.codebook_widths()
        &&& self.codebook_tensors() == other.codebook_tensors()
    }

    /// The error of an allocation from an empty free list.
    pub open spec fn exhausted(&self) -> FractureError {
        FractureError::OutOfMemory { requested: self.block_size_bytes() as usize, available: 0 }
    }

    /// Key bits of each layer of a configuration.
    pub open spec fn config_key_widths(config: TurboQuantConfig, num_layers: usize) -> Seq<u8> {
        Seq::new(num_layers as nat, |l: int| config.key_width(l as usize, num_layers))
    }

    /// Value bits of each layer of a configuration.
    pub open spec fn config_value_widths(config: TurboQuantConfig, num_layers: usize) -> Seq<u8> {
        Seq::new(num_layers as nat, |l: int| config.value_width(l as usize, num_layers))
    }

    /// The layouts of the tensors of a block of a configuration.
    pub open spec fn config_layouts(
        config: TurboQuantConfig,
        num_layers: usize,
        num_kv_heads: usize,
        head_dim: usize,
    ) -> Seq<Layout> {
        block_layouts(
            Self::config_key_widths(config, num_layers),
            Self::config_value_widths(config, num_layers),
            num_kv_heads,
            head_dim,
        )
    }

    /// The sizes of a configuration fit in `usize`.
    pub open spec fn config_fits(
        config: TurboQuantConfig,
        num_layers: usize,
        num_kv_heads: usize,
        head_dim: usize,
    ) -> bool {
        widths_fit(
            Self::config_key_widths(config, num_layers),
            Self::config_value_widths(config, num_layers),
            num_kv_heads,
            head_dim,
        )
    }

    /// `rs` are rotations for `num_layers` layers.
    pub open spec fn are_rotations(rs: Seq<TensorInfo>, num_layers: usize, head_dim: usize) -> bool {
        shaped(
            rs,
            Seq::new(2 * num_layers as nat, |i: int| seq![head_dim, head_dim]),
            DType::FP32,
        )
    }

    /// `cs` are centroid tables for these bit widths.
    pub open spec fn are_codebooks(cs: Seq<TensorInfo>, bits: Seq<u8>) -> bool {
        shaped(cs, bits.map_values(|b: u8| seq![pow2(b as nat) as usize]), DType::FP32)
    }

    /// `made` are blocks of these layouts.
    pub open spec fn are_blocks(made: Seq<Seq<TensorInfo>>, ls: Seq<Layout>) -> bool {
        forall|b: int| 0 <= b < made.len() ==> laid_out(#[trigger] made[b], ls)
    }

    /// Creating a pool took the trace from `before` to `after` and gave `res`.
    ///
    /// First all blocks are allocated, then the rotations are uploaded, then the
    /// codebooks. On success all blocks are free, the lowest number on top.
    pub open spec fn created(
        num_blocks: usize,
        num_layers: usize,
        num_kv_heads: usize,
        head_dim: usize,
        config: TurboQuantConfig,
        tables: QuantTables,
        before: Seq<DeviceEvent>,
        after: Seq<DeviceEvent>,
        res: Result<QuantizedBlockPool>,
    ) -> bool {
        let ls = Self::config_layouts(config, num_layers, num_kv_heads, head_dim);
        match res {
            Ok(p) => {
                &&& p.wf()
                &&& p.size() == num_blocks
                &&& p.layers() == num_layers
                &&& p.kv_heads() == num_kv_heads
                &&& p.dim() == head_dim
                &&& p.key_widths() == Self::config_key_widths(config, num_layers)
                &&& p.value_widths() == Self::config_value_widths(config, num_layers)
                &&& p.free() == Seq::new(
                    num_blocks as nat,
                    |i: int| (num_blocks - 1 - i) as usize,
                )
                &&& Self::are_rotations(p.rotation_tensors(), num_layers, head_dim)
                &&& p.codebook_widths() == codebook_bits(tables)
                &&& Self::are_codebooks(p.codebook_tensors(), codebook_bits(tables))
                &&& after == before + all_allocated(joined(p.tensors())) + uploads(
                    p.rotation_tensors(),
                    rotation_data(tables),
                ) + uploads(p.codebook_tensors(), codebook_data(tables))
            },
            Err(e) => {
                ||| Self::blocks_failed(num_blocks, ls, before, after, e)
                ||| Self::rotations_failed(
                    num_blocks,
                    ls,
                    num_layers,
                    head_dim,
                    tables,
                    before,
                    after,
                    e,
                )
                ||| Self::codebooks_failed(
                    num_blocks,
                    ls,
                    num_layers,
                    head_dim,
                    tables,
                    before,
                    after,
                    e,
                )
            },
        }
    }

    /// The allocation of a block failed.
    pub open spec fn blocks_failed(
        num_blocks: usize,
        ls: Seq<Layout>,
        before: Seq<DeviceEvent>,
        after: Seq<DeviceEvent>,
        e: FractureError,
    ) -> bool {
        exists|made: Seq<Seq<TensorInfo>>, i: int, cause: FractureError, text: Seq<char>|
            made.len() < num_blocks && Self::are_blocks(made, ls) && #[trigger] allocation_fails(
                before + all_allocated(joined(made)),
                after,
                ls,
                i,
                cause,
            ) && #[trigger] cause.reads(text) && is_block_failure(e, made.len(), i, text)
    }

    /// The upload of a rotation failed.
    pub open spec fn rotations_failed(
        num_blocks: usize,
        ls: Seq<Layout>,
        num_layers: usize,
        head_dim: usize,
        tables: QuantTables,
        before: Seq<DeviceEvent>,
        after: Seq<DeviceEvent>,
        e: FractureError,
    ) -> bool {
        exists|made: Seq<Seq<TensorInfo>>, rs: Seq<TensorInfo>|
            made.len() == num_blocks && Self::are_blocks(made, ls) && Self::are_rotations(
                rs,
                num_layers,
                head_dim,
            ) && #[trigger] ran(
                before + all_allocated(joined(made)),
                after,
                uploads(rs, rotation_data(tables)),
                Some(e),
            )
    }

    /// The upload of a codebook failed.
    pub open spec fn codebooks_failed(
        num_blocks: usize,
        ls: Seq<Layout>,
        num_layers: usize,
        head_dim: usize,
        tables: QuantTables,
        before: Seq<DeviceEvent>,
        after: Seq<DeviceEvent>,
        e: FractureError,
    ) -> bool {
        exists|made: Seq<Seq<TensorInfo>>, rs: Seq<TensorInfo>, cs: Seq<TensorInfo>|
            made.len() == num_blocks && Self::are_blocks(made, ls) && Self::are_rotations(
                rs,
                num_layers,
                head_dim,
            ) && Self::are_codebooks(cs, codebook_bits(tables)) && #[trigger] ran(
                before + all_allocated(joined(made)) + uploads(rs, rotation_data(tables)),
                after,
                uploads(cs, codebook_data(tables)),
                Some(e),
            )
    }
}

/// Bit widths of all layers.
fn layer_widths(config: &TurboQuantConfig, num_layers: usize) -> (res: (Vec<u8>, Vec<u8>))
    ensures
        res.0@ == QuantizedBlockPool::config_key_widths(*config, num_layers),
        res.1@ == QuantizedBlockPool::config_value_widths(*config, num_layers),
{
    let mut keys: Vec<u8> = Vec::new();
    let mut values: Vec<u8> = Vec::new();
    let mut l: usize = 0;
    while l < num_layers
        invariant
            l <= num_layers,
            keys@ =~= QuantizedBlockPool::config_key_widths(*config, num_layers).take(l as int),
            values@ =~= QuantizedBlockPool::config_value_widths(*config, num_layers).take(l as int),
        decreases num_layers - l,
    {
        keys.push(config.key_bits_for_layer(l, num_layers));
        values.push(config.value_bits_for_layer(l, num_layers));
        l = l + 1;
    }
    assert(keys@ =~= QuantizedBlockPool::config_key_widths(*config, num_layers));
    assert(values@ =~= QuantizedBlockPool::config_value_widths(*config, num_layers));
    (keys, values)
}

/// The layouts of the tensors of a block.
fn block_specs(
    key_bits: &Vec<u8>,
    value_bits: &Vec<u8>,
    num_kv_heads: usize,
    head_dim: usize,
) -> (res: Vec<TensorSpec>)
    requires
        key_bits@.len() == value_bits@.len(),
        widths_fit(key_bits@, value_bits@, num_kv_heads, head_dim),
    ensures
        layouts(res@) == block_layouts(key_bits@, value_bits@, num_kv_heads, head_dim),
{
    let mut specs: Vec<TensorSpec> = Vec::new();
    let mut l: usize = 0;
    let ghost all = block_layouts(key_bits@, value_bits@, num_kv_heads, head_dim);
    while l < key_bits.len()
        invariant
            l <= key_bits@.len(),
            key_bits@.len() == value_bits@.len(),
            widths_fit(key_bits@, value_bits@, num_kv_heads, head_dim),
            all == block_layouts(key_bits@, value_bits@, num_kv_heads, head_dim),
            layouts(specs@) =~= all.take(4 * l),
        decreases key_bits@.len() - l,
    {
        let kb: u8 = key_bits[l];
        let vb: u8 = value_bits[l];
        assert(key_bits@[l as int] == kb);
        let k: usize = TurboQuantConfig::packed_dim_per_head(head_dim, kb);
        let v: usize = TurboQuantConfig::packed_dim_per_head(head_dim, vb);
        proof {
            layer_bytes_bounds(num_kv_heads, head_dim, kb, vb);
            widths_bytes_grow(
                key_bits@,
                value_bits@,
                num_kv_heads,
                head_dim,
                l + 1,
                key_bits@.len() as int,
            );
            widths_bytes_grow(key_bits@, value_bits@, num_kv_heads, head_dim, 0, l as int);
        }
        let ghost before = layouts(specs@);
        let a = TensorSpec { shape: shape2(BLOCK_SIZE, num_kv_heads * k), dtype: DType::INT8 };
        let b = TensorSpec { shape: shape2(BLOCK_SIZE, num_kv_heads), dtype: DType::FP16 };
        let c = TensorSpec { shape: shape2(BLOCK_SIZE, num_kv_heads * v), dtype: DType::INT8 };
        let d = TensorSpec { shape: shape2(BLOCK_SIZE, num_kv_heads), dtype: DType::FP16 };
        specs.push(a);
        specs.push(b);
        specs.push(c);
        specs.push(d);
        proof {
            let i = 4 * l as int;
            assert(all[i] == (Layout { shape: a.shape@, dtype: a.dtype }));
            assert(all[i + 1] == (Layout { shape: b.shape@, dtype: b.dtype }));
            assert(all[i + 2] == (Layout { shape: c.shape@, dtype: c.dtype }));
            assert(all[i + 3] == (Layout { shape: d.shape@, dtype: d.dtype }));
            assert(layouts(specs@) =~= before.push(all[i]).push(all[i + 1]).push(all[i + 2]).push(
                all[i + 3],
            ));
        }
        l = l + 1;
    }
    assert(all.take(4 * l) =~= all);
    specs
}

/// Allocates the blocks of a pool.
fn allocate_blocks<B: Backend>(
    backend: &mut B,
    num_blocks: usize,
    specs: &Vec<TensorSpec>,
) -> (res: Result<Vec<Vec<DeviceTensor>>>)
    ensures
        res matches Ok(v) ==> {
            let made = v@.map_values(|b: Vec<DeviceTensor>| infos(b@));
            &&& made.len() == num_blocks
            &&& QuantizedBlockPool::are_blocks(made, layouts(specs@))
            &&& final(backend).trace() == old(backend).trace() + all_allocated(joined(made))
        },
        res matches Err(e) ==> QuantizedBlockPool::blocks_failed(
            num_blocks,
            layouts(specs@),
            old(backend).trace(),
            final(backend).trace(),
            e,
        ),
{
    let ghost before = backend.trace();
    let ghost ls = layouts(specs@);
    let mut blocks: Vec<Vec<DeviceTensor>> = Vec::new();
    let ghost mut made: Seq<Seq<TensorInfo>> = Seq::empty();
    let mut block_id: usize = 0;
    assert(before + all_allocated(joined(made)) =~= before);
    while block_id < num_blocks
        invariant
            before == old(backend).trace(),
            ls == layouts(specs@),
            block_id <= num_blocks,
            made =~= blocks@.map_values(|b: Vec<DeviceTensor>| infos(b@)),
            made.len() == block_id,
            QuantizedBlockPool::are_blocks(made, ls),
            backend.trace() == before + all_allocated(joined(made)),
        decreases num_blocks - block_id,
    {
        let ghost middle = backend.trace();
        match allocate_mixed(backend, specs) {
            Ok(tensors) => {
                proof {
                    let one = infos(tensors@);
                    let next = made.push(one);
                    assert(next.drop_last() =~= made);
                    assert(all_allocated(joined(made)) + all_allocated(one) =~= all_allocated(
                        joined(next),
                    ));
                    assert(backend.trace() =~= before + all_allocated(joined(next)));
                    assert(QuantizedBlockPool::are_blocks(next, ls)) by {
                        assert forall|b: int| 0 <= b < next.len() implies laid_out(
                            #[trigger] next[b],
                            ls,
                        ) by {
                            if b < made.len() {
                                assert(next[b] == made[b]);
                            }
                        }
                    }
                    made = next;
                }
                blocks.push(tensors);
            },
            Err(f) => {
                let res = block_failure(block_id, f.0, &f.1);
                proof {
                    let text = choose|text: Seq<char>| #[trigger]
                        f.1.reads(text) && is_block_failure(
                            res,
                            block_id as nat,
                            f.0 as int,
                            text,
                        );
                    assert(allocation_fails(
                        before + all_allocated(joined(made)),
                        backend.trace(),
                        ls,
                        f.0 as int,
                        f.1,
                    ));
                    assert(f.1.reads(text));
                }
                return Err(res);
            },
        }
        block_id = block_id + 1;
    }
    Ok(blocks)
}

/// The shape and data of all rotations.
fn rotation_uploads(tables: &QuantTables, head_dim: usize) -> (res: (Vec<Vec<usize>>, Vec<Vec<u8>>))
    requires
        tables.k_rotations@.len() == tables.v_rotations@.len(),
    ensures
        shapes_of(res.0@) == Seq::new(
            2 * tables.k_rotations@.len(),
            |i: int| seq![head_dim, head_dim],
        ),
        bytes_of(res.1@) == rotation_data(*tables),
{
    let mut shapes: Vec<Vec<usize>> = Vec::new();
    let mut data: Vec<Vec<u8>> = Vec::new();
    let ghost all = rotation_data(*tables);
    let mut l: usize = 0;
    while l < tables.k_rotations.len()
        invariant
            l <= tables.k_rotations@.len(),
            tables.k_rotations@.len() == tables.v_rotations@.len(),
            all == rotation_data(*tables),
            shapes_of(shapes@) =~= Seq::new(2 * l as nat, |i: int| seq![head_dim, head_dim]),
            bytes_of(data@) =~= all.take(2 * l),
        decreases tables.k_rotations@.len() - l,
    {
        let ghost shapes_before = shapes_of(shapes@);
        let ghost data_before = bytes_of(data@);
        let a = shape2(head_dim, head_dim);
        let b = shape2(head_dim, head_dim);
        shapes.push(a);
        shapes.push(b);
        let k = encode_singles(tables.k_rotations[l].as_slice());
        let v = encode_singles(tables.v_rotations[l].as_slice());
        data.push(k);
        data.push(v);
        proof {
            assert(shapes_of(shapes@) =~= shapes_before.push(a@).push(b@));
            assert(bytes_of(data@) =~= data_before.push(k@).push(v@));
            assert(all[2 * l as int] == k@);
            assert(all[2 * l + 1] == v@);
        }
        l = l + 1;
    }
    assert(all.take(2 * l) =~= all);
    (shapes, data)
}

/// `2^bits`.
fn levels(bits: u8) -> (res: usize)
    requires
        bits < 32,
    ensures
        res == pow2(bits as nat),
{
    let mut n: usize = 1;
    let mut i: u8 = 0;
    proof {
        vstd::arithmetic::power2::lemma2_to64();
    }
    while i < bits
        invariant
            i <= bits < 32,
            n == pow2(i as nat),
        decreases bits - i,
    {
        proof {
            vstd::arithmetic::power2::lemma_pow2_unfold((i + 1) as nat);
            vstd::arithmetic::power2::lemma_pow2_strictly_increases(i as nat, 31);
            vstd::arithmetic::power2::lemma2_to64();
        }
        n = n * 2;
        i = i + 1;
    }
    n
}

/// The bit widths, shapes and data of all codebooks.
fn codebook_uploads(tables: &QuantTables) -> (res: (Vec<u8>, Vec<Vec<usize>>, Vec<Vec<u8>>))
    requires
        forall|i: int|
            0 <= i < tables.codebooks@.len() ==> (#[trigger] tables.codebooks@[i]).bits < 32,
    ensures
        res.0@ == codebook_bits(*tables),
        shapes_of(res.1@) == codebook_bits(*tables).map_values(
            |b: u8| seq![pow2(b as nat) as usize],
        ),
        bytes_of(res.2@) == codebook_data(*tables),
{
    let mut bits: Vec<u8> = Vec::new();
    let mut shapes: Vec<Vec<usize>> = Vec::new();
    let mut data: Vec<Vec<u8>> = Vec::new();
    let ghost all_bits = codebook_bits(*tables);
    let ghost all_shapes = all_bits.map_values(|b: u8| seq![pow2(b as nat) as usize]);
    let ghost all_data = codebook_data(*tables);
    let mut i: usize = 0;
    while i < tables.codebooks.len()
        invariant
            i <= tables.codebooks@.len(),
            forall|i: int|
                0 <= i < tables.codebooks@.len() ==> (#[trigger] tables.codebooks@[i]).bits < 32,
            all_bits == codebook_bits(*tables),
            all_shapes == all_bits.map_values(|b: u8| seq![pow2(b as nat) as usize]),
            all_data == codebook_data(*tables),
            bits@ =~= all_bits.take(i as int),
            shapes_of(shapes@) =~= all_shapes.take(i as int),
            bytes_of(data@) =~= all_data.take(i as int),
        decreases tables.codebooks@.len() - i,
    {
        let ghost shapes_before = shapes_of(shapes@);
        let ghost data_before = bytes_of(data@);
        let book = &tables.codebooks[i];
        assert(tables.codebooks@[i as int].bits < 32);
        bits.push(book.bits);
        let mut shape: Vec<usize> = Vec::new();
        shape.push(levels(book.bits));
        assert(shape@ =~= all_shapes[i as int]);
        shapes.push(shape);
        let bytes = encode_singles(book.centroids.as_slice());
        data.push(bytes);
        proof {
            assert(shapes_of(shapes@) =~= shapes_before.push(shape@));
            assert(bytes_of(data@) =~= data_before.push(bytes@));
            assert(all_data[i as int] == bytes@);
        }
        i = i + 1;
    }
    assert(all_bits.take(i as int) =~= all_bits);
    assert(all_shapes.take(i as int) =~= all_shapes);
    assert(all_data.take(i as int) =~= all_data);
    (bits, shapes, data)
}

impl QuantizedBlockPool {
    /// Create a new quantized block pool, pre-allocating all device memory.
    ///
    /// Allocates `num_blocks` physical blocks, each containing compressed K/V storage
    /// for all layers. Also uploads rotation matrices and codebooks.
    pub fn new<B: Backend>(
        num_blocks: usize,
        num_layers: usize,
        num_kv_heads: usize,
        head_dim: usize,
        config: &TurboQuantConfig,
        tables: &QuantTables,
        backend: &mut B,
    ) -> (res: Result<Self>)
        requires
            tables_match(*tables, *config, num_layers),
            Self::config_fits(*config, num_layers, num_kv_heads, head_dim),
        ensures
            Self::created(
                num_blocks,
                num_layers,
                num_kv_heads,
                head_dim,
                *config,
                *tables,
                old(backend).trace(),
                final(backend).trace(),
                res,
            ),
    {
        let ghost before = backend.trace();
        let (layer_key_bits, layer_value_bits) = layer_widths(config, num_layers);
        let specs = block_specs(&layer_key_bits, &layer_value_bits, num_kv_heads, head_dim);
        let ghost ls = layouts(specs@);
        let blocks = match allocate_blocks(backend, num_blocks, &specs) {
            Ok(blocks) => blocks,
            Err(e) => {
                return Err(e);
            },
        };
        let ghost made = blocks@.map_values(|b: Vec<DeviceTensor>| infos(b@));
        let mut free_list: Vec<usize> = Vec::new();
        let mut n: usize = num_blocks;
        while n > 0
            invariant
                n <= num_blocks,
                free_list@ =~= Seq::new(
                    (num_blocks - n) as nat,
                    |i: int| (num_blocks - 1 - i) as usize,
                ),
            decreases n,
        {
            n = n - 1;
            free_list.push(n);
        }
        let (shapes, data) = rotation_uploads(tables, head_dim);
        assert(shapes@.len() == shapes_of(shapes@).len() && data@.len() == bytes_of(data@).len());
        let ghost at_rotations = backend.trace();
        let r = upload_each(backend, &shapes, DType::FP32, &data);
        let ghost rs = choose|ts: Seq<TensorInfo>|
            shaped(ts, shapes_of(shapes@), DType::FP32) && (r matches Ok(v) ==> infos(v@) == ts)
                && #[trigger] ran(
                at_rotations,
                backend.trace(),
                uploads(ts, bytes_of(data@)),
                error_of(r),
            );
        let rotations = match r {
            Ok(v) => v,
            Err(e) => {
                assert(ran(
                    before + all_allocated(joined(made)),
                    backend.trace(),
                    uploads(rs, rotation_data(*tables)),
                    Some(e),
                ));
                assert(Self::rotations_failed(
                    num_blocks,
                    ls,
                    num_layers,
                    head_dim,
                    *tables,
                    before,
                    backend.trace(),
                    e,
                ));
                return Err(e);
            },
        };
        let (centroid_bits, shapes, data) = codebook_uploads(tables);
        assert(shapes@.len() == shapes_of(shapes@).len() && data@.len() == bytes_of(data@).len());
        let ghost at_codebooks = backend.trace();
        let r = upload_each(backend, &shapes, DType::FP32, &data);
        let ghost cs = choose|ts: Seq<TensorInfo>|
            shaped(ts, shapes_of(shapes@), DType::FP32) && (r matches Ok(v) ==> infos(v@) == ts)
                && #[trigger] ran(
                at_codebooks,
                backend.trace(),
                uploads(ts, bytes_of(data@)),
                error_of(r),
            );
        let centroid_tables = match r {
            Ok(v) => v,
            Err(e) => {
                assert(ran(
                    before + all_allocated(joined(made)) + uploads(rs, rotation_data(*tables)),
                    backend.trace(),
                    uploads(cs, codebook_data(*tables)),
                    Some(e),
                ));
                assert(Self::codebooks_failed(
                    num_blocks,
                    ls,
                    num_layers,
                    head_dim,
                    *tables,
                    before,
                    backend.trace(),
                    e,
                ));
                return Err(e);
            },
        };
        let pool = QuantizedBlockPool {
            blocks,
            free_list,
            capacity: num_blocks,
            num_layers,
            num_kv_heads,
            head_dim,
            layer_key_bits,
            layer_value_bits,
            rotations,
            centroid_bits,
            centroid_tables,
        };
        proof {
            assert(pool.tensors() == made);
            assert forall|l: int| 0 <= l < num_layers implies pool.codebook_widths().contains(
                #[trigger] pool.key_widths()[l],
            ) && pool.codebook_widths().contains(pool.value_widths()[l]) by {
                layer_widths_are_used(*config, l as usize, num_layers);
            }
        }
        Ok(pool)
    }

    /// Allocate a block from the free list. Returns the physical block ID.
    pub fn alloc_block(&mut self) -> (res: Result<usize>)
        requires
            old(self).stored(),
        ensures
            final(self).stored(),
            old(self).wf() ==> final(self).wf(),
            final(self).same_blocks(old(self)),
            res is Ok <==> old(self).free().len() > 0,
            res matches Ok(b) ==> b == old(self).free().last() && final(self).free() == old(
                self,
            ).free().drop_last(),
            res matches Err(e) ==> final(self).free() == old(self).free() && e == old(
                self,
            ).exhausted(),
    {
        let taken = self.free_list.pop();
        proof {
            if old(self).wf() {
                assert forall|i: int| 0 <= i < self.free().len() implies #[trigger] self.free()[i]
                    < self.size() by {
                    assert(self.free()[i] == old(self).free()[i]);
                }
                self.keeps_order(old(self));
            }
        }
        match taken {
            Some(b) => Ok(b),
            None => Err(
                FractureError::OutOfMemory { requested: self.bytes_per_block(), available: 0 },
            ),
        }
    }

    /// Return a block to the free list. The pool stays in order if the block is one of its
    /// own and was not free.
    pub fn free_block(&mut self, block_id: usize)
        ensures
            final(self).same_blocks(old(self)),
            final(self).free() == old(self).free().push(block_id),
            old(self).stored() ==> final(self).stored(),
            old(self).wf() && block_id < old(self).size() && !old(self).free().contains(block_id)
                ==> final(self).wf(),
    {
        self.free_list.push(block_id);
    }

    /// K packed indices tensor for a given block and layer.
    pub fn k_packed(&self, block_id: usize, layer: usize) -> (res: &DeviceTensor)
        requires
            self.stored(),
            block_id < self.size(),
            layer < self.layers(),
        ensures
            res@ == self.tensors()[block_id as int][4 * layer + 0],
    {
        assert(laid_out(self.tensors()[block_id as int], self.layouts()));
        let n: usize = self.blocks[block_id].len();
        assert(4 * layer + 0 < n);
        &self.blocks[block_id][4 * layer + 0]
    }

    /// K norms tensor for a given block and layer.
    pub fn k_norms(&self, block_id: usize, layer: usize) -> (res: &DeviceTensor)
        requires
            self.stored(),
            block_id < self.size(),
            layer < self.layers(),
        ensures
            res@ == self.tensors()[block_id as int][4 * layer + 1],
    {
        assert(laid_out(self.tensors()[block_id as int], self.layouts()));
        let n: usize = self.blocks[block_id].len();
        assert(4 * layer + 1 < n);
        &self.blocks[block_id][4 * layer + 1]
    }

    /// V packed indices tensor for a given block and layer.
    pub fn v_packed(&self, block_id: usize, layer: usize) -> (res: &DeviceTensor)
        requires
            self.stored(),
            block_id < self.size(),
            layer < self.layers(),
        ensures
            res@ == self.tensors()[block_id as int][4 * layer + 2],
    {
        assert(laid_out(self.tensors()[block_id as int], self.layouts()));
        let n: usize = self.blocks[block_id].len();
        assert(4 * layer + 2 < n);
        &self.blocks[block_id][4 * layer + 2]
    }

    /// V norms tensor for a given block and layer.
    pub fn v_norms(&self, block_id: usize, layer: usize) -> (res: &DeviceTensor)
        requires
            self.stored(),
            block_id < self.size(),
            layer < self.layers(),
        ensures
            res@ == self.tensors()[block_id as int][4 * layer + 3],
    {
        assert(laid_out(self.tensors()[block_id as int], self.layouts()));
        let n: usize = self.blocks[block_id].len();
        assert(4 * layer + 3 < n);
        &self.blocks[block_id][4 * layer + 3]
    }

    /// K rotation matrix for a given layer.
    pub fn k_rotation(&self, layer: usize) -> (res: &DeviceTensor)
        requires
            self.stored(),
            layer < self.layers(),
        ensures
            res@ == self.rotation_tensors()[2 * layer as int],
    {
        let n: usize = self.rotations.len();
        assert(2 * layer + 1 < n);
        &self.rotations[2 * layer]
    }

    /// V rotation matrix for a given layer.
    pub fn v_rotation(&self, layer: usize) -> (res: &DeviceTensor)
        requires
            self.stored(),
            layer < self.layers(),
        ensures
            res@ == self.rotation_tensors()[2 * layer + 1],
    {
        let n: usize = self.rotations.len();
        assert(2 * layer + 1 < n);
        &self.rotations[2 * layer + 1]
    }

    /// The centroid table for a bit width: the first with that width.
    pub open spec fn codebook_for(&self, bits: u8) -> TensorInfo {
        self.codebook_tensors()[self.codebook_widths().index_of_first(bits)->0]
    }

    /// Centroid table for a given bit-width.
    pub fn centroids(&self, bits: u8) -> (res: &DeviceTensor)
        requires
            self.stored(),
            self.codebook_widths().contains(bits),
        ensures
            res@ == self.codebook_for(bits),
    {
        let ghost widths = self.codebook_widths();
        proof {
            widths.index_of_first_ensures(bits);
        }
        let mut i: usize = 0;
        while i < self.centroid_bits.len() - 1 && self.centroid_bits[i] != bits
            invariant
                self.stored(),
                widths == self.codebook_widths(),
                widths.contains(bits),
                i < widths.len(),
                forall|j: int| 0 <= j < i ==> widths[j] != bits,
            decreases widths.len() - i,
        {
            i = i + 1;
        }
        proof {
            widths.index_of_first_ensures(bits);
            let first = widths.index_of_first(bits)->0;
            assert(widths[first] == bits);
            assert(first == i);
        }
        &self.centroid_tables[i]
    }

    /// Effective key bit-width for a given layer.
    pub fn key_bits_for_layer(&self, layer: usize) -> (res: u8)
        requires
            self.stored(),
            layer < self.layers(),
        ensures
            res == self.key_widths()[layer as int],
    {
        self.layer_key_bits[layer]
    }

    /// Effective value bit-width for a given layer.
    pub fn value_bits_for_layer(&self, layer: usize) -> (res: u8)
        requires
            self.stored(),
            layer < self.layers(),
        ensures
            res == self.value_widths()[layer as int],
    {
        self.layer_value_bits[layer]
    }

    /// The free list, for block tables that take from it and give back to it.
    pub(crate) fn free_blocks(&mut self) -> (res: &mut Vec<usize>)
        ensures
            res@ == old(self).free(),
            final(self).free() == final(res)@,
            final(self).same_blocks(old(self)),
    {
        &mut self.free_list
    }

    /// Layers per block.
    pub(crate) fn num_layers(&self) -> (res: usize)
        ensures
            res == self.layers(),
    {
        self.num_layers
    }

    /// Heads per token.
    pub(crate) fn num_kv_heads(&self) -> (res: usize)
        ensures
            res == self.kv_heads(),
    {
        self.num_kv_heads
    }

    /// The packed bytes of a token's heads at a bit width of this pool.
    fn packed_bytes(&self, layer: usize, bits: u8) -> (res: usize)
        requires
            self.stored(),
            layer < self.layers(),
            bits == self.key_widths()[layer as int] || bits == self.value_widths()[layer as int],
        ensures
            res == packed_width(self.kv_heads(), self.dim(), bits),
    {
        proof {
            let l = layer as int;
            let kb = self.key_widths();
            let vb = self.value_widths();
            assert(self.dim() * kb[l] <= usize::MAX);
            layer_bytes_bounds(self.kv_heads(), self.dim(), kb[l], vb[l]);
            widths_bytes_grow(kb, vb, self.kv_heads(), self.dim(), l + 1, kb.len() as int);
            widths_bytes_grow(kb, vb, self.kv_heads(), self.dim(), 0, l);
        }
        self.num_kv_heads * TurboQuantConfig::packed_dim_per_head(self.head_dim, bits)
    }

    /// The packed bytes of a token's keys in a layer.
    pub(crate) fn packed_key_width(&self, layer: usize) -> (res: usize)
        requires
            self.stored(),
            layer < self.layers(),
        ensures
            res == packed_width(self.kv_heads(), self.dim(), self.key_widths()[layer as int]),
    {
        self.packed_bytes(layer, self.layer_key_bits[layer])
    }

    /// The packed bytes of a token's values in a layer.
    pub(crate) fn packed_value_width(&self, layer: usize) -> (res: usize)
        requires
            self.stored(),
            layer < self.layers(),
        ensures
            res == packed_width(self.kv_heads(), self.dim(), self.value_widths()[layer as int]),
    {
        self.packed_bytes(layer, self.layer_value_bits[layer])
    }

    /// A pool that differs from one in order by its free list alone is in order, if
    /// that list is.
    pub(crate) proof fn keeps_order(&self, before: &Self)
        requires
            before.wf(),
            self.same_blocks(before),
            self.free().no_duplicates(),
            forall|i: int| 0 <= i < self.free().len() ==> #[trigger] self.free()[i] < self.size(),
        ensures
            self.wf(),
    {
        assert(self.layouts() == before.layouts());
        assert forall|b: int| 0 <= b < self.size() implies laid_out(
            #[trigger] self.tensors()[b],
            self.layouts(),
        ) by {
            assert(laid_out(before.tensors()[b], before.layouts()));
        }
        assert forall|l: int| 0 <= l < self.layers() implies self.codebook_widths().contains(
            #[trigger] self.key_widths()[l],
        ) && self.codebook_widths().contains(self.value_widths()[l]) by {
            assert(before.codebook_widths().contains(before.key_widths()[l]));
        }
    }

    /// Number of free blocks.
    pub fn num_free(&self) -> (res: usize)
        ensures
            res == self.free().len(),
    {
        self.free_list.len()
    }

    /// Total pool capacity.
    pub fn capacity(&self) -> (res: usize)
        ensures
            res == self.size(),
    {
        self.capacity
    }

    /// Bytes per block across all layers.
    pub fn bytes_per_block(&self) -> (res: usize)
        requires
            self.key_widths().len() == self.layers(),
            self.value_widths().len() == self.layers(),
            widths_fit(self.key_widths(), self.value_widths(), self.kv_heads(), self.dim()),
        ensures
            res == self.block_size_bytes(),
    {
        let ghost kb = self.key_widths();
        let ghost vb = self.value_widths();
        let mut total: usize = 0;
        let mut l: usize = 0;
        while l < self.num_layers
            invariant
                kb == self.key_widths(),
                vb == self.value_widths(),
                kb.len() == self.layers(),
                vb.len() == self.layers(),
                widths_fit(kb, vb, self.kv_heads(), self.dim()),
                l <= self.layers(),
                total == widths_bytes(kb, vb, self.kv_heads(), self.dim(), l as int),
            decreases self.num_layers - l,
        {
            proof {
                widths_bytes_grow(
                    kb,
                    vb,
                    self.kv_heads(),
                    self.dim(),
                    l + 1,
                    kb.len() as int,
                );
                widths_bytes_grow(kb, vb, self.kv_heads(), self.dim(), 0, l as int);
                assert(self.dim() * kb[l as int] <= usize::MAX);
            }
            total = total + TurboQuantConfig::bytes_per_block_layer(
                self.num_kv_heads,
                self.head_dim,
                self.layer_key_bits[l],
                self.layer_value_bits[l],
            );
            l = l + 1;
        }
        total
    }

    /// The packed keys and their norms of each block, layer by layer; or, with `off` 2,
    /// those of values.
    pub open spec fn block_rows(&self, off: int) -> Seq<Seq<TensorInfo>> {
        Seq::new(
            self.size() as nat,
            |b: int|
                Seq::new(
                    2 * self.layers() as nat,
                    |i: int| self.tensors()[b][4 * (i / 2) + off + i % 2],
                ),
        )
    }

    /// All tensors of the pool, in the order in which they are released.
    pub open spec fn all_tensors(&self) -> Seq<TensorInfo> {
        let l = self.layers() as nat;
        joined(self.block_rows(0)) + joined(self.block_rows(2)) + Seq::new(
            l,
            |i: int| self.rotation_tensors()[2 * i],
        ) + Seq::new(l, |i: int| self.rotation_tensors()[2 * i + 1]) + self.codebook_tensors()
    }

    /// Appends the release of one kind of tensors of all blocks.
    fn push_block_frees<'a>(&'a self, commands: &mut Vec<DeviceCommand<'a>>, off: usize)
        requires
            self.stored(),
            off == 0 || off == 2,
        ensures
            calls_of(final(commands)@) == calls_of(old(commands)@) + frees(
                joined(self.block_rows(off as int)),
            ),
    {
        let ghost rows = self.block_rows(off as int);
        let ghost start = calls_of(commands@);
        let mut b: usize = 0;
        assert(rows.take(0) =~= Seq::empty());
        assert(start =~= start + frees(joined(rows.take(0))));
        while b < self.capacity
            invariant
                self.stored(),
                off == 0 || off == 2,
                rows == self.block_rows(off as int),
                b <= self.size(),
                calls_of(commands@) == start + frees(joined(rows.take(b as int))),
            decreases self.capacity - b,
        {
            let mut l: usize = 0;
            assert(laid_out(self.tensors()[b as int], self.layouts()));
            let ghost sofar = calls_of(commands@);
            assert(rows[b as int].take(0) =~= Seq::empty());
            assert(sofar =~= sofar + frees(rows[b as int].take(0)));
            while l < self.num_layers
                invariant
                    self.stored(),
                    off == 0 || off == 2,
                    rows == self.block_rows(off as int),
                    b < self.size(),
                    l <= self.layers(),
                    calls_of(commands@) == sofar + frees(rows[b as int].take(2 * l)),
                decreases self.num_layers - l,
            {
                assert(laid_out(self.tensors()[b as int], self.layouts()));
                let n: usize = self.blocks[b].len();
                assert(4 * l + off + 1 < n);
                let ghost calls = calls_of(commands@);
                let x = DeviceCommand::Free { tensor: &self.blocks[b][4 * l + off] };
                let y = DeviceCommand::Free { tensor: &self.blocks[b][4 * l + off + 1] };
                push_command(commands, x);
                push_command(commands, y);
                proof {
                    let row = rows[b as int];
                    assert(row[2 * l as int] == self.tensors()[b as int][4 * l + off]);
                    assert(row[2 * l + 1] == self.tensors()[b as int][4 * l + off + 1]);
                    assert(row.take(2 * (l + 1)) =~= row.take(2 * l).push(row[2 * l as int]).push(
                        row[2 * l + 1],
                    ));
                    assert(calls_of(commands@) =~= sofar + frees(row.take(2 * (l + 1))));
                }
                l = l + 1;
            }
            proof {
                assert(rows[b as int].take(2 * l) =~= rows[b as int]);
                assert(rows.take(b + 1).drop_last() =~= rows.take(b as int));
                assert(calls_of(commands@) =~= start + frees(joined(rows.take(b + 1))));
            }
            b = b + 1;
        }
        assert(rows.take(b as int) =~= rows);
    }

    /// Free all device memory in the pool.
    pub fn destroy<B: Backend>(&self, backend: &mut B) -> (res: Result<()>)
        requires
            self.stored(),
        ensures
            ran(
                old(backend).trace(),
                final(backend).trace(),
                all_done(frees(self.all_tensors())),
                error_of(res),
            ),
    {
        let mut commands: Vec<DeviceCommand> = Vec::new();
        self.push_block_frees(&mut commands, 0);
        self.push_block_frees(&mut commands, 2);
        let ghost part1 = calls_of(commands@);
        let ghost ks = Seq::new(
            self.layers() as nat,
            |i: int| self.rotation_tensors()[2 * i],
        );
        let ghost vs = Seq::new(
            self.layers() as nat,
            |i: int| self.rotation_tensors()[2 * i + 1],
        );
        let mut l: usize = 0;
        assert(part1 =~= part1 + frees(ks.take(0)));
        while l < self.num_layers
            invariant
                self.stored(),
                l <= self.layers(),
                ks == Seq::new(self.layers() as nat, |i: int| self.rotation_tensors()[2 * i]),
                calls_of(commands@) == part1 + frees(ks.take(l as int)),
            decreases self.num_layers - l,
        {
            let t = self.k_rotation(l);
            push_command(&mut commands, DeviceCommand::Free { tensor: t });
            assert(ks.take(l + 1) =~= ks.take(l as int).push(t@));
            assert(calls_of(commands@) =~= part1 + frees(ks.take(l + 1)));
            l = l + 1;
        }
        assert(ks.take(l as int) =~= ks);
        let ghost part2 = calls_of(commands@);
        l = 0;
        assert(part2 =~= part2 + frees(vs.take(0)));
        while l < self.num_layers
            invariant
                self.stored(),
                l <= self.layers(),
                vs == Seq::new(self.layers() as nat, |i: int| self.rotation_tensors()[2 * i + 1]),
                calls_of(commands@) == part2 + frees(vs.take(l as int)),
            decreases self.num_layers - l,
        {
            let t = self.v_rotation(l);
            push_command(&mut commands, DeviceCommand::Free { tensor: t });
            assert(vs.take(l + 1) =~= vs.take(l as int).push(t@));
            assert(calls_of(commands@) =~= part2 + frees(vs.take(l + 1)));
            l = l + 1;
        }
        assert(vs.take(l as int) =~= vs);
        let ghost part3 = calls_of(commands@);
        let ghost cs = self.codebook_tensors();
        let mut i: usize = 0;
        assert(part3 =~= part3 + frees(cs.take(0)));
        while i < self.centroid_tables.len()
            invariant
                cs == self.codebook_tensors(),
                i <= cs.len(),
                calls_of(commands@) == part3 + frees(cs.take(i as int)),
            decreases cs.len() - i,
        {
            push_command(&mut commands, DeviceCommand::Free { tensor: &self.centroid_tables[i] });
            assert(cs.take(i + 1) =~= cs.take(i as int).push(cs[i as int]));
            assert(calls_of(commands@) =~= part3 + frees(cs.take(i + 1)));
            i = i + 1;
        }
        assert(cs.take(i as int) =~= cs);
        assert(calls_of(commands@) =~= frees(self.all_tensors()));
        run_all(backend, commands.as_slice())
    }
}

} // verus!
