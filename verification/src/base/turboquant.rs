//! TurboQuant: configuration and sizes of the quantized cache, and the generator that
//! seeds its rotations.
use crate::base::error::{FractureError, Result};
use crate::base::text::{decimal, numbered};
use vstd::prelude::*;

verus! {

/// Tokens per block.
const BLOCK_TOKENS: usize = 16;

/// TurboQuant configuration.
#[derive(Debug, Clone, Copy, PartialEq, Eq, Structural)]
pub struct TurboQuantConfig {
    /// Key quantization bits for normal layers.
    pub key_bits: u8,
    /// Value quantization bits for normal layers.
    pub value_bits: u8,
    /// Bit width for protected (first/last N) layers.
    pub protected_bits: u8,
    /// Number of first/last layers to protect with higher bits.
    pub protected_layers: usize,
    /// Recent tokens kept in FP16 per sequence.
    pub residual_tokens: usize,
    /// Base seed for rotation matrix generation.
    pub seed: u64,
}

impl Default for TurboQuantConfig {
    fn default() -> (res: Self)
        ensures
            res == (TurboQuantConfig {
                key_bits: 4,
                value_bits: 2,
                protected_bits: 8,
                protected_layers: 0,
                residual_tokens: 0,
                seed: 42,
            }),
    {
        TurboQuantConfig {
            key_bits: 4,
            value_bits: 2,
            protected_bits: 8,
            protected_layers: 0,
            residual_tokens: 0,
            seed: 42,
        }
    }
}

/// A bit width that can be packed.
pub open spec fn valid_bits(bits: u8) -> bool {
    bits == 2 || bits == 4 || bits == 8
}

fn is_valid_bits(bits: u8) -> (res: bool)
    ensures
        res == valid_bits(bits),
{
    bits == 2 || bits == 4 || bits == 8
}

/// Bytes that hold `head_dim` numbers of `bits` bits.
pub open spec fn packed_dim(head_dim: usize, bits: u8) -> int {
    (head_dim * bits + 7) / 8
}

/// Bytes of a block for one layer: packed keys and values, and a norm of two bytes
/// for each head of each.
pub open spec fn layer_bytes(num_kv_heads: usize, head_dim: usize, key_bits: u8, value_bits: u8) -> int {
    16 * num_kv_heads * packed_dim(head_dim, key_bits) + 16 * num_kv_heads * packed_dim(
        head_dim,
        value_bits,
    ) + 16 * num_kv_heads * 2 + 16 * num_kv_heads * 2
}

/// How many blocks of `bytes` bytes fit in the memory that is available beside the
/// reserve. None do where a block has no bytes.
pub open spec fn blocks_in(available: int, reserve: int, bytes: int) -> int {
    if bytes == 0 || available <= reserve {
        0
    } else {
        (available - reserve) / bytes
    }
}

/// Blocks are counted exactly: as many fit as [`blocks_in`] says, and one more does not.
pub proof fn blocks_fill_the_budget(available: int, reserve: int, bytes: int, n: int)
    requires
        0 < bytes,
        0 <= reserve <= available,
        0 <= n,
    ensures
        n <= blocks_in(available, reserve, bytes) <==> n * bytes + reserve <= available,
{
    let budget = available - reserve;
    let q = budget / bytes;
    assert(n <= q <==> n * bytes <= budget) by (nonlinear_arith)
        requires
            0 < bytes,
            0 <= budget,
            0 <= n,
            q == budget / bytes,
    ;
    if budget == 0 {
        assert(0int / bytes == 0) by (nonlinear_arith)
            requires
                0 < bytes,
        ;
    }
}

impl TurboQuantConfig {
    /// The layer is among the first or the last that are protected.
    pub open spec fn protects(self, layer: usize, num_layers: usize) -> bool {
        self.protected_layers > 0 && (layer < self.protected_layers || layer + self.protected_layers
            >= num_layers)
    }

    /// Key bits of a layer.
    pub open spec fn key_width(self, layer: usize, num_layers: usize) -> u8 {
        if self.protects(layer, num_layers) {
            self.protected_bits
        } else {
            self.key_bits
        }
    }

    /// Value bits of a layer.
    pub open spec fn value_width(self, layer: usize, num_layers: usize) -> u8 {
        if self.protects(layer, num_layers) {
            self.protected_bits
        } else {
            self.value_bits
        }
    }

    /// The bit width is used by some layer.
    pub open spec fn uses(self, bits: u8) -> bool {
        bits == self.key_bits || bits == self.value_bits || (self.protected_layers > 0 && bits
            == self.protected_bits)
    }

    /// Bytes of a block for the first `k` of `num_layers` layers.
    pub open spec fn block_bytes(
        self,
        k: int,
        num_layers: usize,
        num_kv_heads: usize,
        head_dim: usize,
    ) -> int
        decreases k,
    {
        if k <= 0 {
            0
        } else {
            self.block_bytes(k - 1, num_layers, num_kv_heads, head_dim) + layer_bytes(
                num_kv_heads,
                head_dim,
                self.key_width((k - 1) as usize, num_layers),
                self.value_width((k - 1) as usize, num_layers),
            )
        }
    }

    /// The size of a head in each layer, and of a block, fits in `usize`.
    pub open spec fn sizes_fit(
        self,
        num_layers: usize,
        num_kv_heads: usize,
        head_dim: usize,
    ) -> bool {
        &&& forall|layer: usize|
            layer < num_layers ==> head_dim * (#[trigger] self.key_width(layer, num_layers))
                <= usize::MAX && head_dim * self.value_width(layer, num_layers) <= usize::MAX
        &&& self.block_bytes(num_layers as int, num_layers, num_kv_heads, head_dim) <= usize::MAX
    }

    /// The first bit width that cannot be packed.
    pub open spec fn complaint(self) -> Option<Seq<char>> {
        if !valid_bits(self.key_bits) {
            Some("TurboQuant key_bits must be 2, 4, or 8, got "@ + decimal(self.key_bits as nat))
        } else if !valid_bits(self.value_bits) {
            Some(
                "TurboQuant value_bits must be 2, 4, or 8, got "@ + decimal(
                    self.value_bits as nat,
                ),
            )
        } else if !valid_bits(self.protected_bits) {
            Some(
                "TurboQuant protected_bits must be 2, 4, or 8, got "@ + decimal(
                    self.protected_bits as nat,
                ),
            )
        } else {
            None
        }
    }

    /// Validate configuration.
    pub fn validate(&self) -> (res: Result<()>)
        ensures
            res is Ok <==> self.complaint() is None,
            res matches Err(e) ==> e.is_model_config(self.complaint()->0),
    {
        if !is_valid_bits(self.key_bits) {
            return Err(
                FractureError::ModelConfig(
                    numbered(
                        "TurboQuant key_bits must be 2, 4, or 8, got ",
                        self.key_bits as u64,
                    ),
                ),
            );
        }
        if !is_valid_bits(self.value_bits) {
            return Err(
                FractureError::ModelConfig(
                    numbered(
                        "TurboQuant value_bits must be 2, 4, or 8, got ",
                        self.value_bits as u64,
                    ),
                ),
            );
        }
        if !is_valid_bits(self.protected_bits) {
            return Err(
                FractureError::ModelConfig(
                    numbered(
                        "TurboQuant protected_bits must be 2, 4, or 8, got ",
                        self.protected_bits as u64,
                    ),
                ),
            );
        }
        Ok(())
    }

    /// Returns the effective key bit-width for a given layer.
    pub fn key_bits_for_layer(&self, layer: usize, num_layers: usize) -> (res: u8)
        ensures
            res == self.key_width(layer, num_layers),
    {
        if self.is_protected(layer, num_layers) {
            self.protected_bits
        } else {
            self.key_bits
        }
    }

    /// Returns the effective value bit-width for a given layer.
    pub fn value_bits_for_layer(&self, layer: usize, num_layers: usize) -> (res: u8)
        ensures
            res == self.value_width(layer, num_layers),
    {
        if self.is_protected(layer, num_layers) {
            self.protected_bits
        } else {
            self.value_bits
        }
    }

    /// Returns true if a layer is protected (first/last N layers).
    pub fn is_protected(&self, layer: usize, num_layers: usize) -> (res: bool)
        ensures
            res == self.protects(layer, num_layers),
    {
        self.protected_layers > 0 && (layer < self.protected_layers || layer
            >= num_layers.saturating_sub(self.protected_layers))
    }

    /// Returns the set of distinct bit-widths in use, in ascending order.
    pub fn distinct_bit_widths(&self) -> (res: Vec<u8>)
        ensures
            forall|i: int, j: int| 0 <= i < j < res@.len() ==> res@[i] < res@[j],
            forall|bits: u8| #[trigger] res@.contains(bits) <==> self.uses(bits),
    {
        let bits: Vec<u8> = Vec::new();
        let bits = insert_bits(bits, self.key_bits);
        let bits = insert_bits(bits, self.value_bits);
        if self.protected_layers > 0 {
            insert_bits(bits, self.protected_bits)
        } else {
            bits
        }
    }

    /// Computes the packed byte dimension for a given head_dim and bit-width.
    pub fn packed_dim_per_head(head_dim: usize, bits: u8) -> (res: usize)
        requires
            head_dim * bits <= usize::MAX,
        ensures
            res == packed_dim(head_dim, bits),
    {
        assert(0 <= head_dim * bits) by (nonlinear_arith);
        let total: usize = head_dim * bits as usize;
        if total % 8 == 0 {
            total / 8
        } else {
            total / 8 + 1
        }
    }

    /// Computes bytes per quantized block for one layer (K+V, one layer).
    pub fn bytes_per_block_layer(
        num_kv_heads: usize,
        head_dim: usize,
        key_bits: u8,
        value_bits: u8,
    ) -> (res: usize)
        requires
            head_dim * key_bits <= usize::MAX,
            head_dim * value_bits <= usize::MAX,
            layer_bytes(num_kv_heads, head_dim, key_bits, value_bits) <= usize::MAX,
        ensures
            res == layer_bytes(num_kv_heads, head_dim, key_bits, value_bits),
    {
        let k: usize = Self::packed_dim_per_head(head_dim, key_bits);
        let v: usize = Self::packed_dim_per_head(head_dim, value_bits);
        proof {
            assert(0 <= 16 * num_kv_heads * k) by (nonlinear_arith);
            assert(0 <= 16 * num_kv_heads * v) by (nonlinear_arith);
        }
        let k_packed_bytes: usize = BLOCK_TOKENS * num_kv_heads * k;
        let v_packed_bytes: usize = BLOCK_TOKENS * num_kv_heads * v;
        let k_norm_bytes: usize = BLOCK_TOKENS * num_kv_heads * 2;
        let v_norm_bytes: usize = BLOCK_TOKENS * num_kv_heads * 2;
        k_packed_bytes + v_packed_bytes + k_norm_bytes + v_norm_bytes
    }

    /// Computes total bytes per physical block across all layers, accounting
    /// for per-layer bit widths (protected vs normal).
    pub fn bytes_per_block_total(
        &self,
        num_layers: usize,
        num_kv_heads: usize,
        head_dim: usize,
    ) -> (res: usize)
        requires
            self.sizes_fit(num_layers, num_kv_heads, head_dim),
        ensures
            res == self.block_bytes(num_layers as int, num_layers, num_kv_heads, head_dim),
    {
        let mut total: usize = 0;
        let mut layer: usize = 0;
        while layer < num_layers
            invariant
                layer <= num_layers,
                self.sizes_fit(num_layers, num_kv_heads, head_dim),
                total == self.block_bytes(layer as int, num_layers, num_kv_heads, head_dim),
            decreases num_layers - layer,
        {
            let kb: u8 = self.key_bits_for_layer(layer, num_layers);
            let vb: u8 = self.value_bits_for_layer(layer, num_layers);
            proof {
                block_bytes_grow(
                    *self,
                    layer as int + 1,
                    num_layers as int,
                    num_layers,
                    num_kv_heads,
                    head_dim,
                );
                block_bytes_grow(
                    *self,
                    0,
                    layer as int,
                    num_layers,
                    num_kv_heads,
                    head_dim,
                );
            }
            total = total + Self::bytes_per_block_layer(num_kv_heads, head_dim, kb, vb);
            layer = layer + 1;
        }
        total
    }

    /// Computes how many blocks fit in a given memory budget.
    pub fn compute_num_blocks(
        &self,
        gpu_available: usize,
        scratch_reserve: usize,
        num_layers: usize,
        num_kv_heads: usize,
        head_dim: usize,
    ) -> (res: usize)
        requires
            self.sizes_fit(num_layers, num_kv_heads, head_dim),
        ensures
            ({
                let bytes = self.block_bytes(
                    num_layers as int,
                    num_layers,
                    num_kv_heads,
                    head_dim,
                );
                res == blocks_in(gpu_available as int, scratch_reserve as int, bytes)
            }),
    {
        let cache_budget: usize = gpu_available.saturating_sub(scratch_reserve);
        let bytes_per_block: usize = self.bytes_per_block_total(
            num_layers,
            num_kv_heads,
            head_dim,
        );
        if bytes_per_block == 0 {
            return 0;
        }
        cache_budget / bytes_per_block
    }
}

/// More layers take no fewer bytes.
pub proof fn block_bytes_grow(
    c: TurboQuantConfig,
    j: int,
    k: int,
    num_layers: usize,
    num_kv_heads: usize,
    head_dim: usize,
)
    requires
        j <= k,
    ensures
        c.block_bytes(j, num_layers, num_kv_heads, head_dim) <= c.block_bytes(
            k,
            num_layers,
            num_kv_heads,
            head_dim,
        ),
    decreases k - j,
{
    if j < k && k > 0 {
        block_bytes_grow(c, j, k - 1, num_layers, num_kv_heads, head_dim);
        let kb = c.key_width((k - 1) as usize, num_layers);
        let vb = c.value_width((k - 1) as usize, num_layers);
        let a = packed_dim(head_dim, kb);
        let b = packed_dim(head_dim, vb);
        assert(0 <= a) by (nonlinear_arith)
            requires
                a == (head_dim * kb + 7) / 8,
        ;
        assert(0 <= b) by (nonlinear_arith)
            requires
                b == (head_dim * vb + 7) / 8,
        ;
        assert(0 <= 16 * num_kv_heads * a) by (nonlinear_arith)
            requires
                0 <= a,
        ;
        assert(0 <= 16 * num_kv_heads * b) by (nonlinear_arith)
            requires
                0 <= b,
        ;
    }
}

/// A bit width that `width` gives for some layer is in use.
pub proof fn layer_widths_are_used(c: TurboQuantConfig, layer: usize, num_layers: usize)
    ensures
        c.uses(c.key_width(layer, num_layers)),
        c.uses(c.value_width(layer, num_layers)),
{
}

/// Inserts `x` into an ascending list, unless it is there.
fn insert_bits(v: Vec<u8>, x: u8) -> (res: Vec<u8>)
    requires
        forall|i: int, j: int| 0 <= i < j < v@.len() ==> v@[i] < v@[j],
    ensures
        forall|i: int, j: int| 0 <= i < j < res@.len() ==> res@[i] < res@[j],
        forall|b: u8| #[trigger] res@.contains(b) <==> b == x || v@.contains(b),
{
    let mut v = v;
    let mut i: usize = 0;
    while i < v.len() && v[i] < x
        invariant
            i <= v@.len(),
            forall|j: int| 0 <= j < i ==> v@[j] < x,
        decreases v@.len() - i,
    {
        i = i + 1;
    }
    if i < v.len() && v[i] == x {
        assert(v@[i as int] == x);
        return v;
    }
    let ghost before = v@;
    v.insert(i, x);
    proof {
        assert(v@[i as int] == x);
        assert forall|b: u8| #[trigger] before.contains(b) implies v@.contains(b) by {
            let j = choose|j: int| 0 <= j < before.len() && before[j] == b;
            if j < i {
                assert(v@[j] == b);
            } else {
                assert(v@[j + 1] == b);
            }
        }
        assert forall|b: u8| #[trigger] v@.contains(b) implies b == x || before.contains(b) by {
            let j = choose|j: int| 0 <= j < v@.len() && v@[j] == b;
            if j < i {
                assert(before[j] == b);
            } else if j > i {
                assert(before[j - 1] == b);
            }
        }
    }
    v
}

/// Compute K and V rotation matrix seeds for a given layer.
pub fn rotation_seeds(base_seed: u64, layer: usize) -> (res: (u64, u64))
    requires
        base_seed + layer * 1000 + 500 <= u64::MAX,
    ensures
        res.0 == base_seed + layer * 1000,
        res.1 == base_seed + layer * 1000 + 500,
{
    let k_seed: u64 = base_seed + layer as u64 * 1000;
    let v_seed: u64 = base_seed + layer as u64 * 1000 + 500;
    (k_seed, v_seed)
}

/// All seeds of a configuration differ: those of keys and values, and those of
/// different layers.
pub proof fn rotation_seeds_differ(base_seed: int, a: int, b: int)
    requires
        0 <= a,
        0 <= b,
    ensures
        base_seed + a * 1000 != base_seed + b * 1000 + 500,
        a != b ==> base_seed + a * 1000 != base_seed + b * 1000,
{
}

/// `x` with its bits rotated to the left by `k`.
pub open spec fn rotated(x: u64, k: u64) -> u64 {
    (x << k) | (x >> ((64 - k) as u64))
}

fn rotate(x: u64, k: u64) -> (res: u64)
    requires
        0 < k < 64,
    ensures
        res == rotated(x, k),
{
    (x << k) | (x >> (64 - k))
}

/// The increment of the seeding sequence.
pub const SEED_STEP: u64 = 0x9e3779b97f4a7c15;

/// The output function of the seeding generator (SplitMix64).
pub open spec fn mixed(x: u64) -> u64 {
    let a = (x ^ (x >> 30)).wrapping_mul(0xbf58476d1ce4e5b9);
    let b = (a ^ (a >> 27)).wrapping_mul(0x94d049bb133111eb);
    b ^ (b >> 31)
}

fn mix(x: u64) -> (res: u64)
    ensures
        res == mixed(x),
{
    let a: u64 = (x ^ (x >> 30)).wrapping_mul(0xbf58476d1ce4e5b9);
    let b: u64 = (a ^ (a >> 27)).wrapping_mul(0x94d049bb133111eb);
    b ^ (b >> 31)
}

/// The Xoshiro256** generator.
#[derive(Debug, Clone, Copy, PartialEq, Eq, Structural)]
pub struct Xoshiro256 {
    pub s0: u64,
    pub s1: u64,
    pub s2: u64,
    pub s3: u64,
}

impl Xoshiro256 {
    /// The generator whose state is drawn from a single seed.
    pub open spec fn seeded(seed: u64) -> Self {
        let a = seed.wrapping_add(SEED_STEP);
        let b = a.wrapping_add(SEED_STEP);
        let c = b.wrapping_add(SEED_STEP);
        let d = c.wrapping_add(SEED_STEP);
        Xoshiro256 { s0: mixed(a), s1: mixed(b), s2: mixed(c), s3: mixed(d) }
    }

    /// The number that comes next.
    pub open spec fn output(self) -> u64 {
        rotated(self.s1.wrapping_mul(5), 7).wrapping_mul(9)
    }

    /// The state after the next number.
    pub open spec fn advanced(self) -> Self {
        let t2 = self.s2 ^ self.s0;
        let t3 = self.s3 ^ self.s1;
        Xoshiro256 {
            s0: self.s0 ^ t3,
            s1: self.s1 ^ t2,
            s2: t2 ^ (self.s1 << 17),
            s3: rotated(t3, 45),
        }
    }

    /// Initializes the state from a single seed.
    pub fn new(seed: u64) -> (res: Self)
        ensures
            res == Self::seeded(seed),
    {
        let a: u64 = seed.wrapping_add(SEED_STEP);
        let b: u64 = a.wrapping_add(SEED_STEP);
        let c: u64 = b.wrapping_add(SEED_STEP);
        let d: u64 = c.wrapping_add(SEED_STEP);
        Xoshiro256 { s0: mix(a), s1: mix(b), s2: mix(c), s3: mix(d) }
    }

    /// Returns the next number and advances the state.
    pub fn next_u64(&mut self) -> (res: u64)
        ensures
            res == old(self).output(),
            *final(self) == old(self).advanced(),
    {
        let result: u64 = rotate(self.s1.wrapping_mul(5), 7).wrapping_mul(9);
        let t: u64 = self.s1 << 17;
        self.s2 = self.s2 ^ self.s0;
        self.s3 = self.s3 ^ self.s1;
        self.s1 = self.s1 ^ self.s2;
        self.s0 = self.s0 ^ self.s3;
        self.s2 = self.s2 ^ t;
        self.s3 = rotate(self.s3, 45);
        result
    }
}

} // verus!
