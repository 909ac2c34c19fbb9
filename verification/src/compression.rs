//! Compressed statevectors and their sizes.

use vstd::arithmetic::power2;
use vstd::prelude::*;

use crate::codebook;
use crate::double;
use crate::memory;
use crate::packing;
use crate::quantizer;
use crate::state;
use crate::state::State;

pub use crate::packing::pack_indices;
pub use crate::packing::unpack_indices;
pub use crate::quantizer::dequantize_adaptive;
pub use crate::quantizer::BLOCK_SIZE;

verus! {

/// The bit width that is used where none is given.
pub const DEFAULT_BITS: u8 = 4;

/// Offset between the seed of the rotation and the seed of the residual sketch.
pub const SKETCH_SEED_MASK: u64 = 0xD1B5_4A32_D192_ED03;

/// A compressed surrogate for a statevector: the quantization indices of its rotated real
/// embedding, and what is needed to turn them back.
#[derive(Clone, Debug)]
pub struct CompressedState {
    /// The packed quantization index of each rotated coordinate.
    pub packed_indices: Vec<u8>,
    /// The scale of each block of coordinates, as bit patterns of doubles.
    pub block_scales: Vec<u64>,
    /// The norm of the state before compression, as the bit pattern of a double.
    pub norm: u64,
    /// The number of qubits of the state.
    pub n_qubits: usize,
    /// The bit width of the quantizer.
    pub bits: u8,
    /// The seed of the rotation.
    pub rotation_seed: u64,
    /// A sign sketch of what quantization lost, where one was made.
    pub residual_sketch: Option<ResidualSketch>,
}

/// The number of coordinates of the real embedding of a state on `n_qubits` qubits.
pub open spec fn coordinate_count(n_qubits: nat) -> nat {
    power2::pow2(n_qubits + 1)
}

impl CompressedState {
    /// There are at least as many indices and scales as the qubits and the bit width call for.
    pub open spec fn wf(&self) -> bool {
        &&& codebook::supported(self.bits)
        &&& coordinate_count(self.n_qubits as nat) <= usize::MAX
        &&& self.packed_indices@.len() >= (coordinate_count(self.n_qubits as nat) * self.bits + 7)
            / 8
        &&& self.block_scales@.len() >= quantizer::block_count(
            coordinate_count(self.n_qubits as nat),
        )
    }

    /// Read back the rotated coordinates, each as a scale and a level to be multiplied.
    pub fn decompress(&self) -> (factors: Vec<(u64, u64)>)
        requires
            self.wf(),
        ensures
            factors@.len() == coordinate_count(self.n_qubits as nat),
            forall|indices: Seq<u8>|
                #[trigger] packing::unpacks(
                    indices,
                    self.packed_indices@,
                    self.bits as nat,
                    coordinate_count(self.n_qubits as nat),
                ) ==> factors@ == quantizer::dequantized(
                    indices,
                    self.block_scales@,
                    self.bits,
                ),
            exists|indices: Seq<u8>|
                #[trigger] packing::unpacks(
                    indices,
                    self.packed_indices@,
                    self.bits as nat,
                    coordinate_count(self.n_qubits as nat),
                ),
            forall|b: int, i: int|
                0 <= i < factors@.len() && 32 * b <= i < 32 * b + 32 ==> (#[trigger] factors@[i]).0
                    == #[trigger] self.block_scales@[b],
    {
        proof {
            power2::lemma_pow2_pos(0);
            lemma_exponent_fits((self.n_qubits + 1) as nat);
        }
        let count: usize = state::power_of_two(self.n_qubits + 1);
        quantizer::dequantize_adaptive(&self.packed_indices, &self.block_scales, self.bits, count)
    }
}

/// An exponent of a power of two that fits in a machine word fits in it too.
proof fn lemma_exponent_fits(n: nat)
    requires
        power2::pow2(n) <= usize::MAX,
    ensures
        n <= 64,
{
    if n > 64 {
        power2::lemma2_to64_rest();
        power2::lemma_pow2_strictly_increases(64, n);
    }
}

/// The bit width to compress at: the default for 0, and none above 8.
pub fn resolve_bits(bits: u8) -> (r: Option<u8>)
    ensures
        r == resolved_bits(bits),
        r == (if bits == 0 {
            Some(DEFAULT_BITS)
        } else if bits <= 8 {
            Some(bits)
        } else {
            None
        }),
{
    if bits == 0 {
        Some(DEFAULT_BITS)
    } else if bits <= 8 {
        Some(bits)
    } else {
        None
    }
}

/// Put a compressed state together from the rotated coordinates of a state and their
/// quantization indices.
pub fn compress(
    rotated: &[u64],
    indices: &[u8],
    norm: u64,
    n_qubits: usize,
    bits: u8,
    seed: u64,
    residual_sketch: Option<ResidualSketch>,
) -> (c: CompressedState)
    requires
        codebook::supported(bits),
        rotated@.len() == coordinate_count(n_qubits as nat),
        indices@.len() == coordinate_count(n_qubits as nat),
    ensures
        c.wf(),
        packing::packs(c.packed_indices@, indices@, bits as nat),
        c.block_scales@.len() == quantizer::block_count(coordinate_count(n_qubits as nat)),
        forall|b: int|
            0 <= b < c.block_scales@.len() ==> #[trigger] c.block_scales@[b]
                == quantizer::block_scale(quantizer::block(rotated@, b)),
        c.norm == norm,
        c.n_qubits == n_qubits,
        c.bits == bits,
        c.rotation_seed == seed,
        c.residual_sketch == residual_sketch,
{
    // The number of coordinates is a length, so it fits in a machine word.
    assert(rotated.len() == coordinate_count(n_qubits as nat));
    let block_scales: Vec<u64> = quantizer::block_scales(rotated);
    let packed_indices: Vec<u8> = packing::pack_indices(indices, bits);
    CompressedState {
        packed_indices,
        block_scales,
        norm,
        n_qubits,
        bits,
        rotation_seed: seed,
        residual_sketch,
    }
}

/// What compression keeps: for indices that fit, decompressing gives each coordinate the
/// scale of its block and the level it was quantized to.
pub proof fn law_decompress_reads_back(
    c: CompressedState,
    indices: Seq<u8>,
    read: Seq<u8>,
)
    requires
        c.wf(),
        indices.len() == coordinate_count(c.n_qubits as nat),
        packing::indices_fit(indices, c.bits as nat),
        packing::packs(c.packed_indices@, indices, c.bits as nat),
        packing::unpacks(
            read,
            c.packed_indices@,
            c.bits as nat,
            coordinate_count(c.n_qubits as nat),
        ),
    ensures
        quantizer::dequantized(read, c.block_scales@, c.bits) == quantizer::dequantized(
            indices,
            c.block_scales@,
            c.bits,
        ),
{
    quantizer::law_dequantize_reads_back(
        indices,
        c.packed_indices@,
        read,
        c.block_scales@,
        c.bits,
    );
}

/// The bytes that two buffers of doubles take.
pub fn buffer_bytes(reals: usize, imags: usize) -> (r: usize)
    requires
        8 * reals + 8 * imags <= usize::MAX,
    ensures
        r == 8 * reals + 8 * imags,
{
    reals * 8 + imags * 8
}

/// The heap memory that a state takes, in bytes. It is what the buffers have room for, which
/// is at least what they hold, and neither takes more than `isize::MAX` bytes.
pub fn statevector_size_bytes(state: &State) -> (r: usize)
    ensures
        exists|a: usize, b: usize|
            {
                &&& a >= state.reals@.len()
                &&& b >= state.imags@.len()
                &&& 8 * a <= isize::MAX
                &&& 8 * b <= isize::MAX
                &&& r == #[trigger] (8 * a + 8 * b)
            },
{
    broadcast use vstd::layout::layout_of_primitives;

    let a: usize = memory::capacity(&state.reals);
    let b: usize = memory::capacity(&state.imags);
    buffer_bytes(a, b)
}

/// The memory that a compressed state takes, in bytes: its indices, its scales, its norm, the
/// number of qubits, the bit width and the seed.
pub fn compressed_size_bytes(compressed: &CompressedState) -> (r: usize)
    requires
        compressed.packed_indices@.len() + 8 * compressed.block_scales@.len() + 17
            + vstd::layout::size_of::<usize>() <= usize::MAX,
    ensures
        r == compressed.packed_indices@.len() + 8 * compressed.block_scales@.len() + 17
            + vstd::layout::size_of::<usize>(),
{
    let index_bytes: usize = compressed.packed_indices.len();
    let scale_bytes: usize = compressed.block_scales.len() * 8;
    let metadata_bytes: usize = 8 + core::mem::size_of::<usize>() + 1 + 8;
    index_bytes + scale_bytes + metadata_bytes
}

/// The signs of complex projections of a residual.
#[derive(Clone, Debug)]
pub struct ResidualSketch {
    signs_re: Vec<i8>,
    signs_im: Vec<i8>,
    seed: u64,
    k: usize,
    n_qubits: usize,
}

/// The sign of a double as a number.
pub open spec fn sign_of(b: u64) -> int {
    if !double::is_nan(b) && double::value(b) >= 0 {
        1
    } else {
        -1
    }
}

/// The sum of the products of the first `k` signs of two sequences.
pub open spec fn sign_sum(s: Seq<int>, t: Seq<int>, k: nat) -> int
    decreases k,
{
    if k == 0 {
        0
    } else {
        sign_sum(s, t, (k - 1) as nat) + s[k - 1] * t[k - 1]
    }
}

/// The signs of the real parts.
pub open spec fn signs_re(projections: Seq<(u64, u64)>) -> Seq<int> {
    projections.map_values(|p: (u64, u64)| sign_of(p.0))
}

/// The signs of the imaginary parts.
pub open spec fn signs_im(projections: Seq<(u64, u64)>) -> Seq<int> {
    projections.map_values(|p: (u64, u64)| sign_of(p.1))
}

/// The correlations of the signs of two sketches, each `k` times its mean.
#[derive(Clone, Copy, Debug, PartialEq, Eq, Structural)]
pub struct SignCorrelation {
    /// Real parts with real parts.
    pub alpha: i128,
    /// Imaginary parts with imaginary parts.
    pub beta: i128,
    /// Real parts of the sketch with imaginary parts of the other.
    pub gamma: i128,
    /// Imaginary parts of the sketch with real parts of the other.
    pub delta: i128,
}

impl ResidualSketch {
    /// The signs of the real parts of the projections.
    pub closed spec fn re(&self) -> Seq<int> {
        Seq::new(self.signs_re@.len(), |i: int| self.signs_re@[i] as int)
    }

    /// The signs of the imaginary parts of the projections.
    pub closed spec fn im(&self) -> Seq<int> {
        Seq::new(self.signs_im@.len(), |i: int| self.signs_im@[i] as int)
    }

    /// The seed of the projections.
    pub closed spec fn seed_spec(&self) -> u64 {
        self.seed
    }

    /// The number of projections.
    pub closed spec fn size_spec(&self) -> usize {
        self.k
    }

    /// The number of qubits of the residual.
    pub closed spec fn qubits_spec(&self) -> usize {
        self.n_qubits
    }

    /// There is a sign of either part for each projection.
    pub open spec fn wf(&self) -> bool {
        &&& self.re().len() == self.size_spec()
        &&& self.im().len() == self.size_spec()
        &&& forall|i: int|
            0 <= i < self.size_spec() ==> #[trigger] self.re()[i] == 1 || self.re()[i] == -1
        &&& forall|i: int|
            0 <= i < self.size_spec() ==> #[trigger] self.im()[i] == 1 || self.im()[i] == -1
    }

    /// Keep the signs of the `k` complex projections of a residual.
    pub fn from_components(
        projections: &[(u64, u64)],
        seed: u64,
        k: usize,
        n_qubits: usize,
    ) -> (sketch: Self)
        requires
            projections@.len() == k,
        ensures
            sketch.wf(),
            sketch.re() == signs_re(projections@),
            sketch.im() == signs_im(projections@),
            sketch.seed_spec() == seed,
            sketch.size_spec() == k,
            sketch.qubits_spec() == n_qubits,
    {
        let mut re: Vec<i8> = Vec::new();
        let mut im: Vec<i8> = Vec::new();
        for i in 0..k
            invariant
                projections@.len() == k,
                re@.len() == i,
                im@.len() == i,
                forall|j: int| 0 <= j < i ==> #[trigger] re@[j] == sign_of(projections@[j].0),
                forall|j: int| 0 <= j < i ==> #[trigger] im@[j] == sign_of(projections@[j].1),
        {
            re.push(double::sign_bit(projections[i].0));
            im.push(double::sign_bit(projections[i].1));
        }
        let sketch = ResidualSketch { signs_re: re, signs_im: im, seed, k, n_qubits };
        assert(sketch.re() =~= signs_re(projections@));
        assert(sketch.im() =~= signs_im(projections@));
        sketch
    }

    /// Correlate the stored signs with those of the projections of another vector.
    pub fn estimate_overlap(&self, projections: &[(u64, u64)]) -> (c: SignCorrelation)
        requires
            self.wf(),
            projections@.len() == self.size_spec(),
        ensures
            c.alpha == sign_sum(self.re(), signs_re(projections@), self.size_spec() as nat),
            c.beta == sign_sum(self.im(), signs_im(projections@), self.size_spec() as nat),
            c.gamma == sign_sum(self.re(), signs_im(projections@), self.size_spec() as nat),
            c.delta == sign_sum(self.im(), signs_re(projections@), self.size_spec() as nat),
    {
        let mut alpha: i128 = 0;
        let mut beta: i128 = 0;
        let mut gamma: i128 = 0;
        let mut delta: i128 = 0;
        for i in 0..self.k
            invariant
                self.wf(),
                projections@.len() == self.size_spec(),
                -i <= alpha <= i,
                -i <= beta <= i,
                -i <= gamma <= i,
                -i <= delta <= i,
                alpha == sign_sum(self.re(), signs_re(projections@), i as nat),
                beta == sign_sum(self.im(), signs_im(projections@), i as nat),
                gamma == sign_sum(self.re(), signs_im(projections@), i as nat),
                delta == sign_sum(self.im(), signs_re(projections@), i as nat),
        {
            let s_re: i8 = self.signs_re[i];
            let s_im: i8 = self.signs_im[i];
            let t_re: i8 = double::sign_bit(projections[i].0);
            let t_im: i8 = double::sign_bit(projections[i].1);
            assert(self.re()[i as int] == s_re);
            assert(self.im()[i as int] == s_im);
            assert(signs_re(projections@)[i as int] == t_re);
            assert(signs_im(projections@)[i as int] == t_im);
            alpha = alpha + sign_product(s_re, t_re);
            beta = beta + sign_product(s_im, t_im);
            gamma = gamma + sign_product(s_re, t_im);
            delta = delta + sign_product(s_im, t_re);
        }
        SignCorrelation { alpha, beta, gamma, delta }
    }

    /// The seed that regenerates the projections.
    pub fn seed(&self) -> (seed: u64)
        ensures
            seed == self.seed_spec(),
    {
        self.seed
    }

    /// The number of projections.
    pub fn size(&self) -> (k: usize)
        ensures
            k == self.size_spec(),
    {
        self.k
    }

    /// The number of qubits of the residual.
    pub fn n_qubits(&self) -> (n: usize)
        ensures
            n == self.qubits_spec(),
    {
        self.n_qubits
    }
}

/// The product of two signs.
fn sign_product(s: i8, t: i8) -> (p: i128)
    requires
        s == 1 || s == -1,
        t == 1 || t == -1,
    ensures
        p == s * t,
        p == 1 || p == -1,
{
    assert(s * t == 1 || s * t == -1) by (nonlinear_arith)
        requires
            s == 1 || s == -1,
            t == 1 || t == -1,
    ;
    if s == t {
        assert(s * t == 1) by (nonlinear_arith)
            requires
                s == t,
                s == 1 || s == -1,
        ;
        1
    } else {
        assert(s * t == -1) by (nonlinear_arith)
            requires
                s == -t,
                s == 1 || s == -1,
        ;
        -1
    }
}

/// The number of projections of the sketch of a state on `n_qubits` qubits.
pub fn sketch_size(n_qubits: usize) -> (k: usize)
    requires
        8 * n_qubits <= usize::MAX,
    ensures
        k == (if n_qubits <= 4 {
            32
        } else {
            8 * n_qubits
        }),
        k >= 32,
        k >= 8 * n_qubits,
        k == 32 || k == 8 * n_qubits,
{
    if n_qubits <= 4 {
        32
    } else {
        n_qubits * 8
    }
}

/// The seed of the sketch that goes with a rotation seed.
pub fn sketch_seed(seed: u64) -> (r: u64)
    ensures
        r == seed ^ SKETCH_SEED_MASK,
        r ^ 0xD1B5_4A32_D192_ED03 == seed,
{
    assert((seed ^ 0xD1B5_4A32_D192_ED03u64) ^ 0xD1B5_4A32_D192_ED03u64 == seed) by (bit_vector);
    seed ^ SKETCH_SEED_MASK
}

/// What compressing and decompressing gives for a coordinate: the scale is the largest size of a
/// number in the block of the rotated vector that holds this coordinate, and the level is the
/// one of its index.
pub proof fn law_coordinate_reads_back(
    rotated: Seq<u64>,
    indices: Seq<u8>,
    c: CompressedState,
    read: Seq<u8>,
    b: int,
    i: int,
)
    requires
        c.wf(),
        rotated.len() == coordinate_count(c.n_qubits as nat),
        indices.len() == coordinate_count(c.n_qubits as nat),
        packing::indices_fit(indices, c.bits as nat),
        packing::packs(c.packed_indices@, indices, c.bits as nat),
        forall|k: int|
            0 <= k < quantizer::block_count(rotated.len()) ==> #[trigger] c.block_scales@[k]
                == quantizer::block_scale(quantizer::block(rotated, k)),
        packing::unpacks(
            read,
            c.packed_indices@,
            c.bits as nat,
            coordinate_count(c.n_qubits as nat),
        ),
        0 <= i < rotated.len(),
        32 * b <= i < 32 * b + 32,
    ensures
        ({
            let (scale, level) = quantizer::dequantized(read, c.block_scales@, c.bits)[i];
            &&& level == codebook::levels(c.bits)[indices[i] as int]
            &&& !double::is_nan(rotated[i]) ==> vstd::math::abs(double::value(rotated[i]))
                <= double::value(scale)
            &&& scale == double::ONE || exists|k: int|
                32 * b <= k < 32 * b + 32 && k < rotated.len() && !double::is_nan(
                    #[trigger] rotated[k],
                ) && vstd::math::abs(double::value(rotated[k])) == double::value(scale)
        }),
{
    packing::law_unpack_undoes_pack(indices, c.packed_indices@, read, c.bits as nat);
    quantizer::law_coordinate_has_scale_of_its_block(read, c.block_scales@, c.bits, b, i);
    quantizer::law_scale_is_largest_size(rotated, b);
    let scale = quantizer::block_scale(quantizer::block(rotated, b));
    assert(c.block_scales@[b] == scale);
    let inside = |k: int| 32 * b <= k < 32 * b + 32 && k < rotated.len();
    let counts = |k: int|
        inside(k) && !double::is_nan(rotated[k]) && double::value(rotated[k]) != 0;
    if !double::is_nan(rotated[i]) && double::value(rotated[i]) != 0 {
        assert(counts(i));
    }
    if exists|k: int| #[trigger] counts(k) {
        let k = choose|k: int| #[trigger]
            counts(k) && vstd::math::abs(double::value(rotated[k])) == double::value(scale);
        assert(!double::is_nan(rotated[k]));
    }
}

/// The bit width that a request stands for.
pub open spec fn resolved_bits(bits: u8) -> Option<u8> {
    if bits == 0 {
        Some(DEFAULT_BITS)
    } else if bits <= 8 {
        Some(bits)
    } else {
        None
    }
}

/// Requests above 8 are refused and no others; what comes out is a width from 1 to 8, and a
/// width from 1 to 8 is taken as it is.
pub proof fn law_resolved_bits(bits: u8)
    ensures
        resolved_bits(bits) is None <==> bits > 8,
        resolved_bits(bits) matches Some(r) ==> 1 <= r <= 8 && (r == bits || bits == 0),
        resolved_bits(0) == Some(4u8),
{
}

/// Signs correlate fully with themselves, correlation does not depend on the order, and it
/// turns round with one of the sides.
pub proof fn law_sign_correlation(s: Seq<int>, t: Seq<int>, k: nat)
    requires
        k <= s.len(),
        k <= t.len(),
        forall|i: int| 0 <= i < k ==> #[trigger] s[i] == 1 || s[i] == -1,
        forall|i: int| 0 <= i < k ==> #[trigger] t[i] == 1 || t[i] == -1,
    ensures
        sign_sum(s, s, k) == k,
        sign_sum(s, t, k) == sign_sum(t, s, k),
        -(k as int) <= sign_sum(s, t, k) <= k,
        sign_sum(s.map_values(|x: int| -x), t, k) == -sign_sum(s, t, k),
        k > 0 ==> sign_sum(s, t, k) - sign_sum(s, t, (k - 1) as nat) == (if s[k - 1] == t[k - 1] {
            1int
        } else {
            -1int
        }),
    decreases k,
{
    if k > 0 {
        law_sign_correlation(s, t, (k - 1) as nat);
        let a = s[k - 1];
        let b = t[k - 1];
        assert(a * b == b * a) by (nonlinear_arith);
        assert(a * a == 1) by (nonlinear_arith)
            requires
                a == 1 || a == -1,
        ;
        assert((-a) * b == -(a * b)) by (nonlinear_arith);
        if a == b {
            assert(a * b == 1);
        } else {
            assert(a * b == -1) by (nonlinear_arith)
                requires
                    a == -b,
                    b == 1 || b == -1,
            ;
        }
    }
}

/// Signs are those of the values: a number from zero upwards counts as 1, a number below zero
/// as -1, and negation turns the sign of every number but zero round.
pub proof fn law_signs(projections: Seq<(u64, u64)>, i: int)
    requires
        0 <= i < projections.len(),
    ensures
        signs_re(projections).len() == projections.len(),
        signs_im(projections).len() == projections.len(),
        !double::is_nan(projections[i].0) ==> (signs_re(projections)[i] == 1 <==> double::value(
            projections[i].0,
        ) >= 0),
        !double::is_nan(projections[i].1) ==> (signs_im(projections)[i] == 1 <==> double::value(
            projections[i].1,
        ) >= 0),
        signs_re(projections)[i] == 1 || signs_re(projections)[i] == -1,
        signs_im(projections)[i] == 1 || signs_im(projections)[i] == -1,
{
}

} // verus!
