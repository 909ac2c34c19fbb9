//! Tight packing of quantization indices into bytes.
//!
//! The indices of a quantized vector take `bits` bits each. They are laid out one after the
//! other in a stream of bits, least significant bit first, and the stream is cut into bytes.

use vstd::prelude::*;

verus! {

/// Bit `k` of a byte, counted from the least significant.
pub open spec fn byte_bit(v: u8, k: int) -> bool {
    (v >> (k as u8)) & 1u8 == 1u8
}

/// Bit `p` of a stream of bytes.
pub open spec fn stream_bit(bytes: Seq<u8>, p: int) -> bool {
    byte_bit(bytes[p / 8], p % 8)
}

/// Whether index `i` puts a set bit at position `p` of the stream.
pub open spec fn contributes(indices: Seq<u8>, bits: nat, i: int, p: int) -> bool {
    i * bits <= p < i * bits + 8 && byte_bit(indices[i], p - i * bits)
}

/// Whether one of the first `m` indices puts a set bit at position `p` of the stream.
pub open spec fn index_bit_below(indices: Seq<u8>, bits: nat, m: int, p: int) -> bool {
    exists|i: int| 0 <= i < m && #[trigger] contributes(indices, bits, i, p)
}

/// Bit `p` of the stream that the indices make up.
pub open spec fn index_bit(indices: Seq<u8>, bits: nat, p: int) -> bool {
    index_bit_below(indices, bits, indices.len() as int, p)
}

/// `packed` holds the indices at `bits` bits each, in as few bytes as they fit in.
pub open spec fn packs(packed: Seq<u8>, indices: Seq<u8>, bits: nat) -> bool {
    &&& packed.len() == (indices.len() * bits + 7) / 8
    &&& forall|p: int|
        0 <= p < 8 * packed.len() ==> #[trigger] stream_bit(packed, p) == index_bit(
            indices,
            bits,
            p,
        )
}

/// `indices` are the first `count` numbers of `bits` bits in the stream `packed`.
pub open spec fn unpacks(indices: Seq<u8>, packed: Seq<u8>, bits: nat, count: nat) -> bool {
    &&& indices.len() == count
    &&& forall|i: int, k: int|
        0 <= i < count && 0 <= k < 8 ==> #[trigger] byte_bit(indices[i], k) == (k < bits
            && stream_bit(packed, i * bits + k))
}

/// Every index fits in `bits` bits.
pub open spec fn indices_fit(indices: Seq<u8>, bits: nat) -> bool {
    forall|i: int, k: int|
        0 <= i < indices.len() && bits <= k < 8 ==> !#[trigger] byte_bit(indices[i], k)
}

/// An index fits in `bits` bits exactly when it is below 2^bits.
pub proof fn lemma_fits(v: u8, bits: u8)
    requires
        bits <= 8,
    ensures
        (forall|k: int| bits <= k < 8 ==> !#[trigger] byte_bit(v, k)) <==> v < (1u16 << bits),
{
    assert(v < (1u16 << bits) ==> forall|k: u8|
        bits <= k < 8 ==> #[trigger] (v >> k) & 1u8 != 1u8) by (bit_vector)
        requires
            bits <= 8,
    ;
    if forall|k: int| bits <= k < 8 ==> !#[trigger] byte_bit(v, k) {
        assert(forall|k: u8| bits <= k < 8 ==> #[trigger] (v >> k) & 1u8 != 1u8) by {
            assert forall|k: u8| bits <= k < 8 implies #[trigger] (v >> k) & 1u8 != 1u8 by {
                assert(!byte_bit(v, k as int));
            }
        }
        assert((bits > 0 || (v >> 0u8) & 1u8 != 1u8) && (bits > 1 || (v >> 1u8) & 1u8 != 1u8)
            && (bits > 2 || (v >> 2u8) & 1u8 != 1u8) && (bits > 3 || (v >> 3u8) & 1u8 != 1u8) && (
        bits > 4 || (v >> 4u8) & 1u8 != 1u8) && (bits > 5 || (v >> 5u8) & 1u8 != 1u8) && (bits > 6
            || (v >> 6u8) & 1u8 != 1u8) && (bits > 7 || (v >> 7u8) & 1u8 != 1u8));
        assert(v < (1u16 << bits)) by (bit_vector)
            requires
                bits <= 8,
                bits > 0 || (v >> 0u8) & 1u8 != 1u8,
                bits > 1 || (v >> 1u8) & 1u8 != 1u8,
                bits > 2 || (v >> 2u8) & 1u8 != 1u8,
                bits > 3 || (v >> 3u8) & 1u8 != 1u8,
                bits > 4 || (v >> 4u8) & 1u8 != 1u8,
                bits > 5 || (v >> 5u8) & 1u8 != 1u8,
                bits > 6 || (v >> 6u8) & 1u8 != 1u8,
                bits > 7 || (v >> 7u8) & 1u8 != 1u8,
        ;
    }
}

/// Bytes with the same bits are equal.
proof fn lemma_byte_ext(a: u8, b: u8)
    requires
        forall|k: int| 0 <= k < 8 ==> #[trigger] byte_bit(a, k) == byte_bit(b, k),
    ensures
        a == b,
{
    assert(byte_bit(a, 0) == byte_bit(b, 0));
    assert(byte_bit(a, 1) == byte_bit(b, 1));
    assert(byte_bit(a, 2) == byte_bit(b, 2));
    assert(byte_bit(a, 3) == byte_bit(b, 3));
    assert(byte_bit(a, 4) == byte_bit(b, 4));
    assert(byte_bit(a, 5) == byte_bit(b, 5));
    assert(byte_bit(a, 6) == byte_bit(b, 6));
    assert(byte_bit(a, 7) == byte_bit(b, 7));
    assert(a == b) by (bit_vector)
        requires
            ((a >> 0u8) & 1u8 == 1u8) == ((b >> 0u8) & 1u8 == 1u8),
            ((a >> 1u8) & 1u8 == 1u8) == ((b >> 1u8) & 1u8 == 1u8),
            ((a >> 2u8) & 1u8 == 1u8) == ((b >> 2u8) & 1u8 == 1u8),
            ((a >> 3u8) & 1u8 == 1u8) == ((b >> 3u8) & 1u8 == 1u8),
            ((a >> 4u8) & 1u8 == 1u8) == ((b >> 4u8) & 1u8 == 1u8),
            ((a >> 5u8) & 1u8 == 1u8) == ((b >> 5u8) & 1u8 == 1u8),
            ((a >> 6u8) & 1u8 == 1u8) == ((b >> 6u8) & 1u8 == 1u8),
            ((a >> 7u8) & 1u8 == 1u8) == ((b >> 7u8) & 1u8 == 1u8),
    ;
}

/// Bit `q` of the accumulator.
spec fn acc_bit(acc: u16, q: int) -> bool {
    (acc >> (q as u16)) & 1u16 == 1u16
}

/// What merging a byte into the accumulator does to its bits.
proof fn lemma_acc_merge(acc: u16, v: u8, b: u8, q: int)
    requires
        b < 8,
        0 <= q < 16,
    ensures
        acc_bit(acc | ((v as u16) << b), q) == (acc_bit(acc, q) || (b <= q < b + 8 && byte_bit(
            v,
            q - b,
        ))),
{
    let qq = q as u16;
    let r = (q - b) as u8;
    if b <= q < b + 8 {
        assert((((acc | ((v as u16) << b)) >> qq) & 1u16 == 1u16) == ((acc >> qq) & 1u16 == 1u16
            || (v >> r) & 1u8 == 1u8)) by (bit_vector)
            requires
                b < 8,
                qq < 16,
                qq == b + r,
                r < 8,
        ;
    } else {
        assert((((acc | ((v as u16) << b)) >> qq) & 1u16 == 1u16) == ((acc >> qq) & 1u16
            == 1u16)) by (bit_vector)
            requires
                b < 8,
                qq < 16,
                qq < b || b + 8 <= qq,
        ;
    }
}

/// What cutting the low byte off the accumulator does to its bits.
proof fn lemma_acc_cut(acc: u16, q: int)
    requires
        0 <= q < 16,
    ensures
        q < 8 ==> byte_bit((acc & 0xFF) as u8, q) == acc_bit(acc, q),
        acc_bit(acc >> 8u16, q) == (q < 8 && acc_bit(acc, q + 8)),
{
    let qq = q as u16;
    let q8 = q as u8;
    let up = (q + 8) as u16;
    assert(qq < 8 ==> ((((acc & 0xFF) as u8) >> q8) & 1u8 == 1u8) == ((acc >> qq) & 1u16 == 1u16))
        by (bit_vector)
        requires
            qq == q8,
            qq < 16,
    ;
    assert((((acc >> 8u16) >> qq) & 1u16 == 1u16) == (qq < 8 && (acc >> up) & 1u16 == 1u16))
        by (bit_vector)
        requires
            qq < 16,
            up == qq + 8,
    ;
}

/// What taking `bits` bits off the accumulator does to its bits.
proof fn lemma_acc_take(acc: u16, bits: u8, mask: u16, q: int)
    requires
        1 <= bits < 8,
        mask == (1u16 << bits) - 1,
        0 <= q < 16,
    ensures
        q < 8 ==> byte_bit((acc & mask) as u8, q) == (q < bits && acc_bit(acc, q)),
        acc_bit(acc >> bits, q) == (q + bits < 16 && acc_bit(acc, q + bits)),
{
    let qq = q as u16;
    let q8 = q as u8;
    let up = (q + bits) as u16;
    assert(qq < 8 ==> ((((acc & mask) as u8) >> q8) & 1u8 == 1u8) == (qq < bits && (acc >> qq)
        & 1u16 == 1u16)) by (bit_vector)
        requires
            qq == q8,
            qq < 16,
            1 <= bits < 8,
            mask == (1u16 << bits) - 1,
    ;
    assert((((acc >> bits) >> qq) & 1u16 == 1u16) == (up < 16 && (acc >> up) & 1u16 == 1u16))
        by (bit_vector)
        requires
            qq < 16,
            1 <= bits < 8,
            up == qq + bits,
    ;
}

/// The first `m` indices reach no further than 8 bits past the start of the last of them.
proof fn lemma_reach(indices: Seq<u8>, bits: nat, m: int, p: int)
    requires
        index_bit_below(indices, bits, m, p),
    ensures
        m >= 1,
        0 <= p < (m - 1) * bits + 8,
{
    let i = choose|i: int| 0 <= i < m && #[trigger] contributes(indices, bits, i, p);
    assert(i * bits <= (m - 1) * bits) by (nonlinear_arith)
        requires
            0 <= i <= m - 1,
            bits >= 0,
    ;
    assert(0 <= i * bits) by (nonlinear_arith)
        requires
            0 <= i,
            bits >= 0,
    ;
}

/// Bits before the start of index `m` are settled by the indices before it.
proof fn lemma_settled(indices: Seq<u8>, bits: nat, m: int, p: int)
    requires
        0 <= m <= indices.len(),
        p < m * bits,
    ensures
        index_bit_below(indices, bits, m, p) == index_bit(indices, bits, p),
{
    if index_bit(indices, bits, p) {
        let i = choose|i: int|
            0 <= i < indices.len() && #[trigger] contributes(indices, bits, i, p);
        if i >= m {
            assert(m * bits <= i * bits) by (nonlinear_arith)
                requires
                    m <= i,
                    bits >= 0,
            ;
        }
        assert(contributes(indices, bits, i, p));
    } else if index_bit_below(indices, bits, m, p) {
        let i = choose|i: int| 0 <= i < m && #[trigger] contributes(indices, bits, i, p);
        assert(contributes(indices, bits, i, p));
    }
}

/// One more index adds its own bits.
proof fn lemma_one_more(indices: Seq<u8>, bits: nat, m: int, p: int)
    requires
        0 <= m < indices.len(),
    ensures
        index_bit_below(indices, bits, m + 1, p) == (index_bit_below(indices, bits, m, p)
            || contributes(indices, bits, m, p)),
{
    if index_bit_below(indices, bits, m + 1, p) {
        let i = choose|i: int| 0 <= i < m + 1 && #[trigger] contributes(indices, bits, i, p);
        assert(contributes(indices, bits, i, p));
    }
    if index_bit_below(indices, bits, m, p) {
        let i = choose|i: int| 0 <= i < m && #[trigger] contributes(indices, bits, i, p);
        assert(contributes(indices, bits, i, p));
    }
    if contributes(indices, bits, m, p) {
        assert(index_bit_below(indices, bits, m + 1, p));
    }
}

/// What the packer keeps: the bytes written so far, and the accumulator for what follows.
spec fn pack_inv(
    packed: Seq<u8>,
    acc: u16,
    in_acc: int,
    indices: Seq<u8>,
    bits: nat,
    m: int,
) -> bool {
    &&& 0 <= in_acc
    &&& 8 * packed.len() + in_acc == m * bits
    &&& forall|p: int|
        0 <= p < 8 * packed.len() ==> #[trigger] stream_bit(packed, p) == index_bit(
            indices,
            bits,
            p,
        )
    &&& forall|q: int|
        0 <= q < 16 ==> #[trigger] acc_bit(acc, q) == index_bit_below(
            indices,
            bits,
            m,
            8 * packed.len() + q,
        )
}

/// Cutting a full byte off the accumulator keeps the packer's invariant.
proof fn lemma_pack_cut(
    packed: Seq<u8>,
    acc: u16,
    in_acc: int,
    indices: Seq<u8>,
    bits: nat,
    m: int,
)
    requires
        pack_inv(packed, acc, in_acc, indices, bits, m),
        0 <= m <= indices.len(),
        in_acc <= 7 + bits,
        in_acc >= 8 || m == indices.len(),
    ensures
        in_acc >= 8 ==> pack_inv(
            packed.push((acc & 0xFF) as u8),
            acc >> 8u16,
            in_acc - 8,
            indices,
            bits,
            m,
        ),
        forall|p: int|
            0 <= p < 8 * (packed.len() + 1) ==> #[trigger] stream_bit(
                packed.push((acc & 0xFF) as u8),
                p,
            ) == index_bit(indices, bits, p),
{
    let base = 8 * packed.len();
    let byte = (acc & 0xFF) as u8;
    let next = packed.push(byte);
    assert forall|p: int| 0 <= p < 8 * (packed.len() + 1) implies #[trigger] stream_bit(next, p)
        == index_bit(indices, bits, p) by {
        if p < base {
            assert(next[p / 8] == packed[p / 8]);
            assert(stream_bit(packed, p) == index_bit(indices, bits, p));
        } else {
            let q = p - base;
            assert(p / 8 == packed.len() && p % 8 == q);
            lemma_acc_cut(acc, q);
            assert(acc_bit(acc, q) == index_bit_below(indices, bits, m, base + q));
            if m < indices.len() {
                lemma_settled(indices, bits, m, p);
            }
        }
    }
    if in_acc >= 8 {
        let acc2 = acc >> 8u16;
        assert forall|q: int| 0 <= q < 16 implies #[trigger] acc_bit(acc2, q) == index_bit_below(
            indices,
            bits,
            m,
            8 * next.len() + q,
        ) by {
            lemma_acc_cut(acc, q);
            if q < 8 {
                assert(acc_bit(acc, q + 8) == index_bit_below(indices, bits, m, base + (q + 8)));
            } else if index_bit_below(indices, bits, m, 8 * next.len() + q) {
                lemma_reach(indices, bits, m, 8 * next.len() + q);
                assert((m - 1) * bits + bits == m * bits) by (nonlinear_arith);
            }
        }
    }
}

/// Merging the next index into the accumulator keeps the packer's invariant.
proof fn lemma_pack_merge(
    packed: Seq<u8>,
    acc: u16,
    in_acc: u8,
    indices: Seq<u8>,
    bits: nat,
    m: int,
)
    requires
        pack_inv(packed, acc, in_acc as int, indices, bits, m),
        0 <= m < indices.len(),
        in_acc < 8,
    ensures
        pack_inv(
            packed,
            acc | ((indices[m] as u16) << in_acc),
            in_acc + bits,
            indices,
            bits,
            m + 1,
        ),
{
    let v = indices[m];
    let base = 8 * packed.len();
    let acc2 = acc | ((v as u16) << in_acc);
    assert(m * bits + bits == (m + 1) * bits) by (nonlinear_arith);
    assert forall|q: int| 0 <= q < 16 implies #[trigger] acc_bit(acc2, q) == index_bit_below(
        indices,
        bits,
        m + 1,
        base + q,
    ) by {
        lemma_acc_merge(acc, v, in_acc, q);
        lemma_one_more(indices, bits, m, base + q);
        assert(acc_bit(acc, q) == index_bit_below(indices, bits, m, base + q));
    }
}

/// Pack quantization indices, each meant to be below 2^bits, at `bits` bits per index with no
/// padding between them. Bits of an index beyond that range run into the indices after it.
pub fn pack_indices(indices: &[u8], bits: u8) -> (packed: Vec<u8>)
    requires
        1 <= bits <= 8,
    ensures
        packs(packed@, indices@, bits as nat),
        bits == 8 ==> packed@ == indices@,
{
    if bits == 8 {
        proof {
            lemma_whole_bytes(indices@);
        }
        return vstd::slice::slice_to_vec(indices);
    }
    let mut packed: Vec<u8> = Vec::new();
    let mut accumulator: u16 = 0;
    let mut bits_in_acc: u8 = 0;
    proof {
        assert forall|q: int| 0 <= q < 16 implies #[trigger] acc_bit(0, q) == index_bit_below(
            indices@,
            bits as nat,
            0,
            8 * packed@.len() + q,
        ) by {
            let qq = q as u16;
            assert((0u16 >> qq) & 1u16 == 0u16) by (bit_vector);
        }
    }
    for i in 0..indices.len()
        invariant
            1 <= bits < 8,
            bits_in_acc < 8,
            pack_inv(packed@, accumulator, bits_in_acc as int, indices@, bits as nat, i as int),
    {
        proof {
            lemma_pack_merge(packed@, accumulator, bits_in_acc, indices@, bits as nat, i as int);
        }
        accumulator = accumulator | ((indices[i] as u16) << bits_in_acc);
        bits_in_acc = bits_in_acc + bits;
        if bits_in_acc >= 8 {
            proof {
                lemma_pack_cut(
                    packed@,
                    accumulator,
                    bits_in_acc as int,
                    indices@,
                    bits as nat,
                    i + 1,
                );
            }
            packed.push((accumulator & 0xFF) as u8);
            accumulator = accumulator >> 8u16;
            bits_in_acc = bits_in_acc - 8;
        }
    }
    if bits_in_acc > 0 {
        proof {
            lemma_pack_cut(
                packed@,
                accumulator,
                bits_in_acc as int,
                indices@,
                bits as nat,
                indices@.len() as int,
            );
        }
        packed.push((accumulator & 0xFF) as u8);
    }
    packed
}

/// At 8 bits per index the stream is the indices themselves.
proof fn lemma_whole_bytes(indices: Seq<u8>)
    ensures
        packs(indices, indices, 8),
{
    assert forall|p: int| 0 <= p < 8 * indices.len() implies #[trigger] stream_bit(indices, p)
        == index_bit(indices, 8, p) by {
        let i = p / 8;
        assert(contributes(indices, 8, i, p) == stream_bit(indices, p));
        if index_bit(indices, 8, p) {
            let j = choose|j: int|
                0 <= j < indices.len() && #[trigger] contributes(indices, 8, j, p);
            assert(j == i);
        }
    }
}

/// What the unpacker keeps: the accumulator holds the bits read from the stream that no index
/// has taken yet, and nothing above them.
spec fn unpack_inv(
    packed: Seq<u8>,
    acc: u16,
    in_acc: int,
    byte_idx: int,
    bits: nat,
    i: int,
) -> bool {
    &&& 0 <= byte_idx <= packed.len()
    &&& 0 <= in_acc < 16
    &&& 8 * byte_idx == i * bits + in_acc
    &&& forall|q: int|
        0 <= q < 16 ==> #[trigger] acc_bit(acc, q) == (q < in_acc && stream_bit(
            packed,
            i * bits + q,
        ))
}

/// Reading a byte into the accumulator keeps the unpacker's invariant.
proof fn lemma_unpack_read(
    packed: Seq<u8>,
    acc: u16,
    in_acc: u8,
    byte_idx: int,
    bits: nat,
    i: int,
)
    requires
        unpack_inv(packed, acc, in_acc as int, byte_idx, bits, i),
        in_acc < 8,
        byte_idx < packed.len(),
    ensures
        unpack_inv(
            packed,
            acc | ((packed[byte_idx] as u16) << in_acc),
            in_acc + 8,
            byte_idx + 1,
            bits,
            i,
        ),
{
    let v = packed[byte_idx];
    let acc2 = acc | ((v as u16) << in_acc);
    assert forall|q: int| 0 <= q < 16 implies #[trigger] acc_bit(acc2, q) == (q < in_acc + 8
        && stream_bit(packed, i * bits + q)) by {
        lemma_acc_merge(acc, v, in_acc, q);
        assert(acc_bit(acc, q) == (q < in_acc && stream_bit(packed, i * bits + q)));
        if in_acc <= q < in_acc + 8 {
            let p = i * bits + q;
            assert(p == 8 * byte_idx + (q - in_acc));
            assert(p / 8 == byte_idx && p % 8 == q - in_acc);
        }
    }
}

/// Taking an index out of the accumulator keeps the unpacker's invariant.
proof fn lemma_unpack_take(
    packed: Seq<u8>,
    acc: u16,
    in_acc: int,
    byte_idx: int,
    bits: u8,
    mask: u16,
    i: int,
)
    requires
        unpack_inv(packed, acc, in_acc, byte_idx, bits as nat, i),
        1 <= bits < 8,
        bits <= in_acc,
        mask == (1u16 << bits) - 1,
    ensures
        unpack_inv(packed, acc >> bits, in_acc - bits, byte_idx, bits as nat, i + 1),
        forall|k: int|
            0 <= k < 8 ==> #[trigger] byte_bit((acc & mask) as u8, k) == (k < bits && stream_bit(
                packed,
                i * bits + k,
            )),
{
    assert(i * bits + bits == (i + 1) * bits) by (nonlinear_arith);
    assert forall|k: int| 0 <= k < 8 implies #[trigger] byte_bit((acc & mask) as u8, k) == (k
        < bits && stream_bit(packed, i * bits + k)) by {
        lemma_acc_take(acc, bits, mask, k);
        assert(acc_bit(acc, k) == (k < in_acc && stream_bit(packed, i * bits + k)));
    }
    assert forall|q: int| 0 <= q < 16 implies #[trigger] acc_bit(acc >> bits, q) == (q < in_acc
        - bits && stream_bit(packed, (i + 1) * bits + q)) by {
        lemma_acc_take(acc, bits, mask, q);
        if q + bits < 16 {
            assert(acc_bit(acc, q + bits) == (q + bits < in_acc && stream_bit(
                packed,
                i * bits + (q + bits),
            )));
        }
    }
}

/// The smallest of two lengths.
pub open spec fn shorter(a: nat, b: nat) -> nat {
    if a <= b {
        a
    } else {
        b
    }
}

/// Read `count` indices of `bits` bits each from a packed stream. At 8 bits per index a
/// stream that is too short gives as many indices as it has bytes.
pub fn unpack_indices(packed: &[u8], bits: u8, count: usize) -> (indices: Vec<u8>)
    requires
        1 <= bits <= 8,
        bits < 8 ==> count * bits <= 8 * packed@.len(),
    ensures
        bits < 8 ==> unpacks(indices@, packed@, bits as nat, count as nat),
        bits == 8 ==> unpacks(
            indices@,
            packed@,
            8,
            shorter(count as nat, packed@.len()),
        ),
        bits == 8 ==> indices@ == packed@.take(shorter(count as nat, packed@.len()) as int),
{
    let mut unpacked: Vec<u8> = Vec::new();
    if bits == 8 {
        let len: usize = if count <= packed.len() {
            count
        } else {
            packed.len()
        };
        for i in 0..len
            invariant
                len <= packed@.len(),
                unpacked@ == packed@.take(i as int),
        {
            unpacked.push(packed[i]);
            assert(unpacked@ =~= packed@.take(i + 1));
        }
        return unpacked;
    }
    let mut byte_idx: usize = 0;
    let mut accumulator: u16 = 0;
    let mut bits_in_acc: u8 = 0;
    assert((1u16 << bits) >= 1) by (bit_vector)
        requires
            bits < 8,
    ;
    let mask: u16 = (1u16 << bits) - 1;
    proof {
        assert forall|q: int| 0 <= q < 16 implies !#[trigger] acc_bit(0, q) by {
            let qq = q as u16;
            assert((0u16 >> qq) & 1u16 == 0u16) by (bit_vector);
        }
    }
    for i in 0..count
        invariant
            1 <= bits < 8,
            count * bits <= 8 * packed@.len(),
            bits_in_acc < 8,
            mask == (1u16 << bits) - 1,
            unpack_inv(
                packed@,
                accumulator,
                bits_in_acc as int,
                byte_idx as int,
                bits as nat,
                i as int,
            ),
            unpacks(unpacked@, packed@, bits as nat, i as nat),
    {
        if bits_in_acc < bits {
            proof {
                assert(i * bits + bits <= count * bits) by (nonlinear_arith)
                    requires
                        i + 1 <= count,
                        bits >= 0,
                ;
                lemma_unpack_read(
                    packed@,
                    accumulator,
                    bits_in_acc,
                    byte_idx as int,
                    bits as nat,
                    i as int,
                );
            }
            accumulator = accumulator | ((packed[byte_idx] as u16) << bits_in_acc);
            bits_in_acc = bits_in_acc + 8;
            byte_idx = byte_idx + 1;
        }
        proof {
            lemma_unpack_take(
                packed@,
                accumulator,
                bits_in_acc as int,
                byte_idx as int,
                bits,
                mask,
                i as int,
            );
        }
        unpacked.push((accumulator & mask) as u8);
        accumulator = accumulator >> bits;
        bits_in_acc = bits_in_acc - bits;
    }
    unpacked
}

/// Unpacking undoes packing: whatever indices that fit in `bits` bits are packed, the same
/// indices come out.
pub proof fn law_unpack_undoes_pack(
    indices: Seq<u8>,
    packed: Seq<u8>,
    out: Seq<u8>,
    bits: nat,
)
    requires
        1 <= bits <= 8,
        indices_fit(indices, bits),
        packs(packed, indices, bits),
        unpacks(out, packed, bits, indices.len()),
    ensures
        out == indices,
{
    assert forall|i: int| 0 <= i < indices.len() implies out[i] == #[trigger] indices[i] by {
        assert forall|k: int| 0 <= k < 8 implies #[trigger] byte_bit(out[i], k) == byte_bit(
            indices[i],
            k,
        ) by {
            let p = i * bits + k;
            if k < bits {
                assert(0 <= i * bits && i * bits + bits <= indices.len() * bits)
                    by (nonlinear_arith)
                    requires
                        0 <= i,
                        i + 1 <= indices.len(),
                        bits >= 0,
                ;
                assert(stream_bit(packed, p) == index_bit(indices, bits, p));
                assert(contributes(indices, bits, i, p) == byte_bit(indices[i], k));
                if index_bit(indices, bits, p) {
                    let j = choose|j: int|
                        0 <= j < indices.len() && #[trigger] contributes(indices, bits, j, p);
                    lemma_same_slot(indices, bits, i, j, p);
                }
            }
        }
        lemma_byte_ext(out[i], indices[i]);
    }
    assert(out =~= indices);
}

/// Indices that fit do not share positions of the stream.
proof fn lemma_same_slot(indices: Seq<u8>, bits: nat, i: int, j: int, p: int)
    requires
        1 <= bits <= 8,
        indices_fit(indices, bits),
        0 <= j < indices.len(),
        i * bits <= p < i * bits + bits,
        contributes(indices, bits, j, p),
    ensures
        i == j,
{
    let k = p - j * bits;
    assert(k < bits) by {
        if k >= bits {
            assert(!byte_bit(indices[j], k));
        }
    }
    assert(i == j) by (nonlinear_arith)
        requires
            bits >= 1,
            i * bits <= p < i * bits + bits,
            j * bits <= p < j * bits + bits,
    ;
}

/// Packing undoes unpacking: a stream of the right length whose spare bits are zero comes
/// back from the indices that were read from it.
pub proof fn law_pack_undoes_unpack(
    packed: Seq<u8>,
    indices: Seq<u8>,
    again: Seq<u8>,
    bits: nat,
)
    requires
        1 <= bits <= 8,
        packed.len() == (indices.len() * bits + 7) / 8,
        forall|p: int|
            indices.len() * bits <= p < 8 * packed.len() ==> !#[trigger] stream_bit(packed, p),
        unpacks(indices, packed, bits, indices.len()),
        packs(again, indices, bits),
    ensures
        again == packed,
{
    assert forall|b: int| 0 <= b < packed.len() implies again[b] == #[trigger] packed[b] by {
        assert forall|k: int| 0 <= k < 8 implies #[trigger] byte_bit(again[b], k) == byte_bit(
            packed[b],
            k,
        ) by {
            let p = 8 * b + k;
            assert(p / 8 == b && p % 8 == k);
            assert(stream_bit(again, p) == index_bit(indices, bits, p));
            lemma_index_bit_of_unpacked(packed, indices, bits, p);
        }
        lemma_byte_ext(again[b], packed[b]);
    }
    assert(again =~= packed);
}

/// The stream that unpacked indices make up is the stream they were read from.
proof fn lemma_index_bit_of_unpacked(packed: Seq<u8>, indices: Seq<u8>, bits: nat, p: int)
    requires
        1 <= bits <= 8,
        0 <= p < 8 * packed.len(),
        forall|q: int|
            indices.len() * bits <= q < 8 * packed.len() ==> !#[trigger] stream_bit(packed, q),
        unpacks(indices, packed, bits, indices.len()),
    ensures
        index_bit(indices, bits, p) == stream_bit(packed, p),
{
    lemma_unpacked_fit(packed, indices, bits);
    if index_bit(indices, bits, p) {
        let j = choose|j: int|
            0 <= j < indices.len() && #[trigger] contributes(indices, bits, j, p);
        let k = p - j * bits;
        assert(byte_bit(indices[j], k));
    }
    if stream_bit(packed, p) {
        let i = p / (bits as int);
        let k = p % (bits as int);
        assert(0 <= i < indices.len() && p == i * bits + k && 0 <= k < bits) by (nonlinear_arith)
            requires
                bits >= 1,
                0 <= p < indices.len() * bits,
                i == p / (bits as int),
                k == p % (bits as int),
        ;
        assert(byte_bit(indices[i], k));
        assert(contributes(indices, bits, i, p));
    }
}

/// Indices that were unpacked fit in their bits.
pub proof fn lemma_unpacked_fit(packed: Seq<u8>, indices: Seq<u8>, bits: nat)
    requires
        unpacks(indices, packed, bits, indices.len()),
    ensures
        indices_fit(indices, bits),
{
}

/// A stream holds only one sequence of indices.
pub proof fn law_unpacking_is_unique(
    packed: Seq<u8>,
    one: Seq<u8>,
    other: Seq<u8>,
    bits: nat,
    count: nat,
)
    requires
        unpacks(one, packed, bits, count),
        unpacks(other, packed, bits, count),
    ensures
        one == other,
{
    assert forall|i: int| 0 <= i < count implies one[i] == #[trigger] other[i] by {
        assert forall|k: int| 0 <= k < 8 implies #[trigger] byte_bit(one[i], k) == byte_bit(
            other[i],
            k,
        ) by {}
        lemma_byte_ext(one[i], other[i]);
    }
    assert(one =~= other);
}

/// Where packed indices lie: bit `k` of index `i` is bit `i * bits + k` of the stream, which is
/// read from the lowest bit of its first byte on; what is left of the last byte is zero, and
/// there is no byte too many.
pub proof fn law_stream_positions(
    indices: Seq<u8>,
    packed: Seq<u8>,
    bits: nat,
    i: int,
    k: int,
    p: int,
)
    requires
        1 <= bits <= 8,
        indices_fit(indices, bits),
        packs(packed, indices, bits),
        0 <= i < indices.len(),
        0 <= k < bits,
    ensures
        stream_bit(packed, i * bits + k) == byte_bit(indices[i], k),
        indices.len() * bits <= p < 8 * packed.len() ==> !stream_bit(packed, p),
        indices.len() * bits <= 8 * packed.len() < indices.len() * bits + 8,
{
    let q = i * bits + k;
    assert(0 <= i * bits && i * bits + bits <= indices.len() * bits) by (nonlinear_arith)
        requires
            0 <= i,
            i + 1 <= indices.len(),
            bits >= 0,
    ;
    assert(stream_bit(packed, q) == index_bit(indices, bits, q));
    assert(contributes(indices, bits, i, q) == byte_bit(indices[i], k));
    if index_bit(indices, bits, q) {
        let j = choose|j: int|
            0 <= j < indices.len() && #[trigger] contributes(indices, bits, j, q);
        lemma_same_slot(indices, bits, i, j, q);
    }
    if indices.len() * bits <= p < 8 * packed.len() && index_bit(indices, bits, p) {
        let j = choose|j: int|
            0 <= j < indices.len() && #[trigger] contributes(indices, bits, j, p);
        assert(j * bits + bits <= indices.len() * bits) by (nonlinear_arith)
            requires
                j + 1 <= indices.len(),
                bits >= 0,
        ;
        assert(!byte_bit(indices[j], p - j * bits));
    }
}

/// The bits of a byte are those of its value.
pub proof fn law_byte_bits(v: u8)
    ensures
        byte_bit(v, 0) == (v % 2 == 1),
        byte_bit(v, 1) == (v / 2 % 2 == 1),
        byte_bit(v, 2) == (v / 4 % 2 == 1),
        byte_bit(v, 3) == (v / 8 % 2 == 1),
        byte_bit(v, 4) == (v / 16 % 2 == 1),
        byte_bit(v, 5) == (v / 32 % 2 == 1),
        byte_bit(v, 6) == (v / 64 % 2 == 1),
        byte_bit(v, 7) == (v / 128 % 2 == 1),
{
    assert((v >> 0u8) & 1u8 == v % 2 && (v >> 1u8) & 1u8 == v / 2 % 2 && (v >> 2u8) & 1u8 == v / 4
        % 2 && (v >> 3u8) & 1u8 == v / 8 % 2 && (v >> 4u8) & 1u8 == v / 16 % 2 && (v >> 5u8) & 1u8
        == v / 32 % 2 && (v >> 6u8) & 1u8 == v / 64 % 2 && (v >> 7u8) & 1u8 == v / 128 % 2)
        by (bit_vector);
}

} // verus!
