//! Model of the payload: words read big-endian from bytes, the Y-bit map,
//! and the substitution of a Y value into the payload's bits.
use vstd::prelude::*;

verus! {

/// The word at index `k` of `b`, read big-endian.
pub open spec fn be_word(b: Seq<u8>, k: int) -> u32 {
    (b[4 * k] as nat * 0x100_0000 + b[4 * k + 1] as nat * 0x1_0000 + b[4 * k + 2] as nat * 0x100
        + b[4 * k + 3] as nat) as u32
}

/// The bytes `b`, four at a time, as big-endian words.
pub open spec fn words_of(b: Seq<u8>) -> Seq<u32> {
    Seq::new(b.len() / 4, |k: int| be_word(b, k))
}

/// A Y-bit map that the search can use: at most 32 offsets, strictly
/// increasing, each inside payload words 1 to 1006 (never the seed word 0
/// nor the X word 1007).
pub open spec fn valid_y_bits(bits: Seq<u32>) -> bool {
    &&& bits.len() <= 32
    &&& forall|k: int| 0 <= k < bits.len() ==> 32 <= #[trigger] bits[k] < 32 * 1007
    &&& forall|j: int, k: int| 0 <= j < k < bits.len() ==> bits[j] < bits[k]
}

/// The bit of `y` that entry `i` of a map of `len` entries carries: the
/// first entry carries the most significant one.
pub open spec fn y_bit(y: u32, len: nat, i: int) -> u32 {
    (y >> ((len - 1 - i) as u32)) & 1
}

/// `w` with bit `bit` (0 = least significant) set to `v`.
pub open spec fn with_bit(w: u32, bit: u32, v: u32) -> u32 {
    (w & !(1u32 << bit)) | (v << bit)
}

/// Bit `bit` of `w`.
pub open spec fn bit_of(w: u32, bit: u32) -> u32 {
    (w >> bit) & 1
}

/// Word index of a map offset within a sequence of `unit`-bit cells.
pub open spec fn cell_of(offset: u32, unit: u32) -> int {
    (offset / unit) as int
}

/// Bit position (0 = least significant) of a map offset within its cell.
pub open spec fn bit_in_cell(offset: u32, unit: u32) -> u32 {
    (unit - 1 - offset % unit) as u32
}

/// `w` after the first `n` entries of the map have written their bit of `y`.
pub open spec fn apply_y_prefix(w: Seq<u32>, bits: Seq<u32>, y: u32, n: nat) -> Seq<u32>
    decreases n,
{
    if n == 0 {
        w
    } else {
        let prior = apply_y_prefix(w, bits, y, (n - 1) as nat);
        let off = bits[n - 1];
        let idx = cell_of(off, 32);
        prior.update(idx, with_bit(prior[idx], bit_in_cell(off, 32), y_bit(y, bits.len(), n - 1)))
    }
}

/// The payload `w` with `y` written into the bits that the map names.
pub open spec fn apply_y(w: Seq<u32>, bits: Seq<u32>, y: u32) -> Seq<u32> {
    apply_y_prefix(w, bits, y, bits.len())
}

/// The value read back from the bits of `w` that the first `n` entries of
/// the map name, the first entry giving the most significant bit.
pub open spec fn extract_y_prefix(w: Seq<u32>, bits: Seq<u32>, n: nat) -> u64
    decreases n,
{
    if n == 0 {
        0
    } else {
        let off = bits[n - 1];
        let b = bit_of(w[cell_of(off, 32)], bit_in_cell(off, 32));
        ((extract_y_prefix(w, bits, (n - 1) as nat) << 1u64) | b as u64)
    }
}

pub open spec fn extract_y(w: Seq<u32>, bits: Seq<u32>) -> u64 {
    extract_y_prefix(w, bits, bits.len())
}

/// How many Y values a map of `n` entries can carry.
pub open spec fn y_limit(n: nat) -> u64 {
    1u64 << (n as u64)
}

/// A map of at most 32 entries carries at most 2^32 values.
pub proof fn lemma_y_limit(n: nat)
    requires
        n <= 32,
    ensures
        1 <= y_limit(n) <= 0x1_0000_0000,
{
    let k = n as u64;
    assert(1 <= (1u64 << k) <= 0x1_0000_0000) by (bit_vector)
        requires
            k <= 32,
    ;
}

/// Setting one bit of a word: that bit reads back as set, the others as
/// before.
proof fn lemma_with_bit(w: u32, b: u32, v: u32, c: u32)
    by (bit_vector)
    requires
        b < 32,
        c < 32,
        v <= 1,
    ensures
        bit_of(with_bit(w, b, v), b) == v,
        b != c ==> bit_of(with_bit(w, b, v), c) == bit_of(w, c),
{
}

proof fn lemma_y_bit_small(y: u32, k: u32)
    by (bit_vector)
    ensures
        (y >> k) & 1 <= 1,
{
}

/// Substitution keeps the payload's length.
pub proof fn lemma_apply_y_len(w: Seq<u32>, bits: Seq<u32>, y: u32, n: nat)
    requires
        valid_y_bits(bits),
        w.len() >= 1007,
        n <= bits.len(),
    ensures
        apply_y_prefix(w, bits, y, n).len() == w.len(),
    decreases n,
{
    if n > 0 {
        lemma_apply_y_len(w, bits, y, (n - 1) as nat);
    }
}

/// After the first `n` entries have written their bits, the bit that each
/// of them names holds that entry's bit of `y`.
proof fn lemma_apply_y_bits_hold(w: Seq<u32>, bits: Seq<u32>, y: u32, n: nat)
    requires
        valid_y_bits(bits),
        w.len() >= 1007,
        n <= bits.len(),
    ensures
        forall|j: int|
            0 <= j < n ==> bit_of(
                #[trigger] apply_y_prefix(w, bits, y, n)[cell_of(bits[j], 32)],
                bit_in_cell(bits[j], 32),
            ) == y_bit(y, bits.len(), j),
    decreases n,
{
    if n > 0 {
        let m = (n - 1) as nat;
        lemma_apply_y_bits_hold(w, bits, y, m);
        lemma_apply_y_len(w, bits, y, m);
        let prior = apply_y_prefix(w, bits, y, m);
        let off = bits[m as int];
        let v = y_bit(y, bits.len(), m as int);
        lemma_y_bit_small(y, (bits.len() - 1 - m) as u32);
        assert forall|j: int| 0 <= j < n implies bit_of(
            #[trigger] apply_y_prefix(w, bits, y, n)[cell_of(bits[j], 32)],
            bit_in_cell(bits[j], 32),
        ) == y_bit(y, bits.len(), j) by {
            let oj = bits[j];
            lemma_with_bit(prior[cell_of(off, 32)], bit_in_cell(off, 32), v, bit_in_cell(oj, 32));
            if j < m {
                assert(oj < off);
            }
        }
    }
}

proof fn lemma_shift_step(y: u32, k: u32)
    by (bit_vector)
    requires
        k < 32,
    ensures
        ((((y as u64) >> ((k + 1) as u64)) << 1u64) | (((y >> k) & 1u32) as u64)) == (y as u64)
            >> (k as u64),
{
}

proof fn lemma_shift_out(y: u32, n: u64)
    by (bit_vector)
    requires
        n <= 32,
        (y as u64) < (1u64 << n),
    ensures
        (y as u64) >> n == 0,
{
}

/// Reading back the first `n` entries gives the top `n` of the map's bits of `y`.
proof fn lemma_extract_prefix(w: Seq<u32>, bits: Seq<u32>, y: u32, n: nat)
    requires
        valid_y_bits(bits),
        w.len() >= 1007,
        n <= bits.len(),
        (y as u64) < y_limit(bits.len()),
    ensures
        extract_y_prefix(apply_y(w, bits, y), bits, n) == (y as u64) >> ((bits.len() - n) as u64),
    decreases n,
{
    lemma_apply_y_bits_hold(w, bits, y, bits.len());
    if n == 0 {
        lemma_shift_out(y, bits.len() as u64);
    } else {
        lemma_extract_prefix(w, bits, y, (n - 1) as nat);
        let k = (bits.len() - n) as u32;
        lemma_shift_step(y, k);
        assert(y_bit(y, bits.len(), n - 1) == (y >> k) & 1);
    }
}

/// Writing a Y value into the payload and reading the same bits back gives
/// that value again, for every valid map and every Y value the map can carry.
pub proof fn lemma_y_round_trip(w: Seq<u32>, bits: Seq<u32>, y: u32)
    requires
        valid_y_bits(bits),
        w.len() >= 1007,
        (y as u64) < y_limit(bits.len()),
    ensures
        extract_y(apply_y(w, bits, y), bits) == y as u64,
{
    lemma_extract_prefix(w, bits, y, bits.len());
    assert((y as u64) >> 0u64 == y as u64) by (bit_vector);
}

/// Whether a Y-bit map is one that the search can use.
pub fn is_valid_y_bits(bits: &Vec<u32>) -> (r: bool)
    ensures
        r == valid_y_bits(bits@),
{
    if bits.len() > 32 {
        return false;
    }
    let mut i: usize = 0;
    while i < bits.len()
        invariant
            bits@.len() <= 32,
            i <= bits@.len(),
            forall|k: int| 0 <= k < i ==> 32 <= #[trigger] bits@[k] < 32 * 1007,
            forall|k: int| 0 < k < i ==> bits@[k - 1] < #[trigger] bits@[k],
        decreases bits@.len() - i,
    {
        let b = bits[i];
        if b < 32 || b >= 32 * 1007 || (i > 0 && bits[i - 1] >= b) {
            return false;
        }
        i = i + 1;
    }
    assert forall|j: int, k: int| 0 <= j < k < bits@.len() implies bits@[j] < bits@[k] by {
        lemma_increasing(bits@, j, k);
    }
    true
}

proof fn lemma_increasing(s: Seq<u32>, j: int, k: int)
    requires
        0 <= j < k < s.len(),
        forall|m: int| 0 < m < s.len() ==> s[m - 1] < #[trigger] s[m],
    ensures
        s[j] < s[k],
    decreases k - j,
{
    if j + 1 < k {
        lemma_increasing(s, j, k - 1);
    }
}

} // verus!
