//! The CPU reference engine: the checksum kernel run sequentially over a
//! payload, the substitution of a Y value into it, the hand-off state for the
//! GPU search, and the full verification of a (Y, X) pair.
use vstd::prelude::*;

use crate::kernel::{
    candidate_checksum, checksum_of, combine, finish_buffer, finish_step, full_checksum, handoff,
    initial_state, lemma_handoff_parity, lemma_word_fields, prefold, rotl, rotr, round, run,
    step_main, step_next, wadd, wmul, wsub, MAGIC,
};
use crate::payload::{
    apply_y, apply_y_prefix, be_word, bit_in_cell, cell_of, lemma_apply_y_len, valid_y_bits,
    words_of, y_bit,
};

verus! {

/// A boot payload as 1008 words, with the state that its seed starts from.
pub struct CPUHasher {
    ipl3: [u32; 1008],
    state: [u32; 16],
}

impl CPUHasher {
    pub(crate) fn add(a1: u32, a2: u32) -> (r: u32)
        ensures
            r == wadd(a1, a2),
    {
        a1.wrapping_add(a2)
    }

    pub(crate) fn sub(a1: u32, a2: u32) -> (r: u32)
        ensures
            r == wsub(a1, a2),
    {
        a1.wrapping_sub(a2)
    }

    pub(crate) fn mul(a1: u32, a2: u32) -> (r: u32)
        ensures
            r == wmul(a1, a2),
    {
        a1.wrapping_mul(a2)
    }

    pub(crate) fn rol(a: u32, s: u32) -> (r: u32)
        requires
            s < 32,
        ensures
            r == rotl(a, s),
    {
        if s == 0 {
            a
        } else {
            (a << s) | (a >> (32 - s))
        }
    }

    pub(crate) fn ror(a: u32, s: u32) -> (r: u32)
        requires
            s < 32,
        ensures
            r == rotr(a, s),
    {
        if s == 0 {
            a
        } else {
            (a >> s) | (a << (32 - s))
        }
    }

    pub(crate) fn sum(a0: u32, a1: u32, a2: u32) -> (r: u32)
        ensures
            r == combine(a0, a1, a2),
    {
        let m: u32 = if a1 == 0 { a2 } else { a1 };
        let prod = (a0 as u64).wrapping_mul(m as u64);
        proof {
            let p: nat = a0 as nat * m as nat;
            assert(p <= 0xFFFF_FFFE_0000_0001) by (nonlinear_arith)
                requires
                    p == a0 as nat * m as nat,
                    a0 <= 0xFFFF_FFFF,
                    m <= 0xFFFF_FFFF,
            ;
            assert(prod == p);
            assert((prod >> 32) & 0xFFFF_FFFF == prod / 0x1_0000_0000) by (bit_vector);
            assert(prod & 0xFFFF_FFFF == prod % 0x1_0000_0000) by (bit_vector);
        }
        let hi = ((prod >> 32) & 0xFFFFFFFF) as u32;
        let lo = (prod & 0xFFFFFFFF) as u32;
        let diff = hi.wrapping_sub(lo);
        if diff == 0 {
            a0
        } else {
            diff
        }
    }

    /// Updates state words 0 to 9 for `data` at index `i`.
    pub(crate) fn round_main(state: &mut [u32; 16], prev: u32, data: u32, i: u32)
        ensures
            final(state)@ == step_main(old(state)@, prev, data, i),
    {
        proof {
            lemma_word_fields(prev);
        }
        state[0] = Self::add(state[0], Self::sum(Self::sub(1007, i), data, i));
        state[1] = Self::sum(state[1], data, i);
        state[2] = state[2] ^ data;
        state[3] = Self::add(state[3], Self::sum(Self::add(data, 5), MAGIC, i));
        state[4] = Self::add(state[4], Self::ror(data, prev & 0x1F));
        state[5] = Self::add(state[5], Self::rol(data, prev >> 27));
        state[6] = if data < state[6] {
            Self::add(state[3], state[6]) ^ Self::add(data, i)
        } else {
            Self::add(state[4], data) ^ state[6]
        };
        state[7] = Self::sum(state[7], Self::rol(data, prev & 0x1F), i);
        state[8] = Self::sum(state[8], Self::ror(data, prev >> 27), i);
        state[9] = if prev < data {
            Self::sum(state[9], data, i)
        } else {
            Self::add(state[9], data)
        };
        assert(state@ =~= step_main(old(state)@, prev, data, i));
    }

    /// Updates state words 10 to 15 for `data` at index `i`, with the word
    /// `next` after it.
    fn round_next(state: &mut [u32; 16], prev: u32, data: u32, next: u32, i: u32)
        ensures
            final(state)@ == step_next(old(state)@, prev, data, next, i),
    {
        proof {
            lemma_word_fields(prev);
            lemma_word_fields(data);
            lemma_word_fields(next);
        }
        state[10] = Self::sum(Self::add(state[10], data), next, i);
        state[11] = Self::sum(state[11] ^ data, next, i);
        state[12] = Self::add(state[12], state[8] ^ data);
        state[13] = Self::add(
            state[13],
            Self::add(Self::ror(data, data & 0x1F), Self::ror(next, next & 0x1F)),
        );
        state[14] = Self::sum(
            Self::sum(state[14], Self::ror(data, prev & 0x1F), i),
            Self::ror(next, data & 0x1F),
            i,
        );
        state[15] = Self::sum(
            Self::sum(state[15], Self::rol(data, prev >> 27), i),
            Self::rol(next, data >> 27),
            i,
        );
        assert(state@ =~= step_next(old(state)@, prev, data, next, i));
    }

    /// Runs rounds `1..=end` of the kernel over `ipl3`, from `state`.
    fn calculate(ipl3: &[u32; 1008], state: &mut [u32; 16], end: u32)
        requires
            end <= 1008,
        ensures
            final(state)@ == run(ipl3@, old(state)@, end as int, end as nat),
    {
        let ghost st0 = state@;
        let mut i: u32 = 1;
        while i <= end
            invariant
                1 <= i <= end + 1,
                end <= 1008,
                state@ == run(ipl3@, st0, end as int, (i - 1) as nat),
            decreases end + 1 - i,
        {
            let prev = ipl3[if i >= 2 { (i - 2) as usize } else { 0 }];
            let data = ipl3[(i - 1) as usize];
            let ghost before = state@;
            Self::round_main(state, prev, data, i);
            if i < end {
                let next = ipl3[i as usize];
                Self::round_next(state, prev, data, next, i);
            }
            assert(state@ == round(ipl3@, before, i as int, end as int));
            i = i + 1;
        }
    }

    /// The 48-bit checksum of a final state.
    pub fn finalize(state: &[u32; 16]) -> (r: u64)
        ensures
            r == checksum_of(state@),
    {
        let mut buffer: [u32; 4] = [state[0], state[0], state[0], state[0]];
        let mut i: u32 = 0;
        while i < 16
            invariant
                i <= 16,
                buffer@ == finish_buffer(state@, i as nat),
            decreases 16 - i,
        {
            let data = state[i as usize];
            let ghost before = buffer@;
            proof {
                lemma_word_fields(data);
            }

            buffer[0] = Self::add(buffer[0], Self::ror(data, data & 0x1F));
            buffer[1] = if data < buffer[0] {
                Self::add(buffer[1], data)
            } else {
                Self::sum(buffer[1], data, i)
            };
            buffer[2] = if ((data & 0x02) >> 1) == (data & 0x01) {
                Self::add(buffer[2], data)
            } else {
                Self::sum(buffer[2], data, i)
            };
            buffer[3] = if (data & 0x01) == 0x01 {
                buffer[3] ^ data
            } else {
                Self::sum(buffer[3], data, i)
            };
            assert(buffer@ =~= finish_step(before, data, i));
            i = i + 1;
        }

        let final_sum = Self::sum(buffer[0], buffer[1], 16);
        let final_xor = buffer[3] ^ buffer[2];
        let hi = final_sum & 0xFFFF;
        proof {
            lemma_word_fields(final_sum);
            assert((((hi as u64) << 32) | (final_xor as u64)) == hi as u64 * 0x1_0000_0000u64
                + final_xor as u64) by (bit_vector)
                requires
                    hi <= 0xFFFF,
            ;
        }
        (((hi as u64) << 32) | (final_xor as u64))
    }

    /// The payload words.
    pub closed spec fn payload(&self) -> Seq<u32> {
        self.ipl3@
    }

    /// The state that every run over this payload starts from.
    pub closed spec fn start_state(&self) -> Seq<u32> {
        self.state@
    }

    /// The hand-off for a Y value: word 1006 and the prefolded state.
    pub open spec fn y_round_spec(&self, y_bits: Seq<u32>, y: u32) -> (u32, Seq<u32>) {
        handoff(apply_y(self.payload(), y_bits, y), self.start_state())
    }

    /// The checksum of the payload with Y substituted and X as its last word.
    pub open spec fn verify_spec(&self, y_bits: Seq<u32>, y: u32, x: u32) -> u64 {
        full_checksum(apply_y(self.payload(), y_bits, y).update(1007, x), self.start_state())
    }

    /// Reads the payload from its 4032 bytes, big-endian, and derives the
    /// start state from the seed and the first word.
    pub fn new(ipl3_raw_data: &[u8; 4032], seed: u8) -> (r: Self)
        ensures
            r.payload() == words_of(ipl3_raw_data@),
            r.start_state() == initial_state(seed, be_word(ipl3_raw_data@, 0)),
    {
        let mut ipl3: [u32; 1008] = [0u32; 1008];
        let mut k: usize = 0;
        while k < 1008
            invariant
                k <= 1008,
                forall|j: int| 0 <= j < k ==> ipl3@[j] == be_word(ipl3_raw_data@, j),
            decreases 1008 - k,
        {
            let b0 = ipl3_raw_data[4 * k];
            let b1 = ipl3_raw_data[4 * k + 1];
            let b2 = ipl3_raw_data[4 * k + 2];
            let b3 = ipl3_raw_data[4 * k + 3];
            let word = ((b0 as u32) << 24) | ((b1 as u32) << 16) | ((b2 as u32) << 8) | (b3 as u32);
            proof {
                assert(word == b0 as u32 * 0x100_0000u32 + b1 as u32 * 0x1_0000u32 + b2 as u32
                    * 0x100u32 + b3 as u32) by (bit_vector)
                    requires
                        word == ((b0 as u32) << 24) | ((b1 as u32) << 16) | ((b2 as u32) << 8)
                            | (b3 as u32),
                ;
            }
            ipl3[k] = word;
            k = k + 1;
        }
        assert(ipl3@ =~= words_of(ipl3_raw_data@));

        let first = ipl3[0];
        let fill = Self::add(Self::mul(MAGIC, seed as u32), 1) ^ first;
        let state: [u32; 16] = [fill; 16];
        assert(state@ =~= initial_state(seed, be_word(ipl3_raw_data@, 0)));
        Self { ipl3, state }
    }

    /// A copy of the payload with `y` written into the bits that the map names.
    fn apply_y_bits(&self, y_bits: &Vec<u32>, y: u32) -> (r: [u32; 1008])
        requires
            valid_y_bits(y_bits@),
        ensures
            r@ == apply_y(self.payload(), y_bits@, y),
    {
        let mut ipl3 = self.ipl3;
        let len = y_bits.len();
        let mut i: usize = 0;
        while i < len
            invariant
                len == y_bits@.len(),
                i <= len,
                valid_y_bits(y_bits@),
                ipl3@ == apply_y_prefix(self.ipl3@, y_bits@, y, i as nat),
            decreases len - i,
        {
            let offset = y_bits[i];
            let index = (offset / 32) as usize;
            let bit = 31 - (offset % 32);
            let shift = len - 1;
            let value = (y >> ((shift - i) as u32)) & 1;
            ipl3[index] = (ipl3[index] & !(1u32 << bit)) | (value << bit);
            proof {
                assert(cell_of(offset, 32) == index);
                assert(bit_in_cell(offset, 32) == bit);
                assert(y_bit(y, len as nat, i as int) == value);
            }
            i = i + 1;
        }
        ipl3
    }

    /// The hand-off for `y`: the payload with `y` substituted is run through
    /// rounds `1..=1007`, and the parts of the last lookahead that do not read
    /// the X word are folded in. Returns word 1006 and that state.
    pub fn y_round(&self, y_bits: Vec<u32>, y: u32) -> (r: (u32, [u32; 16]))
        requires
            valid_y_bits(y_bits@),
        ensures
            r.0 == self.y_round_spec(y_bits@, y).0,
            r.1@ == self.y_round_spec(y_bits@, y).1,
    {
        let ipl3 = self.apply_y_bits(&y_bits, y);
        let mut state = self.state;

        Self::calculate(&ipl3, &mut state, 1007);

        let prev = ipl3[1005];
        let data = ipl3[1006];
        let ghost st = state@;
        proof {
            lemma_word_fields(prev);
            lemma_word_fields(data);
        }

        state[10] = Self::add(state[10], data);
        state[11] = state[11] ^ data;
        state[12] = Self::add(state[12], state[8] ^ data);
        state[13] = Self::add(state[13], Self::ror(data, data & 0x1F));
        state[14] = Self::sum(state[14], Self::ror(data, prev & 0x1F), 1007);
        state[15] = Self::sum(state[15], Self::rol(data, prev >> 27), 1007);
        assert(state@ =~= prefold(st, prev, data));

        (data, state)
    }

    /// The full checksum of the payload with `y` substituted and `x` as its
    /// last word.
    pub fn verify(&self, y_bits: Vec<u32>, y: u32, x: u32) -> (r: u64)
        requires
            valid_y_bits(y_bits@),
        ensures
            r == self.verify_spec(y_bits@, y, x),
    {
        let mut ipl3 = self.apply_y_bits(&y_bits, y);
        let mut state = self.state;

        ipl3[1007] = x;

        Self::calculate(&ipl3, &mut state, 1008);
        Self::finalize(&state)
    }
}

/// Kernel parity: for every valid map, Y value and X value, the checksum
/// that a search thread computes for `x` from the hand-off of `y_round`
/// equals the full checksum that `verify` computes for `(y, x)`.
pub proof fn lemma_kernel_parity(h: CPUHasher, y_bits: Seq<u32>, y: u32, x: u32)
    requires
        valid_y_bits(y_bits),
    ensures
        candidate_checksum(h.y_round_spec(y_bits, y).0, h.y_round_spec(y_bits, y).1, x)
            == h.verify_spec(y_bits, y, x),
{
    lemma_apply_y_len(h.payload(), y_bits, y, y_bits.len());
    lemma_handoff_parity(apply_y(h.payload(), y_bits, y), h.start_state(), x);
}

} // verus!
