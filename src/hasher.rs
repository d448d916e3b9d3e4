//! The orchestrator: the Y cursor, the decision taken after each GPU batch,
//! the CPU check of every reported hit, and the signing of an image with a
//! confirmed pair.
use vstd::prelude::*;

use crate::cpu::CPUHasher;
use crate::gpu::{result_of, x_round_outcome, x_round_result, GPUHasherOutput, GPUHasherResult};
use crate::kernel::initial_state;
use crate::payload::{
    apply_y, apply_y_prefix, be_word, bit_in_cell, cell_of, lemma_y_limit, valid_y_bits, with_bit,
    words_of, y_bit, y_limit,
};

verus! {

/// The outcome of one round of the search, over one Y value.
#[derive(PartialEq, Eq, Structural, Clone, Copy, Debug)]
pub enum HasherResult {
    /// A confirmed collision (Y, X).
    Found(u32, u32),
    /// Every X value failed for this Y; the cursor moved on.
    Continue,
    /// Every Y value has been searched.
    End,
}

/// What the search can fail with: a hit that the CPU disproves means the
/// two implementations of the kernel disagree, and the run stops.
#[derive(PartialEq, Eq, Structural, Clone, Copy, Debug)]
pub enum HasherError {
    /// The GPU reported an X that the CPU disproves: Y, X and the checksum
    /// that the CPU computed.
    ChecksumVerifyError(u32, u32, u64),
}

/// What the caller does next within a round.
#[derive(PartialEq, Eq, Structural, Clone, Copy, Debug)]
pub enum RoundStep {
    /// Dispatch the next batch from this X offset.
    Dispatch(u32),
    /// The round is over.
    Done(HasherResult),
}

/// The search over Y values for one payload, seed and target.
pub struct Hasher {
    cpu: CPUHasher,
    workgroups: (u32, u32, u32),
    target_checksum: u64,
    y_bits: Vec<u32>,
    y: u64,
}

/// Byte offset of the payload in an image.
pub const PAYLOAD_OFFSET: usize = 64;

/// Byte offset of the X trailer in an image.
pub const X_TRAILER_OFFSET: usize = 4092;

/// `b` with bit `bit` (0 = least significant) set to `v`.
pub open spec fn with_bit_u8(b: u8, bit: u32, v: u8) -> u8 {
    (b & !(1u8 << bit)) | (v << bit)
}

/// The image `rom` after the first `n` entries of the map have written their
/// bit of `y` into the payload, which starts at byte 64; offsets count eight
/// bits to a byte, the most significant first.
pub open spec fn sign_prefix(rom: Seq<u8>, bits: Seq<u32>, y: u32, n: nat) -> Seq<u8>
    decreases n,
{
    if n == 0 {
        rom
    } else {
        let prior = sign_prefix(rom, bits, y, (n - 1) as nat);
        let off = bits[n - 1];
        let idx = 64 + cell_of(off, 8);
        prior.update(
            idx,
            with_bit_u8(prior[idx], bit_in_cell(off, 8), y_bit(y, bits.len(), n - 1) as u8),
        )
    }
}

/// The image signed with (Y, X): the map's bits written, and X big-endian in
/// bytes 4092 to 4095.
pub open spec fn signed_image(rom: Seq<u8>, bits: Seq<u32>, y: u32, x: u32) -> Seq<u8> {
    sign_prefix(rom, bits, y, bits.len()).update(4092, (x >> 24) as u8).update(
        4093,
        (x >> 16) as u8,
    ).update(4094, (x >> 8) as u8).update(4095, x as u8)
}

/// Whether signing with `bits` writes byte `k` of an image.
pub open spec fn signed_byte(bits: Seq<u32>, k: int) -> bool {
    ||| 4092 <= k < 4096
    ||| exists|j: int| 0 <= j < bits.len() && k == 64 + cell_of(#[trigger] bits[j], 8)
}

proof fn lemma_sign_prefix_untouched(rom: Seq<u8>, bits: Seq<u32>, y: u32, n: nat, k: int)
    requires
        valid_y_bits(bits),
        rom.len() >= 4096,
        n <= bits.len(),
        0 <= k < rom.len(),
        !signed_byte(bits, k),
    ensures
        sign_prefix(rom, bits, y, n).len() == rom.len(),
        sign_prefix(rom, bits, y, n)[k] == rom[k],
    decreases n,
{
    if n > 0 {
        lemma_sign_prefix_untouched(rom, bits, y, (n - 1) as nat, k);
        assert(k != 64 + cell_of(bits[n - 1], 8));
    }
}

/// Signing leaves every byte that neither the map nor the X trailer names
/// as it was, and keeps the image's length.
pub proof fn lemma_sign_untouched(rom: Seq<u8>, bits: Seq<u32>, y: u32, x: u32, k: int)
    requires
        valid_y_bits(bits),
        rom.len() >= 4096,
        0 <= k < rom.len(),
        !signed_byte(bits, k),
    ensures
        signed_image(rom, bits, y, x).len() == rom.len(),
        signed_image(rom, bits, y, x)[k] == rom[k],
{
    lemma_sign_prefix_untouched(rom, bits, y, bits.len(), k);
}

/// Setting bit `bb` of byte `j` of a big-endian word is setting bit
/// `8 * (3 - j) + bb` of the word.
proof fn lemma_byte_bit(b0: u8, b1: u8, b2: u8, b3: u8, bb: u32, v: u8)
    requires
        bb < 8,
        v <= 1,
    ensures
        with_bit(be4(b0, b1, b2, b3), (24 + bb) as u32, v as u32) == be4(with_bit_u8(b0, bb, v), b1, b2, b3),
        with_bit(be4(b0, b1, b2, b3), (16 + bb) as u32, v as u32) == be4(b0, with_bit_u8(b1, bb, v), b2, b3),
        with_bit(be4(b0, b1, b2, b3), (8 + bb) as u32, v as u32) == be4(b0, b1, with_bit_u8(b2, bb, v), b3),
        with_bit(be4(b0, b1, b2, b3), bb, v as u32) == be4(b0, b1, b2, with_bit_u8(b3, bb, v)),
{
    assert(with_bit(be4(b0, b1, b2, b3), (24 + bb) as u32, v as u32) == be4(with_bit_u8(b0, bb, v), b1, b2, b3))
        by (bit_vector)
        requires
            bb < 8,
            v <= 1,
    ;
    assert(with_bit(be4(b0, b1, b2, b3), (16 + bb) as u32, v as u32) == be4(b0, with_bit_u8(b1, bb, v), b2, b3))
        by (bit_vector)
        requires
            bb < 8,
            v <= 1,
    ;
    assert(with_bit(be4(b0, b1, b2, b3), (8 + bb) as u32, v as u32) == be4(b0, b1, with_bit_u8(b2, bb, v), b3))
        by (bit_vector)
        requires
            bb < 8,
            v <= 1,
    ;
    assert(with_bit(be4(b0, b1, b2, b3), bb, v as u32) == be4(b0, b1, b2, with_bit_u8(b3, bb, v)))
        by (bit_vector)
        requires
            bb < 8,
            v <= 1,
    ;
}

/// Four bytes as a big-endian word.
spec fn be4(b0: u8, b1: u8, b2: u8, b3: u8) -> u32 {
    (b0 as nat * 0x100_0000 + b1 as nat * 0x1_0000 + b2 as nat * 0x100 + b3 as nat) as u32
}

/// The payload words of an image.
spec fn image_words(rom: Seq<u8>) -> Seq<u32> {
    words_of(rom.subrange(64, 4096))
}

proof fn lemma_sign_prefix_words(rom: Seq<u8>, bits: Seq<u32>, y: u32, n: nat)
    requires
        valid_y_bits(bits),
        rom.len() >= 4096,
        n <= bits.len(),
    ensures
        sign_prefix(rom, bits, y, n).len() == rom.len(),
        image_words(sign_prefix(rom, bits, y, n)) == apply_y_prefix(image_words(rom), bits, y, n),
    decreases n,
{
    if n > 0 {
        let m = (n - 1) as nat;
        lemma_sign_prefix_words(rom, bits, y, m);
        let r = sign_prefix(rom, bits, y, m);
        let w = apply_y_prefix(image_words(rom), bits, y, m);
        let off = bits[m as int];
        let k = cell_of(off, 32);
        let j = (off % 32) / 8;
        let bb = bit_in_cell(off, 8);
        let v = y_bit(y, bits.len(), m as int);
        let sh = (bits.len() - 1 - m) as u32;
        assert(v <= 1) by (bit_vector)
            requires
                v == (y >> sh) & 1,
        ;
        let idx = 64 + cell_of(off, 8);
        assert(idx == 64 + 4 * k + j);
        assert(bit_in_cell(off, 32) == 8 * (3 - j) + bb);
        let r2 = sign_prefix(rom, bits, y, n);
        assert(r2 == r.update(idx, with_bit_u8(r[idx], bb, v as u8)));
        let s = r.subrange(64, 4096);
        let s2 = r2.subrange(64, 4096);
        lemma_byte_bit(s[4 * k], s[4 * k + 1], s[4 * k + 2], s[4 * k + 3], bb, v as u8);
        assert(image_words(r2) =~= w.update(k, with_bit(w[k], bit_in_cell(off, 32), v))) by {
            assert forall|q: int| 0 <= q < 1008 implies #[trigger] image_words(r2)[q] == w.update(
                k,
                with_bit(w[k], bit_in_cell(off, 32), v),
            )[q] by {
                if q != k {
                    assert(s2[4 * q] == s[4 * q]);
                    assert(s2[4 * q + 1] == s[4 * q + 1]);
                    assert(s2[4 * q + 2] == s[4 * q + 2]);
                    assert(s2[4 * q + 3] == s[4 * q + 3]);
                }
            }
        }
    }
}

/// Signing writes the pair that `verify` checks: the payload words of the
/// signed image are those of the image with `y` substituted and `x` as the
/// last word.
pub proof fn lemma_signed_payload(rom: Seq<u8>, bits: Seq<u32>, y: u32, x: u32)
    requires
        valid_y_bits(bits),
        rom.len() >= 4096,
    ensures
        words_of(signed_image(rom, bits, y, x).subrange(64, 4096)) == apply_y(
            words_of(rom.subrange(64, 4096)),
            bits,
            y,
        ).update(1007, x),
{
    lemma_sign_prefix_words(rom, bits, y, bits.len());
    let r = sign_prefix(rom, bits, y, bits.len());
    let w = apply_y(image_words(rom), bits, y);
    let t = signed_image(rom, bits, y, x);
    let s = r.subrange(64, 4096);
    let s2 = t.subrange(64, 4096);
    assert(be4((x >> 24) as u8, (x >> 16) as u8, (x >> 8) as u8, x as u8) == x) by (bit_vector);
    assert(image_words(t) =~= w.update(1007, x)) by {
        assert forall|q: int| 0 <= q < 1008 implies #[trigger] image_words(t)[q] == w.update(
            1007,
            x,
        )[q] by {
            if q != 1007 {
                assert(s2[4 * q] == s[4 * q]);
                assert(s2[4 * q + 1] == s[4 * q + 1]);
                assert(s2[4 * q + 2] == s[4 * q + 2]);
                assert(s2[4 * q + 3] == s[4 * q + 3]);
            }
        }
    }
}

impl Hasher {
    pub closed spec fn engine(&self) -> CPUHasher {
        self.cpu
    }

    pub closed spec fn groups(&self) -> (u32, u32, u32) {
        self.workgroups
    }

    pub closed spec fn target(&self) -> u64 {
        self.target_checksum
    }

    pub closed spec fn bits(&self) -> Seq<u32> {
        self.y_bits@
    }

    /// The Y value that the next round searches.
    pub closed spec fn next_y(&self) -> u64 {
        self.y
    }

    pub closed spec fn wf(&self) -> bool {
        valid_y_bits(self.y_bits@)
    }

    /// Whether every Y value that the map can carry has been searched.
    pub open spec fn finished(&self) -> bool {
        self.next_y() >= y_limit(self.bits().len())
    }

    /// Sets up a search over `ipl3` from `y_init`.
    pub fn new(
        ipl3: &[u8; 4032],
        workgroups: (u32, u32, u32),
        seed: u8,
        target_checksum: u64,
        y_bits: Vec<u32>,
        y_init: u32,
    ) -> (r: Self)
        requires
            valid_y_bits(y_bits@),
        ensures
            r.wf(),
            r.engine().payload() == words_of(ipl3@),
            r.engine().start_state() == initial_state(seed, be_word(ipl3@, 0)),
            r.groups() == workgroups,
            r.target() == target_checksum,
            r.bits() == y_bits@,
            r.next_y() == y_init,
    {
        let cpu = CPUHasher::new(ipl3, seed);
        Self { cpu, workgroups, target_checksum, y_bits, y: y_init as u64 }
    }

    /// The Y value that the next round searches.
    pub fn get_y(&self) -> (r: u32)
        ensures
            r == self.next_y() as u32,
    {
        self.y as u32
    }

    fn is_y_finished(&self) -> (r: bool)
        requires
            self.wf(),
        ensures
            r == self.finished(),
    {
        self.y >= (1u64 << self.y_bits.len() as u64)
    }

    fn bits_copy(&self) -> (r: Vec<u32>)
        ensures
            r@ == self.y_bits@,
    {
        let r = self.y_bits.clone();
        assert(r@ =~= self.y_bits@);
        r
    }

    /// Starts the round for the next Y value: nothing once every Y value has
    /// been searched (then no batch is dispatched), else the hand-off that
    /// each batch of the round takes, for that Y.
    pub fn start_round(&self) -> (r: Option<(u32, [u32; 16])>)
        requires
            self.wf(),
        ensures
            r is None <==> self.finished(),
            r matches Some(h) ==> h.0 == self.engine().y_round_spec(
                self.bits(),
                self.next_y() as u32,
            ).0 && h.1@ == self.engine().y_round_spec(self.bits(), self.next_y() as u32).1,
    {
        if self.is_y_finished() {
            return None;
        }
        Some(self.cpu.y_round(self.bits_copy(), self.y as u32))
    }

    /// Takes the record of the batch dispatched from `x_offset` for the
    /// current Y. A reported X is checked on the CPU and returned only if its
    /// checksum is the target; otherwise the search fails. Without a hit the
    /// next batch follows, or, after the last X value, the cursor moves to
    /// the next Y.
    pub fn compute_round(&mut self, x_offset: u32, output: &GPUHasherOutput) -> (r: Result<
        RoundStep,
        HasherError,
    >)
        requires
            old(self).wf(),
            !old(self).finished(),
        ensures
            final(self).wf(),
            final(self).engine() == old(self).engine(),
            final(self).groups() == old(self).groups(),
            final(self).target() == old(self).target(),
            final(self).bits() == old(self).bits(),
            ({
                let y = old(self).next_y() as u32;
                let checked = |x: u32| old(self).engine().verify_spec(old(self).bits(), y, x);
                match x_round_outcome(result_of(*output), x_offset, old(self).groups()) {
                    GPUHasherResult::Found(x) => {
                        &&& final(self).next_y() == old(self).next_y()
                        &&& if checked(x) == old(self).target() {
                            r == Ok::<RoundStep, HasherError>(
                                RoundStep::Done(HasherResult::Found(y, x)),
                            )
                        } else {
                            r == Err::<RoundStep, HasherError>(
                                HasherError::ChecksumVerifyError(y, x, checked(x)),
                            )
                        }
                    },
                    GPUHasherResult::Continue(step) => {
                        &&& final(self).next_y() == old(self).next_y()
                        &&& r == Ok::<RoundStep, HasherError>(
                            RoundStep::Dispatch((x_offset + step) as u32),
                        )
                    },
                    GPUHasherResult::End => {
                        &&& final(self).next_y() == old(self).next_y() + 1
                        &&& r == Ok::<RoundStep, HasherError>(
                            RoundStep::Done(HasherResult::Continue),
                        )
                    },
                }
            }),
            r matches Ok(RoundStep::Done(HasherResult::Found(y, x))) ==> y == old(self).next_y()
                && old(self).engine().verify_spec(old(self).bits(), y, x) == old(self).target(),
    {
        proof {
            lemma_y_limit(self.y_bits@.len());
        }
        match x_round_result(output, x_offset, self.workgroups) {
            GPUHasherResult::Found(x) => {
                let y = self.y as u32;
                let verify_checksum = self.cpu.verify(self.bits_copy(), y, x);
                if verify_checksum != self.target_checksum {
                    return Err(HasherError::ChecksumVerifyError(y, x, verify_checksum));
                }
                Ok(RoundStep::Done(HasherResult::Found(y, x)))
            },
            GPUHasherResult::Continue(x_step) => Ok(RoundStep::Dispatch(x_offset + x_step)),
            GPUHasherResult::End => {
                self.y = self.y + 1;
                Ok(RoundStep::Done(HasherResult::Continue))
            },
        }
    }
    /// Writes a confirmed (Y, X) into an image: the map's bits of the
    /// payload (from byte 64) and X big-endian at byte 4092.
    pub fn sign_rom(rom: &mut Vec<u8>, y_bits: Vec<u32>, y: u32, x: u32)
        requires
            old(rom)@.len() >= 4096,
            valid_y_bits(y_bits@),
        ensures
            final(rom)@ == signed_image(old(rom)@, y_bits@, y, x),
    {
        let len = y_bits.len();
        let mut i: usize = 0;
        while i < len
            invariant
                len == y_bits@.len(),
                i <= len,
                valid_y_bits(y_bits@),
                rom@ == sign_prefix(old(rom)@, y_bits@, y, i as nat),
                rom@.len() == old(rom)@.len(),
                rom@.len() >= 4096,
            decreases len - i,
        {
            let offset = y_bits[i];
            let index = (offset / 8) as usize + PAYLOAD_OFFSET;
            let bit = 7 - (offset % 8);
            let shift = len - 1;
            let value = ((y >> ((shift - i) as u32)) & 1) as u8;
            let byte = (rom[index] & !(1u8 << bit)) | (value << bit);
            rom.set(index, byte);
            i = i + 1;
        }
        rom.set(X_TRAILER_OFFSET, (x >> 24) as u8);
        rom.set(X_TRAILER_OFFSET + 1, (x >> 16) as u8);
        rom.set(X_TRAILER_OFFSET + 2, (x >> 8) as u8);
        rom.set(X_TRAILER_OFFSET + 3, x as u8);
    }
}

} // verus!
