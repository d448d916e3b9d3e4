//! The side of the GPU search that is plain data and decisions: the
//! per-dispatch parameter block, the result record, the batch-advance
//! decision, and a sequential search of a batch that computes what each
//! GPU thread computes.
use vstd::prelude::*;

use crate::cpu::CPUHasher;
use crate::kernel::{candidate_checksum, finish_candidate, lemma_word_fields, step_main};

verus! {

/// Threads in one workgroup of the search program.
pub const LOCAL_WORKGROUP_SIZE: u32 = 256;

/// Which build of the search program to load.
#[derive(PartialEq, Eq, Structural, Clone, Copy, Debug)]
pub enum GPUHasherShader {
    Wgsl,
    Glsl,
}

/// What one batch of the search tells the caller.
#[derive(PartialEq, Eq, Structural, Clone, Copy, Debug)]
pub enum GPUHasherResult {
    /// A candidate X that met the target.
    Found(u32),
    /// No hit; the next batch starts this many candidates further on.
    Continue(u32),
    /// No hit, and the batch reached the last X value.
    End,
}

/// The parameter block handed to each dispatch.
#[derive(Clone, Copy, Debug)]
pub struct GPUHasherInput {
    pub target_hi: u32,
    pub target_lo: u32,
    pub y_offset: u32,
    pub x_offset: u32,
    pub state: [u32; 16],
}

/// The upper 16 bits of a 48-bit checksum.
pub open spec fn checksum_hi(c: u64) -> u32 {
    ((c as nat / 0x1_0000_0000) % 0x1_0000) as u32
}

/// The lower 32 bits of a checksum.
pub open spec fn checksum_lo(c: u64) -> u32 {
    (c as nat % 0x1_0000_0000) as u32
}

/// The checksum that a parameter block asks for.
pub open spec fn target_of(input: GPUHasherInput) -> u64 {
    (input.target_hi as nat * 0x1_0000_0000 + input.target_lo as nat) as u64
}

impl GPUHasherInput {
    /// Splits the target into its high 16 and low 32 bits beside the search
    /// parameters.
    pub fn new(target_checksum: u64, y_offset: u32, x_offset: u32, state: [u32; 16]) -> (r: Self)
        ensures
            r.target_hi == checksum_hi(target_checksum),
            r.target_lo == checksum_lo(target_checksum),
            r.y_offset == y_offset,
            r.x_offset == x_offset,
            r.state == state,
    {
        proof {
            assert((target_checksum >> 32) & 0xFFFF == (target_checksum / 0x1_0000_0000)
                % 0x1_0000) by (bit_vector);
            assert(target_checksum & 0xFFFFFFFF == target_checksum % 0x1_0000_0000) by (
            bit_vector);
        }
        Self {
            target_hi: ((target_checksum >> 32) & 0xFFFF) as u32,
            target_lo: (target_checksum & 0xFFFFFFFF) as u32,
            y_offset,
            x_offset,
            state,
        }
    }

    /// The block as the 20 words that the search program reads, in field order.
    pub fn to_words(&self) -> (r: [u32; 20])
        ensures
            r@ == seq![self.target_hi, self.target_lo, self.y_offset, self.x_offset]
                + self.state@,
    {
        let s = &self.state;
        let r: [u32; 20] = [
            self.target_hi, self.target_lo, self.y_offset, self.x_offset,
            s[0], s[1], s[2], s[3], s[4], s[5], s[6], s[7],
            s[8], s[9], s[10], s[11], s[12], s[13], s[14], s[15],
        ];
        assert(r@ =~= seq![self.target_hi, self.target_lo, self.y_offset, self.x_offset]
            + self.state@);
        r
    }
}

/// The record that a dispatch leaves behind: a found flag and the X value
/// that set it.
#[derive(Clone, Copy, Debug)]
pub struct GPUHasherOutput {
    pub found: i32,
    pub x_result: u32,
}

/// The X value of a record whose flag is set.
pub open spec fn result_of(o: GPUHasherOutput) -> Option<u32> {
    if o.found != 0 {
        Some(o.x_result)
    } else {
        None
    }
}

impl GPUHasherOutput {
    /// The X value where the flag is set, else nothing.
    pub fn get_result(&self) -> (r: Option<u32>)
        ensures
            r == result_of(*self),
    {
        if self.found != 0 {
            Some(self.x_result)
        } else {
            None
        }
    }
}

/// Candidates in one batch: the threads of all workgroups.
pub open spec fn batch_size(workgroups: (u32, u32, u32)) -> int {
    workgroups.0 as int * workgroups.1 as int * workgroups.2 as int * LOCAL_WORKGROUP_SIZE as int
}

/// The outcome of the batch that started at `x_offset`: its hit where there
/// is one; else the batch size where the next batch still starts at an X
/// value, and the end of the search where it would not.
pub open spec fn x_round_outcome(
    found: Option<u32>,
    x_offset: u32,
    workgroups: (u32, u32, u32),
) -> GPUHasherResult {
    match found {
        Some(x) => GPUHasherResult::Found(x),
        None => if x_offset + batch_size(workgroups) > u32::MAX {
            GPUHasherResult::End
        } else {
            GPUHasherResult::Continue(batch_size(workgroups) as u32)
        },
    }
}

/// Decides what a finished batch means for the search.
pub fn x_round_result(
    output: &GPUHasherOutput,
    x_offset: u32,
    workgroups: (u32, u32, u32),
) -> (r: GPUHasherResult)
    ensures
        r == x_round_outcome(result_of(*output), x_offset, workgroups),
{
    match output.get_result() {
        Some(x) => GPUHasherResult::Found(x),
        None => {
            let (wx, wy, wz) = workgroups;
            assert(wx as u128 * wy as u128 <= 0xFFFF_FFFE_0000_0001u128) by (nonlinear_arith)
                requires
                    wx <= 0xFFFF_FFFF,
                    wy <= 0xFFFF_FFFF,
            ;
            let wxy = wx as u128 * wy as u128;
            assert(wxy * wz as u128 <= 0xFFFF_FFFF_0000_0000_0000_0000u128) by (nonlinear_arith)
                requires
                    wxy <= 0xFFFF_FFFE_0000_0001u128,
                    wz <= 0xFFFF_FFFF,
            ;
            let wxyz = wxy * wz as u128;
            assert(wxyz * 256 < 0x100_0000_0000_0000_0000_0000_0000u128);
            let x_step = wxyz * LOCAL_WORKGROUP_SIZE as u128;
            assert(x_step == batch_size(workgroups)) by (nonlinear_arith)
                requires
                    x_step == wxyz * 256,
                    wxyz == wxy * wz as u128,
                    wxy == wx as u128 * wy as u128,
                    (wx, wy, wz) == workgroups,
            ;
            if x_offset as u128 + x_step > u32::MAX as u128 {
                GPUHasherResult::End
            } else {
                GPUHasherResult::Continue(x_step as u32)
            }
        },
    }
}

/// What one search thread computes: the checksum of candidate `x`, from the
/// hand-off state and word 1006 (`data`).
pub fn candidate_checksum_of(data: u32, state: &[u32; 16], x: u32) -> (r: u64)
    ensures
        r == candidate_checksum(data, state@, x),
{
    proof {
        lemma_word_fields(data);
        lemma_word_fields(x);
    }
    let mut t = *state;
    t[10] = CPUHasher::sum(t[10], x, 1007);
    t[11] = CPUHasher::sum(t[11], x, 1007);
    t[13] = CPUHasher::add(t[13], CPUHasher::ror(x, x & 0x1F));
    t[14] = CPUHasher::sum(t[14], CPUHasher::ror(x, data & 0x1F), 1007);
    t[15] = CPUHasher::sum(t[15], CPUHasher::rol(x, data >> 27), 1007);
    let ghost before = t@;
    CPUHasher::round_main(&mut t, data, x, 1008);
    assert(t@ =~= finish_candidate(state@, data, x)) by {
        assert(t@ == step_main(before, data, x, 1008u32));
    }
    CPUHasher::finalize(&t)
}

/// Whether candidate `x` meets the target of a parameter block.
pub open spec fn is_hit(input: GPUHasherInput, x: u32) -> bool {
    candidate_checksum(input.y_offset, input.state@, x) == target_of(input)
}

/// Searches the batch of `count` candidates from `input.x_offset` (those up
/// to the last X value) one after another, as the threads of one dispatch
/// would, with `input.y_offset` as word 1006; reports the first hit.
pub fn search_batch(input: &GPUHasherInput, count: u64) -> (r: GPUHasherOutput)
    ensures
        r.found == 0 || r.found == 1,
        r.found == 1 ==> {
            &&& input.x_offset <= r.x_result
            &&& r.x_result < input.x_offset + count
            &&& is_hit(*input, r.x_result)
            &&& forall|x: u32| input.x_offset <= x < r.x_result ==> !is_hit(*input, x)
        },
        r.found == 0 ==> forall|x: u32|
            input.x_offset <= x < input.x_offset + count ==> !is_hit(*input, x),
{
    let target = ((input.target_hi as u64) << 32) | (input.target_lo as u64);
    proof {
        let hi = input.target_hi;
        let lo = input.target_lo;
        assert(((hi as u64) << 32) | (lo as u64) == hi as u64 * 0x1_0000_0000u64 + lo as u64)
            by (bit_vector)
            requires
                hi <= 0xFFFF_FFFF,
        ;
    }
    let end: u64 = if count > 0x1_0000_0000u64 - input.x_offset as u64 {
        0x1_0000_0000u64
    } else {
        input.x_offset as u64 + count
    };
    let mut x: u64 = input.x_offset as u64;
    while x < end
        invariant
            input.x_offset <= x <= end,
            end <= 0x1_0000_0000,
            end <= input.x_offset + count,
            input.x_offset + count > 0x1_0000_0000 ==> end == 0x1_0000_0000,
            target == target_of(*input),
            forall|c: u32| input.x_offset <= c < x ==> !is_hit(*input, c),
        decreases end - x,
    {
        if candidate_checksum_of(input.y_offset, &input.state, x as u32) == target {
            return GPUHasherOutput { found: 1, x_result: x as u32 };
        }
        x = x + 1;
    }
    GPUHasherOutput { found: 0, x_result: 0 }
}

} // verus!
