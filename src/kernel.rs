//! Mathematical model of the boot-code checksum: the 16-word running state,
//! one round of the state update, the run over a whole payload, and the
//! finishing reduction to a 48-bit checksum.
use vstd::prelude::*;

verus! {

/// Multiplier used to derive the initial state from the seed.
pub const MAGIC: u32 = 0x6C078965;

/// The rotation amounts and masks that the kernel takes from a word fit
/// their widths.
pub proof fn lemma_word_fields(x: u32)
    by (bit_vector)
    ensures
        x & 0x1F < 32,
        x >> 27 < 32,
        x & 0xFFFF <= 0xFFFF,
{
}

pub open spec fn wadd(a: u32, b: u32) -> u32 {
    vstd::wrapping::u32_specs::wrapping_add(a, b)
}

pub open spec fn wsub(a: u32, b: u32) -> u32 {
    vstd::wrapping::u32_specs::wrapping_sub(a, b)
}

pub open spec fn wmul(a: u32, b: u32) -> u32 {
    vstd::wrapping::u32_specs::wrapping_mul(a, b)
}

/// `a` rotated right by `s` bits.
pub open spec fn rotr(a: u32, s: u32) -> u32 {
    if s % 32 == 0 {
        a
    } else {
        (a >> (s % 32)) | (a << ((32 - s % 32) as u32))
    }
}

/// `a` rotated left by `s` bits.
pub open spec fn rotl(a: u32, s: u32) -> u32 {
    if s % 32 == 0 {
        a
    } else {
        (a << (s % 32)) | (a >> ((32 - s % 32) as u32))
    }
}

/// The 64-to-32-bit reduction: the full product of `a0` and the multiplier
/// (`a1`, or `a2` where `a1` is zero), its high half minus its low half,
/// wrapping, and `a0` itself where that difference is zero.
pub open spec fn combine(a0: u32, a1: u32, a2: u32) -> u32 {
    let m: u32 = if a1 == 0 { a2 } else { a1 };
    let prod: nat = a0 as nat * m as nat;
    let diff = wsub((prod / 0x1_0000_0000) as u32, (prod % 0x1_0000_0000) as u32);
    if diff == 0 { a0 } else { diff }
}

/// The update of state words 0 to 9 for the word `data` at 1-based index `i`,
/// `prev` being the word before it. Word 6 reads the already updated words 3
/// and 4; both branches compare with values from before the round.
pub open spec fn step_main(st: Seq<u32>, prev: u32, data: u32, i: u32) -> Seq<u32> {
    let s0 = wadd(st[0], combine(wsub(1007, i), data, i));
    let s1 = combine(st[1], data, i);
    let s2 = st[2] ^ data;
    let s3 = wadd(st[3], combine(wadd(data, 5), MAGIC, i));
    let s4 = wadd(st[4], rotr(data, prev & 0x1F));
    let s5 = wadd(st[5], rotl(data, prev >> 27));
    let s6 = if data < st[6] {
        wadd(s3, st[6]) ^ wadd(data, i)
    } else {
        wadd(s4, data) ^ st[6]
    };
    let s7 = combine(st[7], rotl(data, prev & 0x1F), i);
    let s8 = combine(st[8], rotr(data, prev >> 27), i);
    let s9 = if prev < data {
        combine(st[9], data, i)
    } else {
        wadd(st[9], data)
    };
    seq![s0, s1, s2, s3, s4, s5, s6, s7, s8, s9, st[10], st[11], st[12], st[13], st[14], st[15]]
}

/// The update of state words 10 to 15, which reads the word `next` after
/// `data`; it follows `step_main` within a round.
pub open spec fn step_next(st: Seq<u32>, prev: u32, data: u32, next: u32, i: u32) -> Seq<u32> {
    let s10 = combine(wadd(st[10], data), next, i);
    let s11 = combine(st[11] ^ data, next, i);
    let s12 = wadd(st[12], st[8] ^ data);
    let s13 = wadd(st[13], wadd(rotr(data, data & 0x1F), rotr(next, next & 0x1F)));
    let s14 = combine(combine(st[14], rotr(data, prev & 0x1F), i), rotr(next, data & 0x1F), i);
    let s15 = combine(combine(st[15], rotl(data, prev >> 27), i), rotl(next, data >> 27), i);
    seq![st[0], st[1], st[2], st[3], st[4], st[5], st[6], st[7], st[8], st[9], s10, s11, s12, s13, s14, s15]
}

/// Index of the word before the current one: the word two places back,
/// or the first word at the start.
pub open spec fn prev_index(i: int) -> int {
    if i >= 2 { i - 2 } else { 0 }
}

/// One round, for the word at 1-based index `i` of `w`, in a run that stops
/// at index `end`: the last round has no word after it and skips `step_next`.
pub open spec fn round(w: Seq<u32>, st: Seq<u32>, i: int, end: int) -> Seq<u32> {
    let prev = w[prev_index(i)];
    let data = w[i - 1];
    let m = step_main(st, prev, data, i as u32);
    if i == end { m } else { step_next(m, prev, data, w[i], i as u32) }
}

/// The state after rounds `1..=n` of a run over `w` that stops at `end`.
pub open spec fn run(w: Seq<u32>, st: Seq<u32>, end: int, n: nat) -> Seq<u32>
    decreases n,
{
    if n == 0 {
        st
    } else {
        round(w, run(w, st, end, (n - 1) as nat), n as int, end)
    }
}

/// The state that a seed and a payload start from: every word the same.
pub open spec fn initial_word(seed: u8, first: u32) -> u32 {
    wadd(wmul(MAGIC, seed as u32), 1) ^ first
}

pub open spec fn initial_state(seed: u8, first: u32) -> Seq<u32> {
    Seq::new(16, |k: int| initial_word(seed, first))
}

/// One step of the finishing reduction, over state word `data` at index `i`.
pub open spec fn finish_step(buf: Seq<u32>, data: u32, i: u32) -> Seq<u32> {
    let b0 = wadd(buf[0], rotr(data, data & 0x1F));
    let b1 = if data < b0 {
        wadd(buf[1], data)
    } else {
        combine(buf[1], data, i)
    };
    let b2 = if ((data & 0x02) >> 1) == (data & 0x01) {
        wadd(buf[2], data)
    } else {
        combine(buf[2], data, i)
    };
    let b3 = if (data & 0x01) == 0x01 {
        buf[3] ^ data
    } else {
        combine(buf[3], data, i)
    };
    seq![b0, b1, b2, b3]
}

/// The four-word buffer after state words `0..n`.
pub open spec fn finish_buffer(st: Seq<u32>, n: nat) -> Seq<u32>
    decreases n,
{
    if n == 0 {
        seq![st[0], st[0], st[0], st[0]]
    } else {
        finish_step(finish_buffer(st, (n - 1) as nat), st[n - 1], (n - 1) as u32)
    }
}

/// The 48-bit checksum of a final state: 16 bits from combining the first
/// two buffer words, above 32 bits from the last two.
pub open spec fn checksum_of(st: Seq<u32>) -> u64 {
    let b = finish_buffer(st, 16);
    let hi = combine(b[0], b[1], 16) & 0xFFFF;
    let lo = b[3] ^ b[2];
    (hi as nat * 0x1_0000_0000 + lo as nat) as u64
}

/// The hand-off state after rounds `1..=1007` of a run that stops at 1007
/// (`st`), with the parts of the lookahead of round 1007 that do not read
/// the X word already folded in; `prev` and `data` are words 1005 and 1006.
pub open spec fn prefold(st: Seq<u32>, prev: u32, data: u32) -> Seq<u32> {
    seq![
        st[0], st[1], st[2], st[3], st[4], st[5], st[6], st[7], st[8], st[9],
        wadd(st[10], data),
        st[11] ^ data,
        wadd(st[12], st[8] ^ data),
        wadd(st[13], rotr(data, data & 0x1F)),
        combine(st[14], rotr(data, prev & 0x1F), 1007),
        combine(st[15], rotl(data, prev >> 27), 1007),
    ]
}

/// The hand-off for payload `w` from start state `st0`: word 1006 and the
/// prefolded state.
pub open spec fn handoff(w: Seq<u32>, st0: Seq<u32>) -> (u32, Seq<u32>) {
    (w[1006], prefold(run(w, st0, 1007, 1007), w[1005], w[1006]))
}

/// What a search thread finishes for candidate `x` from a hand-off state
/// `st` with word 1006 `data`: the rest of round 1007, then round 1008.
pub open spec fn finish_candidate(st: Seq<u32>, data: u32, x: u32) -> Seq<u32> {
    let t = seq![
        st[0], st[1], st[2], st[3], st[4], st[5], st[6], st[7], st[8], st[9],
        combine(st[10], x, 1007),
        combine(st[11], x, 1007),
        st[12],
        wadd(st[13], rotr(x, x & 0x1F)),
        combine(st[14], rotr(x, data & 0x1F), 1007),
        combine(st[15], rotl(x, data >> 27), 1007),
    ];
    step_main(t, data, x, 1008)
}

/// The checksum that a search thread computes for candidate `x`.
pub open spec fn candidate_checksum(data: u32, st: Seq<u32>, x: u32) -> u64 {
    checksum_of(finish_candidate(st, data, x))
}

/// The checksum of the whole payload `w` (X word included) from `st0`.
pub open spec fn full_checksum(w: Seq<u32>, st0: Seq<u32>) -> u64 {
    checksum_of(run(w, st0, 1008, 1008))
}

/// Wrapping addition is associative.
pub proof fn lemma_wadd_assoc(a: u32, b: u32, c: u32)
    ensures
        wadd(a, wadd(b, c)) == wadd(wadd(a, b), c),
{
}

/// Rounds `1..=n`, for `n` up to 1006, read no word past 1006, so a run that
/// stops at 1008 over the payload with another X word agrees with the run
/// that stops at 1007.
proof fn lemma_runs_agree(w: Seq<u32>, st0: Seq<u32>, x: u32, n: nat)
    requires
        w.len() == 1008,
        n <= 1006,
    ensures
        run(w.update(1007, x), st0, 1008, n) == run(w, st0, 1007, n),
    decreases n,
{
    if n > 0 {
        lemma_runs_agree(w, st0, x, (n - 1) as nat);
    }
}

/// The hand-off and a search thread's finishing step together compute the
/// full checksum: for every payload, start state and X word, the checksum
/// that the thread computes for `x` from `handoff(w, st0)` is the checksum
/// of `w` with `x` as its last word.
pub proof fn lemma_handoff_parity(w: Seq<u32>, st0: Seq<u32>, x: u32)
    requires
        w.len() == 1008,
        st0.len() == 16,
    ensures
        candidate_checksum(handoff(w, st0).0, handoff(w, st0).1, x) == full_checksum(
            w.update(1007, x),
            st0,
        ),
{
    let w2 = w.update(1007, x);
    let prev = w[1005];
    let data = w[1006];
    lemma_runs_agree(w, st0, x, 1006);
    let r = run(w, st0, 1007, 1006);
    assert(run(w, st0, 1007, 1007) == step_main(r, prev, data, 1007u32));
    let m = step_main(r, prev, data, 1007u32);
    assert(run(w2, st0, 1008, 1007) == step_next(m, prev, data, x, 1007u32));
    let full = step_next(m, prev, data, x, 1007u32);
    assert(run(w2, st0, 1008, 1008) == step_main(full, data, x, 1008u32));
    let pre = prefold(m, prev, data);
    lemma_wadd_assoc(m[13], rotr(data, data & 0x1F), rotr(x, x & 0x1F));
    let t = seq![
        pre[0], pre[1], pre[2], pre[3], pre[4], pre[5], pre[6], pre[7], pre[8], pre[9],
        combine(pre[10], x, 1007),
        combine(pre[11], x, 1007),
        pre[12],
        wadd(pre[13], rotr(x, x & 0x1F)),
        combine(pre[14], rotr(x, data & 0x1F), 1007),
        combine(pre[15], rotl(x, data >> 27), 1007),
    ];
    assert(t =~= full);
}

} // verus!
