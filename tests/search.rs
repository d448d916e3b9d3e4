use ipl3hasher::cpu::CPUHasher;
use ipl3hasher::gpu::{
    candidate_checksum_of, search_batch, x_round_result, GPUHasherInput, GPUHasherOutput,
    GPUHasherResult,
};
use ipl3hasher::hasher::{Hasher, HasherError, HasherResult, RoundStep};
use ipl3hasher::payload::is_valid_y_bits;

fn pattern() -> [u8; 4032] {
    let mut b = [0u8; 4032];
    for k in 0..4032 {
        b[k] = ((k * 7 + 3) & 0xFF) as u8;
    }
    b
}

/// The map of a whole word of the image, most significant bit first.
fn word_bits(index: u32) -> Vec<u32> {
    (0..32).map(|i| (index - 16) * 32 + i).collect()
}

/// The two least significant bits of image word 1022.
fn two_bits() -> Vec<u32> {
    vec![1006 * 32 + 30, 1006 * 32 + 31]
}

#[test]
fn finalize_known_states() {
    let mut st = [0u32; 16];
    for k in 0..16 {
        st[k] = k as u32;
    }
    assert_eq!(CPUHasher::finalize(&st), 0x0072FFCA025F);
    assert_eq!(CPUHasher::finalize(&[0x96D0DEC4; 16]), 0x0D1273464AFD);
}

#[test]
fn verify_known_pairs() {
    let h = CPUHasher::new(&pattern(), 0x3F);
    assert_eq!(h.verify(word_bits(1022), 0, 0), 0xB758502E22B0);
    assert_eq!(h.verify(word_bits(1022), 0x12345678, 0xCAFEBABE), 0x2669DA75FD7C);
    assert_eq!(h.verify(vec![], 0, 0x272E353C), 0x25B12A317036);
}

#[test]
fn kernel_parity_on_samples() {
    let h = CPUHasher::new(&pattern(), 0x3F);
    let samples: [(u32, u32); 5] =
        [(0, 0), (1, 2), (0x12345678, 0xCAFEBABE), (0xFFFFFFFF, 0xFFFFFFFF), (0x80000000, 7)];
    for (y, x) in samples {
        let (data, state) = h.y_round(word_bits(1022), y);
        assert_eq!(candidate_checksum_of(data, &state, x), h.verify(word_bits(1022), y, x));
    }
    let (data, state) = h.y_round(two_bits(), 3);
    assert_eq!(candidate_checksum_of(data, &state, 99), h.verify(two_bits(), 3, 99));
}

#[test]
fn y_lands_in_mapped_word() {
    let h = CPUHasher::new(&pattern(), 0x3F);
    // Word 1006 of the payload is image word 1022, which the map fills whole.
    for y in [0u32, 1, 0xDEADBEEF, 0xFFFFFFFF] {
        assert_eq!(h.y_round(word_bits(1022), y).0, y);
    }
    // Word 1006 of the pattern is 0x0B121920; two low bits set to 0b10.
    assert_eq!(h.y_round(two_bits(), 2).0, 0x0B121922);
    assert_eq!(h.y_round(two_bits(), 1).0, 0x0B121921);
}

#[test]
fn input_block_splits_target() {
    let input = GPUHasherInput::new(0xA536C0F1D859, 7, 9, [3u32; 16]);
    assert_eq!(input.target_hi, 0xA536);
    assert_eq!(input.target_lo, 0xC0F1D859);
    let words = input.to_words();
    assert_eq!(&words[0..4], &[0xA536, 0xC0F1D859, 7, 9]);
    assert_eq!(&words[4..20], &[3u32; 16]);
}

#[test]
fn output_record_result() {
    assert_eq!(GPUHasherOutput { found: 0, x_result: 5 }.get_result(), None);
    assert_eq!(GPUHasherOutput { found: 1, x_result: 5 }.get_result(), Some(5));
}

#[test]
fn batch_exhaustion_boundaries() {
    let none = GPUHasherOutput { found: 0, x_result: 0 };
    let wg = (1u32, 1u32, 1u32);
    assert_eq!(x_round_result(&none, 0, wg), GPUHasherResult::Continue(256));
    assert_eq!(x_round_result(&none, 0xFFFFFE00, wg), GPUHasherResult::Continue(256));
    // The next batch would start at 2^32: the end, not an overflow.
    assert_eq!(x_round_result(&none, 0xFFFFFF00, wg), GPUHasherResult::End);
    assert_eq!(x_round_result(&none, 0xFFFFFFFF, wg), GPUHasherResult::End);
    // The default geometry covers every X value in one batch.
    assert_eq!(x_round_result(&none, 0, (256, 256, 256)), GPUHasherResult::End);
    assert_eq!(x_round_result(&none, 0, (0xFFFFFFFF, 0xFFFFFFFF, 0xFFFFFFFF)), GPUHasherResult::End);
    assert_eq!(x_round_result(&none, 0, (16, 16, 16)), GPUHasherResult::Continue(1 << 20));
    let hit = GPUHasherOutput { found: 1, x_result: 42 };
    assert_eq!(x_round_result(&hit, 0xFFFFFF00, wg), GPUHasherResult::Found(42));
}

#[test]
fn software_batch_finds_first_hit() {
    let h = CPUHasher::new(&pattern(), 0x3F);
    let (data, state) = h.y_round(word_bits(1022), 77);
    let target = h.verify(word_bits(1022), 77, 1000);
    let input = GPUHasherInput::new(target, data, 900, state);
    let out = search_batch(&input, 256);
    assert_eq!(out.found, 1);
    assert!(out.x_result >= 900 && out.x_result <= 1000);
    assert_eq!(h.verify(word_bits(1022), 77, out.x_result), target);
    let miss = search_batch(&GPUHasherInput::new(target, data, 0, state), 100);
    assert_eq!(miss.found, 0);
    // A batch that runs past the last X value stops there.
    let tail = search_batch(&GPUHasherInput::new(target, data, 0xFFFFFFF0, state), 1000);
    assert_eq!(tail.found, 0);
}

#[test]
fn search_finds_and_confirms_pair() {
    let bits = two_bits();
    let cpu = CPUHasher::new(&pattern(), 0x3F);
    let target = cpu.verify(bits.clone(), 2, 300);
    let mut hasher = Hasher::new(&pattern(), (1, 1, 1), 0x3F, target, bits.clone(), 2);
    assert_eq!(hasher.get_y(), 2);
    let (data, state) = hasher.start_round().unwrap();
    let mut x_offset = 0u32;
    let mut dispatches = 0;
    let result = loop {
        let input = GPUHasherInput::new(target, data, x_offset, state);
        let output = search_batch(&input, 256);
        dispatches += 1;
        match hasher.compute_round(x_offset, &output).unwrap() {
            RoundStep::Dispatch(next) => x_offset = next,
            RoundStep::Done(r) => break r,
        }
    };
    match result {
        HasherResult::Found(y, x) => {
            assert_eq!(y, 2);
            assert!(x <= 300);
            assert_eq!(cpu.verify(bits.clone(), y, x), target);
        }
        _ => panic!("no collision reported"),
    }
    assert!(dispatches <= 2);
}

#[test]
fn y_values_visited_in_order() {
    let mut hasher = Hasher::new(&pattern(), (1, 1, 1), 0x3F, 0, two_bits(), 1);
    let last_batch = GPUHasherOutput { found: 0, x_result: 0 };
    let mut seen = vec![];
    while let Some(_) = hasher.start_round() {
        seen.push(hasher.get_y());
        let step = hasher.compute_round(0xFFFFFF00, &last_batch).unwrap();
        assert_eq!(step, RoundStep::Done(HasherResult::Continue));
    }
    assert_eq!(seen, vec![1, 2, 3]);
}

#[test]
fn full_width_map_ends_after_last_y() {
    let mut hasher = Hasher::new(&pattern(), (1, 1, 1), 0x3F, 0, word_bits(1022), 0xFFFFFFFF);
    let last_batch = GPUHasherOutput { found: 0, x_result: 0 };
    assert!(hasher.start_round().is_some());
    assert_eq!(
        hasher.compute_round(0xFFFFFF00, &last_batch),
        Ok(RoundStep::Done(HasherResult::Continue))
    );
    assert!(hasher.start_round().is_none());
}

#[test]
fn empty_y_range_dispatches_nothing() {
    let hasher = Hasher::new(&pattern(), (1, 1, 1), 0x3F, 0, two_bits(), 4);
    assert!(hasher.start_round().is_none());
    let hasher = Hasher::new(&pattern(), (1, 1, 1), 0x3F, 0, two_bits(), 3);
    assert!(hasher.start_round().is_some());
}

#[test]
fn unconfirmed_hit_is_fatal() {
    let cpu = CPUHasher::new(&pattern(), 0x3F);
    let target = cpu.verify(two_bits(), 1, 300);
    let mut hasher = Hasher::new(&pattern(), (1, 1, 1), 0x3F, target, two_bits(), 1);
    let forged = GPUHasherOutput { found: 1, x_result: 301 };
    let wrong = cpu.verify(two_bits(), 1, 301);
    assert_ne!(wrong, target);
    assert_eq!(
        hasher.compute_round(0, &forged),
        Err(HasherError::ChecksumVerifyError(1, 301, wrong))
    );
    let honest = GPUHasherOutput { found: 1, x_result: 300 };
    assert_eq!(
        hasher.compute_round(0, &honest),
        Ok(RoundStep::Done(HasherResult::Found(1, 300)))
    );
}

#[test]
fn continue_advances_offset() {
    let mut hasher = Hasher::new(&pattern(), (2, 1, 1), 0x3F, 0, two_bits(), 0);
    let none = GPUHasherOutput { found: 0, x_result: 0 };
    assert_eq!(hasher.compute_round(1024, &none), Ok(RoundStep::Dispatch(1536)));
    assert_eq!(hasher.get_y(), 0);
}

#[test]
fn signing_writes_only_mapped_bits_and_trailer() {
    let mut rom: Vec<u8> = (0..4200u32).map(|k| (k % 251) as u8).collect();
    let before = rom.clone();
    // Image word 1022 holds bytes 4088..4092.
    Hasher::sign_rom(&mut rom, word_bits(1022), 0x01020304, 0xAABBCCDD);
    assert_eq!(&rom[4088..4092], &[1, 2, 3, 4]);
    assert_eq!(&rom[4092..4096], &[0xAA, 0xBB, 0xCC, 0xDD]);
    assert_eq!(&rom[..4088], &before[..4088]);
    assert_eq!(&rom[4096..], &before[4096..]);

    let mut rom2 = before.clone();
    Hasher::sign_rom(&mut rom2, two_bits(), 0b01, 0);
    let k = 64 + 1006 * 4 + 3;
    assert_eq!(rom2[k], (before[k] & 0xFC) | 0b01);
    for i in 0..4092 {
        if i != k {
            assert_eq!(rom2[i], before[i]);
        }
    }
    assert_eq!(&rom2[4092..4096], &[0, 0, 0, 0]);
}

#[test]
fn signed_image_reads_back_y() {
    let mut rom = vec![0x5Au8; 4096];
    let bits: Vec<u32> = vec![40, 41, 77, 300, 1000, 32000];
    let y = 0b101101;
    Hasher::sign_rom(&mut rom, bits.clone(), y, 0);
    let mut read = 0u32;
    for off in &bits {
        let byte = rom[64 + (*off / 8) as usize];
        read = (read << 1) | ((byte >> (7 - off % 8)) & 1) as u32;
    }
    assert_eq!(read, y);
}

#[test]
fn signed_image_verifies_like_the_pair() {
    let mut rom = vec![0u8; 4096];
    rom[64..4096].copy_from_slice(&pattern());
    let cpu = CPUHasher::new(&pattern(), 0x3F);
    let expected = cpu.verify(word_bits(1022), 0x0BADF00D, 0x600DCAFE);
    Hasher::sign_rom(&mut rom, word_bits(1022), 0x0BADF00D, 0x600DCAFE);
    let mut payload = [0u8; 4032];
    payload.copy_from_slice(&rom[64..4096]);
    let signed = CPUHasher::new(&payload, 0x3F);
    assert_eq!(signed.verify(vec![], 0, 0x600DCAFE), expected);
    assert_eq!(signed.y_round(vec![], 0).0, 0x0BADF00D);
}

#[test]
fn y_bit_map_validity() {
    assert!(is_valid_y_bits(&vec![]));
    assert!(is_valid_y_bits(&word_bits(1022)));
    assert!(is_valid_y_bits(&vec![32, 33, 32223]));
    assert!(!is_valid_y_bits(&vec![31]));
    assert!(!is_valid_y_bits(&vec![32224]));
    assert!(!is_valid_y_bits(&vec![40, 40]));
    assert!(!is_valid_y_bits(&vec![41, 40]));
    let too_many: Vec<u32> = (100..133).collect();
    assert!(!is_valid_y_bits(&too_many));
}
