use rand_crack::lcg::{crack_lcg, LCG};
use rand_crack::Error;

fn outputs(seed: u64, n: usize) -> Vec<u32> {
    let mut lcg = LCG::new(seed);
    let mut stream = vec![0; n];
    for item in &mut stream {
        *item = lcg.next_u32();
    }
    stream
}

#[test]
fn next_u32_emits_high_half_before_stepping() {
    assert_eq!(outputs(0, 3), vec![0, 0, 1481765933]);
    assert_eq!(
        outputs(0x1234_5678_0000_abcd, 4),
        vec![305419896, 2511046022, 2095919147, 245233062]
    );
}

#[test]
fn crack_lcg_concrete_seed() {
    let stream = outputs(0x0011_4514, 2);
    assert_eq!(stream, vec![0, 876175131]);
    let cand = crack_lcg(&stream).unwrap();
    assert!(cand.contains(&0x0011_4514));
}

#[test]
fn crack_lcg_rejects_short_streams() {
    assert!(matches!(crack_lcg(&[]), Err(Error::InsufficientStream)));
    assert!(matches!(crack_lcg(&[12345]), Err(Error::InsufficientStream)));
}

#[test]
fn crack_lcg_round_trip() {
    let seeds: [u64; 6] = [
        0,
        u64::MAX,
        0x1234_5678_0000_abcd,
        0x8000_0000_0000_ffff,
        0xdead_beef_cafe_f00d,
        0x0000_0001_ffff_0000,
    ];
    for &seed in &seeds {
        for n in [2usize, 3, 6] {
            let cand = crack_lcg(&outputs(seed, n)).unwrap();
            assert!(cand.contains(&seed), "seed {:#x} with {} outputs", seed, n);
        }
    }
}

#[test]
fn crack_lcg_candidates_replay_the_stream() {
    for &seed in &[0x0011_4514u64, 0x0123_4567_89ab_cdef, 42] {
        let stream = outputs(seed, 2);
        let cand = crack_lcg(&stream).unwrap();
        assert!(!cand.is_empty());
        for &s in &cand {
            assert_eq!(outputs(s, stream.len()), stream);
        }
    }
}

#[test]
fn crack_lcg_longer_stream_pins_the_seed() {
    let seed = 0xdead_beef_cafe_f00d;
    let cand = crack_lcg(&outputs(seed, 5)).unwrap();
    assert_eq!(cand, vec![seed]);
}

#[test]
fn crack_lcg_foreign_stream_gives_no_error() {
    let stream = [1u32, 2, 3, 4, 5, 6, 7, 8];
    let cand = crack_lcg(&stream).unwrap();
    for &s in &cand {
        assert_eq!(outputs(s, stream.len()), stream.to_vec());
    }
}

#[test]
fn crack_lcg_zero_big_component() {
    // The high 16 bits of each seed's low half are zero.
    for &seed in &[0x0000_0000_0000_0000u64, 0x8000_0000_0000_ffff, 0x7fff_ffff_0000_0001] {
        let cand = crack_lcg(&outputs(seed, 2)).unwrap();
        assert!(cand.contains(&seed), "seed {:#x}", seed);
    }
}
