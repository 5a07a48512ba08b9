use rand_core::RngCore;
use rand_crack::{
    crack_pcg32, recover_original_state, try_pcg32_guess, verify_original_state, Error,
    MULTIPLIER, MULTIPLIER_INV,
};
use rand_pcg::Pcg32;

#[test]
fn test_multiplier_inv() {
    assert_eq!(MULTIPLIER.wrapping_mul(MULTIPLIER_INV), 1);
}

#[test]
fn recover_original_state_works() {
    let state = recover_original_state(127, 14, 0x1553a);
    assert!(verify_original_state(127, 14, state));
    let state = recover_original_state(0x03a2_b112, 14, 0x1553a);
    assert!(verify_original_state(0x03a2_b112, 14, state));
}

#[test]
fn output_inversion_for_every_rotation() {
    for rot in 0..32u32 {
        for &lower in &[0u32, 1, 0x1553a, (1 << 27) - 1] {
            for &value in &[0u32, 127, 0x03a2_b112, u32::MAX, 0x8000_0001] {
                let state = recover_original_state(value, rot, lower);
                assert_eq!((state >> 59) as u32, rot);
                assert_eq!(state & ((1 << 27) - 1), lower as u64);
                assert!(verify_original_state(value, rot, state));
            }
        }
    }
}

#[test]
fn verify_original_state_rejects_mismatches() {
    let state = recover_original_state(127, 14, 0x1553a);
    assert!(!verify_original_state(128, 14, state));
    assert!(!verify_original_state(127, 15, state));
}

#[test]
fn crack_pcg32_rejects_short_streams() {
    assert!(matches!(crack_pcg32(&[1, 2]), Err(Error::InsufficientStream)));
    assert!(matches!(crack_pcg32(&[7]), Err(Error::InsufficientStream)));
    assert!(matches!(crack_pcg32(&[]), Err(Error::InsufficientStream)));
}

#[test]
fn pcg32_right_guess_recovers_the_seed() {
    let seed = 0xdead_beef_1234_5678u64;
    let mut rng = Pcg32::new(seed, 1);
    let stream = [rng.next_u32(), rng.next_u32(), rng.next_u32(), rng.next_u32()];
    assert_eq!(&stream[..3], &[3948654854, 2352441614, 103549412]);
    assert_eq!(try_pcg32_guess(&stream, 5, 61946018), Some(seed));
    assert_eq!(try_pcg32_guess(&stream, 5, 61946017), None);
    assert_eq!(try_pcg32_guess(&stream, 4, 61946018), None);
}

#[test]
fn pcg32_guess_from_zero_seed() {
    let mut rng = Pcg32::new(0, 1);
    let stream = [rng.next_u32(), rng.next_u32(), rng.next_u32()];
    assert_eq!(stream, [257813417, 407017181, 896943092]);
    let s0 = 3u64.wrapping_mul(MULTIPLIER).wrapping_add(3);
    let rot = (s0 >> 59) as u32;
    let lower = (s0 & ((1 << 27) - 1)) as u32;
    assert_eq!(try_pcg32_guess(&stream, rot, lower), Some(0));
}
