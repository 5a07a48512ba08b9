use rand_core::RngCore;
use rand_pcg::Pcg32;
use vstd::prelude::*;

use crate::lcg::{lemma_push_contains, lemma_wrapping};

pub mod error;
pub mod lcg;

pub use error::Error;

verus! {

/// The multiplier of PCG32's underlying linear recurrence.
pub const MULTIPLIER: u64 = 6_364_136_223_846_793_005;

/// The inverse of `MULTIPLIER` modulo 2^64.
pub const MULTIPLIER_INV: u64 = 13_877_824_140_714_322_085;

/// The increment assumed for the generators under attack; it is not recovered.
pub const INCREMENT: u64 = 3;

/// Rotates the 32-bit word `x` right by `r` places.
pub open spec fn rotr32(x: u32, r: u32) -> u32 {
    if r == 0 {
        x
    } else {
        ((x >> r) | (x << ((32 - r) as u32))) as u32
    }
}

/// Rotates the 32-bit word `x` left by `r` places.
pub open spec fn rotl32(x: u32, r: u32) -> u32 {
    if r == 0 {
        x
    } else {
        ((x << r) | (x >> ((32 - r) as u32))) as u32
    }
}

/// PCG32's output permutation (XSH RR) applied to the state `s`.
pub open spec fn pcg32_output(s: u64) -> u32 {
    rotr32((((s >> 18u64) ^ s) >> 27u64) as u32, (s >> 59u64) as u32)
}

/// One step of PCG32's linear recurrence with increment `inc`.
pub open spec fn pcg32_step(s: u64, inc: u64) -> u64 {
    (s * MULTIPLIER + inc) as u64
}

/// The increment that PCG32 derives from a stream selector.
pub open spec fn pcg32_increment(stream: u64) -> u64 {
    (stream << 1u64) | 1
}

/// The state from which a PCG32 created from `state` and `stream` emits its first output.
pub open spec fn pcg32_seeded(state: u64, stream: u64) -> u64 {
    pcg32_step(((state + pcg32_increment(stream)) as u64), pcg32_increment(stream))
}

/// The state that `recover_original_state` builds from an output, a rotation and low bits.
pub open spec fn pcg32_preimage(value: u32, rot: u32, lower: u32) -> u64 {
    let t = ((rot as u64) << 32u64) | (rotl32(value, rot) as u64);
    let u = t ^ (t >> 18u64);
    let w = u ^ (u >> 36u64);
    (w << 27u64) | (lower as u64)
}

/// The creation state that leads, with the assumed increment, to the output state `s0`.
pub open spec fn pcg32_unseeded(s0: u64) -> u64 {
    (((((s0 - INCREMENT) as u64) * MULTIPLIER_INV) as u64) - INCREMENT) as u64
}

/// Inverting the output permutation is exact: for every output word, every
/// rotation below 32 and every 27-bit low part, the rebuilt state carries that
/// rotation and low part and yields that output word again.
pub proof fn lemma_output_inversion(value: u32, rot: u32, lower: u32)
    requires
        rot < 32,
        lower < 0x800_0000,
    ensures
        (pcg32_preimage(value, rot, lower) >> 59u64) as u32 == rot,
        pcg32_preimage(value, rot, lower) & 0x7ff_ffff == lower as u64,
        pcg32_output(pcg32_preimage(value, rot, lower)) == value,
{
    assert(rot < 32 && lower < 0x800_0000 ==> (pcg32_preimage(value, rot, lower) >> 59u64) as u32
        == rot && pcg32_preimage(value, rot, lower) & 0x7ff_ffff == lower as u64 && pcg32_output(
        pcg32_preimage(value, rot, lower),
    ) == value) by (bit_vector);
}

/// A state is determined by its output, its rotation and its low 27 bits.
pub proof fn lemma_output_determines_state(s: u64)
    ensures
        pcg32_preimage(pcg32_output(s), (s >> 59u64) as u32, (s & 0x7ff_ffff) as u32) == s,
{
    assert(pcg32_preimage(pcg32_output(s), (s >> 59u64) as u32, (s & 0x7ff_ffff) as u32) == s)
        by (bit_vector);
}

/// Creating a generator with the assumed increment can be undone, and undone only one way.
pub proof fn lemma_seeding_inverse(state: u64, s0: u64)
    ensures
        pcg32_seeded(pcg32_unseeded(s0), INCREMENT >> 1u64) == s0,
        pcg32_unseeded(pcg32_seeded(state, INCREMENT >> 1u64)) == state,
{
    assert(pcg32_increment(INCREMENT >> 1u64) == 3) by (bit_vector);
    assert(((((((((s0 - 3) as u64) * MULTIPLIER_INV) as u64) - 3) as u64 + 3) as u64) * MULTIPLIER
        + 3) as u64 == s0) by (bit_vector);
    let s1 = ((((state + 3) as u64) * MULTIPLIER + 3) as u64);
    assert(((((((s1 - 3) as u64) * MULTIPLIER_INV) as u64) - 3) as u64) == state) by (bit_vector)
        requires
            s1 == ((((state + 3) as u64) * MULTIPLIER + 3) as u64),
    ;
}

/// The state `k` steps after `s0` with increment `inc`.
pub open spec fn pcg32_state_after(s0: u64, inc: u64, k: nat) -> u64
    decreases k,
{
    if k == 0 {
        s0
    } else {
        pcg32_step(pcg32_state_after(s0, inc, (k - 1) as nat), inc)
    }
}

/// The first `n` outputs of a PCG32 created from `state` and `stream`.
pub open spec fn pcg32_stream(state: u64, stream: u64, n: nat) -> Seq<u32> {
    Seq::new(
        n,
        |k: int|
            pcg32_output(
                pcg32_state_after(pcg32_seeded(state, stream), pcg32_increment(stream), k as nat),
            ),
    )
}

/// A PCG32 created from `state` and `stream` emits the first three words of `obs`.
pub open spec fn pcg32_matches_head(state: u64, stream: u64, obs: Seq<u32>) -> bool {
    &&& obs.len() >= 3
    &&& forall|k: int| 0 <= k < 3 ==> #[trigger] obs[k] == pcg32_stream(state, stream, 3)[k]
}

/// Relies on rand_pcg's `Pcg32::new(state, stream)` and `RngCore::next_u32`: creation
/// adds the increment `(stream << 1) | 1` to `state` and takes one step, and each call
/// emits the XSH RR permutation of the current state before taking one step.
#[verifier::external_body]
fn pcg32_first_outputs(state: u64, stream: u64) -> (r: (u32, u32, u32))
    ensures
        r.0 == pcg32_stream(state, stream, 3)[0],
        r.1 == pcg32_stream(state, stream, 3)[1],
        r.2 == pcg32_stream(state, stream, 3)[2],
{
    let mut rng = Pcg32::new(state, stream);
    let a = rng.next_u32();
    let b = rng.next_u32();
    let c = rng.next_u32();
    (a, b, c)
}

fn rotate_left32(x: u32, r: u32) -> (y: u32)
    requires
        r < 32,
    ensures
        y == rotl32(x, r),
{
    if r == 0 {
        x
    } else {
        (x << r) | (x >> (32 - r))
    }
}

fn rotate_right32(x: u32, r: u32) -> (y: u32)
    requires
        r < 32,
    ensures
        y == rotr32(x, r),
{
    if r == 0 {
        x
    } else {
        (x >> r) | (x << (32 - r))
    }
}

/// Rebuilds the state that emitted `value`, given its rotation `rot` and its low 27 bits `lower`.
pub fn recover_original_state(value: u32, rot: u32, lower: u32) -> (r: u64)
    requires
        rot < 32,
        lower < 0x800_0000,
    ensures
        r == pcg32_preimage(value, rot, lower),
        (r >> 59u64) as u32 == rot,
        r & 0x7ff_ffff == lower as u64,
        pcg32_output(r) == value,
{
    let xsh = rotate_left32(value, rot);
    let state: u64 = (rot as u64) << 32 | xsh as u64;
    let state = state ^ state >> 18;
    let state = state ^ state >> 36;
    let state = state << 27 | lower as u64;
    proof {
        lemma_output_inversion(value, rot, lower);
    }
    state
}

/// Whether `state` carries the rotation `rot` and emits `value`.
pub fn verify_original_state(value: u32, rot: u32, state: u64) -> (r: bool)
    ensures
        r == ((state >> 59u64) as u32 == rot && pcg32_output(state) == value),
{
    if (state >> 59) as u32 != rot {
        return false;
    }
    assert(((state >> 59u64) as u32) < 32) by (bit_vector);
    let xsh = (((state >> 18) ^ state) >> 27) as u32;
    rotate_right32(xsh, rot) == value
}

/// The creation state that one guess of rotation and low bits yields for `stream`.
pub open spec fn pcg32_guess(stream: Seq<u32>, rot: u32, lower: u32) -> u64 {
    pcg32_unseeded(pcg32_preimage(stream[0], rot, lower))
}

/// Tests one guess of the rotation `rot` and the low 27 bits `lower` of the state that
/// emitted `stream[0]`: the creation state it leads to, if that reproduces the first three words.
pub fn try_pcg32_guess(stream: &[u32], rot: u32, lower: u32) -> (r: Option<u64>)
    requires
        stream@.len() >= 3,
        rot < 32,
        lower < 0x800_0000,
    ensures
        r == (if pcg32_matches_head(pcg32_guess(stream@, rot, lower), INCREMENT >> 1u64, stream@) {
            Some(pcg32_guess(stream@, rot, lower))
        } else {
            None::<u64>
        }),
{
    let s0 = recover_original_state(stream[0], rot, lower);
    proof {
        lemma_wrapping(s0, INCREMENT);
        lemma_wrapping((s0 - INCREMENT) as u64, MULTIPLIER_INV);
        lemma_wrapping((((s0 - INCREMENT) as u64) * MULTIPLIER_INV) as u64, INCREMENT);
    }
    let state = s0.wrapping_sub(INCREMENT).wrapping_mul(MULTIPLIER_INV).wrapping_sub(INCREMENT);
    let out = pcg32_first_outputs(state, INCREMENT >> 1);
    let ok = out.0 == stream[0] && out.1 == stream[1] && out.2 == stream[2];
    proof {
        let obs = pcg32_stream(state, INCREMENT >> 1u64, 3);
        if ok {
            assert forall|k: int| 0 <= k < 3 implies #[trigger] stream@[k] == obs[k] by {
                if k == 0 {
                } else if k == 1 {
                } else {
                }
            }
        }
        if pcg32_matches_head(state, INCREMENT >> 1u64, stream@) {
            assert(stream@[0] == obs[0]);
            assert(stream@[1] == obs[1]);
            assert(stream@[2] == obs[2]);
        }
    }
    if ok {
        Some(state)
    } else {
        None
    }
}

/// Two values are not sufficient to guess the state of the rng.
/// To recover, we need at least three u32 outputs.
/// This function tries 2^32 possibilities (every rotation and every 27-bit low part),
/// so it's very slow. The increment is assumed to be `INCREMENT`; it is not recovered.
pub fn crack_pcg32(stream: &[u32]) -> (r: Result<Vec<(u64, u64)>, Error>)
    ensures
        stream@.len() < 3 <==> r is Err,
        r matches Err(e) ==> e == Error::InsufficientStream,
        r matches Ok(v) ==> forall|c: (u64, u64)| #[trigger]
            v@.contains(c) <==> c.1 == INCREMENT >> 1u64 && pcg32_matches_head(c.0, c.1, stream@),
{
    if stream.len() < 3 {
        return Err(Error::InsufficientStream);
    }
    let sel = INCREMENT >> 1;
    // candidates of initial states.
    let mut cand: Vec<(u64, u64)> = Vec::new();
    let mut rot: u32 = 0;
    while rot < 32
        invariant
            rot <= 32,
            stream@.len() >= 3,
            sel == INCREMENT >> 1u64,
            forall|c: (u64, u64)| #[trigger]
                cand@.contains(c) ==> c.1 == sel && pcg32_matches_head(c.0, c.1, stream@),
            forall|s: u64|
                pcg32_matches_head(s, sel, stream@) && ((pcg32_seeded(s, sel) >> 59u64) as u32)
                    < rot ==> #[trigger] cand@.contains((s, sel)),
        decreases 32 - rot,
    {
        let mut lower: u32 = 0;
        while lower < 0x800_0000
            invariant
                rot < 32,
                lower <= 0x800_0000,
                stream@.len() >= 3,
                sel == INCREMENT >> 1u64,
                forall|c: (u64, u64)| #[trigger]
                    cand@.contains(c) ==> c.1 == sel && pcg32_matches_head(c.0, c.1, stream@),
                forall|s: u64|
                    pcg32_matches_head(s, sel, stream@) && ((pcg32_seeded(s, sel) >> 59u64) as u32)
                        < rot ==> #[trigger] cand@.contains((s, sel)),
                forall|s: u64|
                    pcg32_matches_head(s, sel, stream@) && ((pcg32_seeded(s, sel) >> 59u64) as u32)
                        == rot && ((pcg32_seeded(s, sel) & 0x7ff_ffff) as u32) < lower
                        ==> #[trigger] cand@.contains((s, sel)),
            decreases 0x800_0000 - lower,
        {
            let guess = try_pcg32_guess(stream, rot, lower);
            let ghost prev = cand@;
            if let Some(state) = guess {
                cand.push((state, sel));
                proof {
                    lemma_push_contains(prev, (state, sel));
                }
            }
            proof {
                assert forall|s: u64|
                    pcg32_matches_head(s, sel, stream@) && ((pcg32_seeded(s, sel) >> 59u64) as u32)
                        == rot && ((pcg32_seeded(s, sel) & 0x7ff_ffff) as u32) < lower + 1
                        implies #[trigger] cand@.contains((s, sel)) by {
                    if ((pcg32_seeded(s, sel) & 0x7ff_ffff) as u32) == lower {
                        let s0 = pcg32_seeded(s, sel);
                        lemma_output_determines_state(s0);
                        assert(stream@[0] == pcg32_stream(s, sel, 3)[0]);
                        lemma_seeding_inverse(s, s0);
                        assert(pcg32_guess(stream@, rot, lower) == s);
                    }
                }
            }
            lower += 1;
        }
        proof {
            assert forall|s: u64|
                pcg32_matches_head(s, sel, stream@) && ((pcg32_seeded(s, sel) >> 59u64) as u32) < rot
                    + 1 implies #[trigger] cand@.contains((s, sel)) by {
                let s0 = pcg32_seeded(s, sel);
                assert(((s0 & 0x7ff_ffff) as u32) < 0x800_0000) by (bit_vector);
            }
        }
        rot += 1;
    }
    proof {
        assert forall|s: u64| pcg32_matches_head(s, sel, stream@) implies #[trigger] cand@.contains(
            (s, sel),
        ) by {
            let s0 = pcg32_seeded(s, sel);
            assert(((s0 >> 59u64) as u32) < 32) by (bit_vector);
        }
    }
    Ok(cand)
}

/// Cracking recovers the seed: a PCG32 created from any `seed` with the assumed
/// increment matches the head of its own output stream of length `n >= 3`, so
/// `(seed, INCREMENT >> 1)` is among the candidates that `crack_pcg32` returns for it.
pub proof fn lemma_pcg32_round_trip(seed: u64, n: nat)
    requires
        n >= 3,
    ensures
        pcg32_matches_head(seed, INCREMENT >> 1u64, pcg32_stream(seed, INCREMENT >> 1u64, n)),
{
}

} // verus!
