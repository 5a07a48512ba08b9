use vstd::prelude::*;
use vstd::wrapping::u64_specs;

use crate::error::Error;

verus! {

pub const MULTIPLIER: u64 = 6_364_136_223_846_793_005;

pub const INCREMENT: u64 = 1;

pub const TWO_POW_32: u64 = 0x1_0000_0000;

/// One step of the recurrence `s' = s * MULTIPLIER + INCREMENT (mod 2^64)`.
pub open spec fn lcg_step(s: u64) -> u64 {
    (s * MULTIPLIER + INCREMENT) as u64
}

/// The state after `k` steps from `seed`.
pub open spec fn lcg_state_after(seed: u64, k: nat) -> u64
    decreases k,
{
    if k == 0 {
        seed
    } else {
        lcg_step(lcg_state_after(seed, (k - 1) as nat))
    }
}

/// The `k`-th output (from zero) of a generator started at `seed`.
pub open spec fn lcg_output_at(seed: u64, k: nat) -> u32 {
    (lcg_state_after(seed, k) >> 32u64) as u32
}

/// The first `n` outputs of a generator started at `seed`.
pub open spec fn lcg_stream(seed: u64, n: nat) -> Seq<u32> {
    Seq::new(n, |k: int| lcg_output_at(seed, k as nat))
}

/// Started at `seed`, the generator emits `stream` as its first outputs.
pub open spec fn lcg_reproduces(seed: u64, stream: Seq<u32>) -> bool {
    forall|k: nat| k < stream.len() ==> #[trigger] lcg_output_at(seed, k) == stream[k as int]
}

pub(crate) proof fn lemma_wrapping(a: u64, b: u64)
    ensures
        u64_specs::wrapping_mul(a, b) == (a * b) as u64,
        u64_specs::wrapping_add(a, b) == (a + b) as u64,
        u64_specs::wrapping_sub(a, b) == (a - b) as u64,
{
    assert(u64_specs::wrapping_mul(a, b) == (a * b) as u64) by (bit_vector);
    assert(u64_specs::wrapping_add(a, b) == (a + b) as u64) by (bit_vector);
    assert(u64_specs::wrapping_sub(a, b) == (a - b) as u64) by (bit_vector);
}

proof fn lemma_step_wrapping(s: u64)
    ensures
        u64_specs::wrapping_add(u64_specs::wrapping_mul(s, MULTIPLIER), INCREMENT) == lcg_step(s),
{
    assert(u64_specs::wrapping_add(u64_specs::wrapping_mul(s, MULTIPLIER), INCREMENT) == ((s
        * MULTIPLIER + INCREMENT) as u64)) by (bit_vector);
}

/// A low half `l`, under a high half whose next output differs by `d` (see `crack_lcg`),
/// gives that output: `(l * MULTIPLIER + INCREMENT - d * 2^32) mod 2^64 < 2^32`.
pub open spec fn low_half_fits(l: u32, d: u32) -> bool {
    ((((l as u64) * MULTIPLIER + INCREMENT) as u64 - ((d as u64) << 32u64)) as u64) < TWO_POW_32
}

/// The giant-step offset stored for the big component `big` (a multiple of 2^16).
pub open spec fn giant_offset(d: u32, big: u64) -> u64 {
    ((((big * MULTIPLIER) as u64 - ((d as u64) << 32u64)) as u64 + INCREMENT) as u64)
}

/// The lower end of the window of offsets that suit the small component `small`.
pub open spec fn window_start(small: u64) -> u64 {
    ((((0 - small) as u64) * MULTIPLIER) as u64)
}

/// `v` lies in the window of width 2^32 that starts at `lo`, read modulo 2^64.
pub open spec fn in_window(lo: u64, v: u64) -> bool {
    ((v - lo) as u64) < TWO_POW_32
}

/// The target difference that the first two outputs `s0` and `s1` impose on the low half.
pub open spec fn target_difference(s0: u32, s1: u32) -> u32 {
    (((((s1 as u64) << 32u64) - ((((s0 as u64) << 32u64) * MULTIPLIER) as u64)) as u64)
        >> 32u64) as u32
}

proof fn lemma_mul_distributes(x: u64, y: u64)
    requires
        x + y < 0x1_0000_0000_0000_0000,
    ensures
        ((x + y) * MULTIPLIER) as u64 == (((x * MULTIPLIER) as u64 + (y * MULTIPLIER) as u64) as u64),
{
    assert(x + y < 0x1_0000_0000_0000_0000 ==> ((x + y) * MULTIPLIER) as u64 == (((x * MULTIPLIER) as u64
        + (y * MULTIPLIER) as u64) as u64)) by (bit_vector);
}

proof fn lemma_add_increment(x: u64)
    ensures
        (x * MULTIPLIER + INCREMENT) as u64 == (((x * MULTIPLIER) as u64 + INCREMENT) as u64),
{
    assert((x * MULTIPLIER + INCREMENT) as u64 == (((x * MULTIPLIER) as u64 + INCREMENT) as u64))
        by (bit_vector);
}

proof fn lemma_window_linear(a: u64, b: u64, dd: u64)
    ensures
        in_window((0 - b) as u64, (((a - dd) as u64 + INCREMENT) as u64)) == ((((((a + b) as u64)
            + INCREMENT) as u64 - dd) as u64) < TWO_POW_32),
{
    assert(in_window((0 - b) as u64, (((a - dd) as u64 + INCREMENT) as u64)) == ((((((a + b) as u64)
        + INCREMENT) as u64 - dd) as u64) < TWO_POW_32)) by (bit_vector);
}

proof fn lemma_split_low_half(l: u32, d: u32)
    ensures
        in_window(
            window_start((l & 0xffff) as u64),
            giant_offset(d, (l & 0xffff_0000) as u64),
        ) == low_half_fits(l, d),
{
    let big = (l & 0xffff_0000) as u64;
    let small = (l & 0xffff) as u64;
    assert(l as u64 == (l & 0xffff_0000) as u64 + (l & 0xffff) as u64) by (bit_vector);
    lemma_mul_distributes(big, small);
    lemma_add_increment(l as u64);
    let a = (big * MULTIPLIER) as u64;
    let b = (small * MULTIPLIER) as u64;
    assert((((0 - small) as u64) * MULTIPLIER) as u64 == (0 - b) as u64) by (bit_vector)
        requires
            b == (small * MULTIPLIER) as u64,
    ;
    lemma_window_linear(a, b, (d as u64) << 32u64);
}

proof fn lemma_join_low_half(big: u64, small: u64)
    requires
        big & 0xffff == 0,
        big < 0x1_0000_0000,
        small < 0x1_0000,
    ensures
        ((big | small) as u32) & 0xffff_0000 == big,
        ((big | small) as u32) & 0xffff == small,
{
    assert(big & 0xffff == 0 && big < 0x1_0000_0000 && small < 0x1_0000 ==> ((big | small) as u32)
        & 0xffff_0000 == big && ((big | small) as u32) & 0xffff == small) by (bit_vector);
}

proof fn lemma_second_output(s: u64, s1: u32)
    ensures
        ((lcg_step(s) >> 32u64) as u32 == s1) == low_half_fits(
            s as u32,
            target_difference((s >> 32u64) as u32, s1),
        ),
        s == ((((s >> 32u64) as u32) as u64) << 32u64) | ((s as u32) as u64),
{
    let hi = (((s >> 32u64) as u32) as u64) << 32u64;
    let lo = (s as u32) as u64;
    assert(s == hi | lo && s == hi + lo) by (bit_vector)
        requires
            hi == (((s >> 32u64) as u32) as u64) << 32u64,
            lo == (s as u32) as u64,
    ;
    lemma_mul_distributes(hi, lo);
    let h = (hi * MULTIPLIER) as u64;
    let m = (lo * MULTIPLIER) as u64;
    assert(h & 0xffff_ffff == 0) by (bit_vector)
        requires
            h == (hi * MULTIPLIER) as u64,
            hi == (((s >> 32u64) as u32) as u64) << 32u64,
    ;
    lemma_add_increment(s);
    lemma_add_increment(lo);
    let t = target_difference((s >> 32u64) as u32, s1);
    let dd = (t as u64) << 32u64;
    let g = ((h + m) as u64 + INCREMENT) as u64;
    assert(((g >> 32u64) as u32 == s1) == ((((m + INCREMENT) as u64 - dd) as u64) < TWO_POW_32))
        by (bit_vector)
        requires
            h & 0xffff_ffff == 0,
            g == ((h + m) as u64 + INCREMENT) as u64,
            dd == (t as u64) << 32u64,
            t == ((((s1 as u64) << 32u64) - h) as u64 >> 32u64) as u32,
    ;
}

/// A simplified LCG with 64-bit internal state and 32-bit outputs.
///
/// State transition is described by the recurrence relation
/// `s_{n + 1} := s_n * MULTIPLIER + 1`, where `MULTIPLIER := 6_364_136_223_846_793_005`.
/// In each call, only the highest 32 bits are exposed.
/// This generator has the period of 2^64.
pub struct LCG {
    state: u64,
}

impl LCG {
    /// The current internal state.
    pub closed spec fn state(self) -> u64 {
        self.state
    }

    /// Initialize the state with the given input `state`.
    pub fn new(state: u64) -> (r: Self)
        ensures
            r.state() == state,
    {
        Self { state }
    }

    /// Generate a `u32` from the state and advance the state by one step.
    pub fn next_u32(&mut self) -> (r: u32)
        ensures
            r == (old(self).state() >> 32u64) as u32,
            final(self).state() == lcg_step(old(self).state()),
    {
        let state = self.state;
        self.next();
        (state >> 32) as u32
    }

    fn next(&mut self)
        ensures
            final(self).state() == lcg_step(old(self).state()),
    {
        proof {
            lemma_step_wrapping(self.state);
        }
        self.state = self.state.wrapping_mul(MULTIPLIER).wrapping_add(INCREMENT);
    }
}


/// An entry `(offset, big)` of the giant-step table for target difference `d`.
pub open spec fn is_giant_step(d: u32, e: (u64, u64)) -> bool {
    &&& e.1 & 0xffff == 0
    &&& e.1 < 0x1_0000_0000
    &&& e.0 == giant_offset(d, e.1)
}

/// The table is ordered by offset.
pub open spec fn offsets_sorted(steps: Seq<(u64, u64)>) -> bool {
    forall|i: int, j: int| 0 <= i <= j < steps.len() ==> steps[i].0 <= steps[j].0
}

/// Relies on `slice::sort_unstable`: it permutes the entries into ascending order,
/// and tuples compare by their first field first.
#[verifier::external_body]
fn sort_by_offset(steps: &mut Vec<(u64, u64)>)
    ensures
        final(steps)@.to_multiset() == old(steps)@.to_multiset(),
        offsets_sorted(final(steps)@),
{
    steps.sort_unstable();
}

fn offset_in_window(lo: u64, v: u64) -> (r: bool)
    ensures
        r == in_window(lo, v),
{
    proof {
        lemma_wrapping(v, lo);
    }
    v.wrapping_sub(lo) < TWO_POW_32
}

proof fn lemma_window_between(lo: u64, v: u64, w: u64)
    requires
        (lo <= v <= w) || (v <= w < lo),
        in_window(lo, w),
    ensures
        in_window(lo, v),
{
    assert(((lo <= v && v <= w) || (v <= w && w < lo)) && in_window(lo, w) ==> in_window(lo, v))
        by (bit_vector);
}

pub(crate) proof fn lemma_push_contains<T>(s: Seq<T>, x: T)
    ensures
        forall|y: T| #[trigger] s.push(x).contains(y) <==> s.contains(y) || y == x,
{
    assert forall|y: T| #[trigger] s.push(x).contains(y) <==> s.contains(y) || y == x by {
        if s.contains(y) {
            let k = choose|k: int| 0 <= k < s.len() && s[k] == y;
            assert(s.push(x)[k] == y);
        }
        if y == x {
            assert(s.push(x)[s.len() as int] == x);
        }
        if s.push(x).contains(y) {
            let k = choose|k: int| 0 <= k < s.len() + 1 && s.push(x)[k] == y;
            if k < s.len() {
                assert(s[k] == y);
            }
        }
    }
}

/// The first position whose offset is at least `lo`.
fn lower_bound(steps: &Vec<(u64, u64)>, lo: u64) -> (p: usize)
    requires
        offsets_sorted(steps@),
    ensures
        p <= steps@.len(),
        forall|i: int| 0 <= i < p ==> steps@[i].0 < lo,
        forall|i: int| p <= i < steps@.len() ==> steps@[i].0 >= lo,
{
    let mut a: usize = 0;
    let mut b: usize = steps.len();
    while a < b
        invariant
            a <= b <= steps@.len(),
            offsets_sorted(steps@),
            forall|i: int| 0 <= i < a ==> steps@[i].0 < lo,
            forall|i: int| b <= i < steps@.len() ==> steps@[i].0 >= lo,
        decreases b - a,
    {
        let mid = a + (b - a) / 2;
        if steps[mid].0 < lo {
            a = mid + 1;
        } else {
            b = mid;
        }
    }
    a
}

/// The low half that an entry of the table yields together with `small`.
pub open spec fn joined(steps: Seq<(u64, u64)>, small: u64, idx: int) -> u32 {
    ((steps[idx].1 | small) as u32)
}

/// Appends to `cand` the low half of every entry whose offset lies in the window at `lo`.
fn scan_window(steps: &Vec<(u64, u64)>, lo: u64, small: u64, cand: &mut Vec<u32>)
    requires
        offsets_sorted(steps@),
    ensures
        forall|x: u32| old(cand)@.contains(x) ==> final(cand)@.contains(x),
        forall|x: u32|
            #[trigger] final(cand)@.contains(x) ==> old(cand)@.contains(x) || exists|idx: int|
                0 <= idx < steps@.len() && in_window(lo, steps@[idx].0) && x == joined(
                    steps@,
                    small,
                    idx,
                ),
        forall|idx: int|
            0 <= idx < steps@.len() && in_window(lo, steps@[idx].0) ==> final(cand)@.contains(
                #[trigger] joined(steps@, small, idx),
            ),
{
    let ghost c0 = cand@;
    let n = steps.len();
    let start = lower_bound(steps, lo);
    let mut p: usize = start;
    while p < n && offset_in_window(lo, steps[p].0)
        invariant
            start <= p <= n,
            n == steps@.len(),
            forall|x: u32| c0.contains(x) ==> cand@.contains(x),
            forall|x: u32|
                #[trigger] cand@.contains(x) ==> c0.contains(x) || exists|idx: int|
                    0 <= idx < n && in_window(lo, steps@[idx].0) && x == joined(steps@, small, idx),
            forall|idx: int| start <= idx < p ==> cand@.contains(#[trigger] joined(steps@, small, idx)),
        decreases n - p,
    {
        let x = (steps[p].1 | small) as u32;
        let ghost prev = cand@;
        cand.push(x);
        proof {
            lemma_push_contains(prev, x);
            assert(in_window(lo, steps@[p as int].0) && x == joined(steps@, small, p as int));
        }
        p = p + 1;
    }
    let end_a = p;
    let mut q: usize = 0;
    while q < start && offset_in_window(lo, steps[q].0)
        invariant
            q <= start <= end_a <= n,
            n == steps@.len(),
            forall|x: u32| c0.contains(x) ==> cand@.contains(x),
            forall|x: u32|
                #[trigger] cand@.contains(x) ==> c0.contains(x) || exists|idx: int|
                    0 <= idx < n && in_window(lo, steps@[idx].0) && x == joined(steps@, small, idx),
            forall|idx: int| start <= idx < end_a ==> cand@.contains(#[trigger] joined(steps@, small, idx)),
            forall|idx: int| 0 <= idx < q ==> cand@.contains(#[trigger] joined(steps@, small, idx)),
        decreases start - q,
    {
        let x = (steps[q].1 | small) as u32;
        let ghost prev = cand@;
        cand.push(x);
        proof {
            lemma_push_contains(prev, x);
            assert(in_window(lo, steps@[q as int].0) && x == joined(steps@, small, q as int));
        }
        q = q + 1;
    }
    assert forall|idx: int|
        0 <= idx < steps@.len() && in_window(lo, steps@[idx].0) implies cand@.contains(
        #[trigger] joined(steps@, small, idx),
    ) by {
        if idx >= start {
            if idx >= end_a {
                lemma_window_between(lo, steps@[end_a as int].0, steps@[idx].0);
            }
        } else {
            if idx >= q {
                lemma_window_between(lo, steps@[q as int].0, steps@[idx].0);
            }
        }
    }
}


proof fn lemma_low_half_parts(x: u32)
    ensures
        ((x & 0xffff_0000) as u64) & 0xffff == 0,
        ((x & 0xffff_0000) as u64) < 0x1_0000_0000,
        ((x & 0xffff) as u64) < 0x1_0000,
        ((((x & 0xffff_0000) as u64) | ((x & 0xffff) as u64)) as u32) == x,
{
    assert(((x & 0xffff_0000) as u64) & 0xffff == 0 && ((x & 0xffff_0000) as u64) < 0x1_0000_0000
        && ((x & 0xffff) as u64) < 0x1_0000 && ((((x & 0xffff_0000) as u64) | ((x & 0xffff) as u64))
        as u32) == x) by (bit_vector);
}

/// Every low half `l` for which `low_half_fits(l, diff)` holds, found by a
/// baby-step giant-step search over its high and low 16 bits.
///
/// The window of offsets for a small component may wrap around 2^64; the search
/// then also scans the front of the ordered table.
fn find_l(diff: u32) -> (r: Vec<u32>)
    ensures
        forall|x: u32| #[trigger] r@.contains(x) <==> low_half_fits(x, diff),
{
    let d = diff as u64;
    let mut giant: Vec<(u64, u64)> = Vec::new();
    let mut i: u64 = 0;
    while i < 0x1_0000
        invariant
            i <= 0x1_0000,
            d == diff as u64,
            giant@.len() == i,
            forall|k: int|
                0 <= k < i ==> is_giant_step(diff, #[trigger] giant@[k]) && giant@[k].1 == ((k as u64)
                    << 16u64),
        decreases 0x1_0000 - i,
    {
        let big = i << 16;
        proof {
            assert(i < 0x1_0000 ==> (i << 16u64) & 0xffff == 0 && (i << 16u64) < 0x1_0000_0000)
                by (bit_vector);
            lemma_wrapping(big, MULTIPLIER);
            lemma_wrapping((big * MULTIPLIER) as u64, d << 32u64);
            lemma_wrapping(((big * MULTIPLIER) as u64 - (d << 32u64)) as u64, INCREMENT);
        }
        giant.push((big.wrapping_mul(MULTIPLIER).wrapping_sub(d << 32).wrapping_add(INCREMENT), big));
        i += 1;
    }
    let ghost unsorted = giant@;
    sort_by_offset(&mut giant);
    proof {
        unsorted.to_multiset_ensures();
        giant@.to_multiset_ensures();
        assert forall|big: u64| big & 0xffff == 0 && big < 0x1_0000_0000 implies #[trigger] giant@.contains(
            (giant_offset(diff, big), big),
        ) by {
            let k = big >> 16u64;
            assert(big & 0xffff == 0 && big < 0x1_0000_0000 ==> (big >> 16u64) < 0x1_0000 && ((big
                >> 16u64) << 16u64) == big) by (bit_vector);
            assert(unsorted[k as int] == (giant_offset(diff, big), big));
            assert(unsorted.contains(unsorted[k as int]));
            assert(unsorted.to_multiset().count(unsorted[k as int]) > 0);
            assert(giant@.to_multiset().count(unsorted[k as int]) > 0);
        }
        assert forall|e: (u64, u64)| #[trigger] giant@.contains(e) implies is_giant_step(diff, e) by {
            assert(giant@.to_multiset().count(e) > 0);
            assert(unsorted.to_multiset().count(e) > 0);
            assert(unsorted.contains(e));
            let k = choose|k: int| 0 <= k < unsorted.len() && unsorted[k] == e;
        }
    }
    let mut cand: Vec<u32> = Vec::new();
    let mut small: u64 = 0;
    while small < 0x1_0000
        invariant
            small <= 0x1_0000,
            offsets_sorted(giant@),
            forall|e: (u64, u64)| #[trigger] giant@.contains(e) ==> is_giant_step(diff, e),
            forall|big: u64|
                big & 0xffff == 0 && big < 0x1_0000_0000 ==> #[trigger] giant@.contains(
                    (giant_offset(diff, big), big),
                ),
            forall|x: u32| #[trigger] cand@.contains(x) ==> low_half_fits(x, diff),
            forall|x: u32|
                low_half_fits(x, diff) && ((x & 0xffff) as u64) < small ==> #[trigger] cand@.contains(x),
        decreases 0x1_0000 - small,
    {
        proof {
            lemma_wrapping(0, small);
            lemma_wrapping((0 - small) as u64, MULTIPLIER);
        }
        let lo = 0u64.wrapping_sub(small).wrapping_mul(MULTIPLIER);
        assert(lo == window_start(small));
        let ghost before = cand@;
        scan_window(&giant, lo, small, &mut cand);
        proof {
            assert forall|x: u32| #[trigger] cand@.contains(x) implies low_half_fits(x, diff) by {
                if !before.contains(x) {
                    let idx = choose|idx: int|
                        0 <= idx < giant@.len() && in_window(lo, giant@[idx].0) && x == joined(
                            giant@,
                            small,
                            idx,
                        );
                    let e = giant@[idx];
                    assert(giant@.contains(e));
                    lemma_join_low_half(e.1, small);
                    lemma_split_low_half(x, diff);
                }
            }
            assert forall|x: u32|
                low_half_fits(x, diff) && ((x & 0xffff) as u64) < small + 1 implies #[trigger] cand@.contains(
                x,
            ) by {
                if ((x & 0xffff) as u64) == small {
                    lemma_low_half_parts(x);
                    lemma_split_low_half(x, diff);
                    let big = (x & 0xffff_0000) as u64;
                    let e = (giant_offset(diff, big), big);
                    assert(giant@.contains(e));
                    let idx = choose|idx: int| 0 <= idx < giant@.len() && giant@[idx] == e;
                    assert(joined(giant@, small, idx) == x);
                }
            }
        }
        small += 1;
    }
    proof {
        assert forall|x: u32| low_half_fits(x, diff) implies #[trigger] cand@.contains(x) by {
            lemma_low_half_parts(x);
        }
    }
    cand
}


/// Replays a generator started at `state` against `stream`.
fn replays(state: u64, stream: &[u32]) -> (r: bool)
    ensures
        r == lcg_reproduces(state, stream@),
{
    let mut lcg = LCG::new(state);
    let mut k: usize = 0;
    let mut matches = true;
    while k < stream.len() && matches
        invariant
            k <= stream@.len(),
            lcg.state() == lcg_state_after(state, k as nat),
            matches == (forall|j: nat| j < k ==> #[trigger] lcg_output_at(state, j) == stream@[j as int]),
        decreases stream@.len() - k,
    {
        assert(lcg_state_after(state, (k + 1) as nat) == lcg_step(lcg_state_after(state, k as nat)));
        let out = lcg.next_u32();
        assert(out == lcg_output_at(state, k as nat));
        matches = out == stream[k];
        proof {
            if matches {
                assert forall|j: nat| j < k + 1 implies #[trigger] lcg_output_at(state, j)
                    == stream@[j as int] by {
                    if j < k {
                    }
                }
            }
        }
        k += 1;
    }
    matches
}

/// Try to find possible initial states from the given input stream.
/// This is done by the baby-step giant-step algorithm.
///
/// Complexity: O(2^16 * stream.len() * |candidates|)
pub fn crack_lcg(stream: &[u32]) -> (r: Result<Vec<u64>, Error>)
    ensures
        stream@.len() < 2 <==> r is Err,
        r matches Err(e) ==> e == Error::InsufficientStream,
        r matches Ok(v) ==> forall|s: u64| #[trigger] v@.contains(s) <==> lcg_reproduces(s, stream@),
{
    if stream.len() < 2 {
        return Err(Error::InsufficientStream);
    }
    // Find l s.t. ((stream[0] << 32 | l) * MULTIPLIER + INCREMENT) >> 32 == stream[1]
    let fst = (stream[0] as u64) << 32;
    proof {
        lemma_wrapping(fst, MULTIPLIER);
        lemma_wrapping((stream[1] as u64) << 32u64, (fst * MULTIPLIER) as u64);
    }
    let diff = ((stream[1] as u64) << 32).wrapping_sub(fst.wrapping_mul(MULTIPLIER));
    let ls = find_l((diff >> 32) as u32);
    assert((diff >> 32u64) as u32 == target_difference(stream@[0], stream@[1]));
    let mut cand: Vec<u64> = Vec::new();
    let mut i: usize = 0;
    while i < ls.len()
        invariant
            i <= ls@.len(),
            stream@.len() >= 2,
            forall|x: u32| #[trigger] ls@.contains(x) <==> low_half_fits(
                x,
                target_difference(stream@[0], stream@[1]),
            ),
            forall|s: u64| #[trigger] cand@.contains(s) ==> lcg_reproduces(s, stream@),
            forall|j: int|
                0 <= j < i && lcg_reproduces(
                    ((stream@[0] as u64) << 32u64) | (ls@[j] as u64),
                    stream@,
                ) ==> cand@.contains(#[trigger] (((stream@[0] as u64) << 32u64) | (ls@[j] as u64))),
        decreases ls@.len() - i,
    {
        let l = ls[i];
        let state = (stream[0] as u64) << 32 | l as u64;
        if replays(state, stream) {
            let ghost prev = cand@;
            cand.push(state);
            proof {
                lemma_push_contains(prev, state);
            }
        }
        i += 1;
    }
    proof {
        assert forall|s: u64| lcg_reproduces(s, stream@) implies #[trigger] cand@.contains(s) by {
            assert(lcg_output_at(s, 0) == stream@[0]);
            assert(lcg_output_at(s, 1) == stream@[1]);
            assert(lcg_state_after(s, 1) == lcg_step(lcg_state_after(s, 0)));
            lemma_second_output(s, stream@[1]);
            assert(ls@.contains(s as u32));
            let j = choose|j: int| 0 <= j < ls@.len() && ls@[j] == s as u32;
        }
    }
    Ok(cand)
}

/// Cracking recovers the seed: any seed reproduces its own first `n` outputs,
/// so it is among the candidates that `crack_lcg` returns for them.
pub proof fn lemma_lcg_round_trip(seed: u64, n: nat)
    requires
        n >= 2,
    ensures
        lcg_stream(seed, n).len() == n,
        lcg_reproduces(seed, lcg_stream(seed, n)),
{
}

} // verus!
