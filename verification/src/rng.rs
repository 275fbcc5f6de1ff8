//! The 32-bit Mersenne Twister the annealer draws from, and the integer distribution the
//! search maps its words through.

use crate::single::{nearest_single, to_nearest_single};
use vstd::prelude::*;

verus! {

/// The recurrence's word size.
pub const MT_N: usize = 624;

/// The recurrence's middle offset.
pub const MT_M: usize = 397;

/// The twist matrix.
pub const MATRIX_A: u32 = 0x9908_b0df;

/// The upper bit of a word.
pub const UPPER_MASK: u32 = 0x8000_0000;

/// The lower 31 bits of a word.
pub const LOWER_MASK: u32 = 0x7fff_ffff;

/// The twist of two consecutive words.
pub open spec fn mix(a: u32, b: u32) -> u32 {
    let x = (a & UPPER_MASK) | (b & LOWER_MASK);
    let x_a = x >> 1u32;
    if x & 1u32 != 0 { x_a ^ MATRIX_A } else { x_a }
}

/// Word `k` of the Mersenne Twister sequence seeded with `seed`: the seeding recurrence
/// for the first 624, then `x[k] = x[k - 227] ^ mix(x[k - 624], x[k - 623])`.
pub open spec fn mt_word(seed: u32, k: nat) -> u32
    decreases k,
{
    if k == 0 {
        seed
    } else if k < 624 {
        let prev = mt_word(seed, (k - 1) as nat);
        vstd::wrapping::u32_specs::wrapping_add(
            vstd::wrapping::u32_specs::wrapping_mul(1_812_433_253u32, prev ^ (prev >> 30u32)),
            k as u32,
        )
    } else {
        mt_word(seed, (k - 227) as nat) ^ mix(
            mt_word(seed, (k - 624) as nat),
            mt_word(seed, (k - 623) as nat),
        )
    }
}

proof fn lemma_word_step(seed: u32, k: nat)
    requires
        k >= 624,
    ensures
        mt_word(seed, k) == mt_word(seed, (k - 227) as nat) ^ mix(
            mt_word(seed, (k - 624) as nat),
            mt_word(seed, (k - 623) as nat),
        ),
{
}

/// The next word of the recurrence from the three it reads.
fn twist_word(a: u32, b: u32, c: u32) -> (r: u32)
    ensures
        r == c ^ mix(a, b),
{
    let x = (a & UPPER_MASK) | (b & LOWER_MASK);
    let mut x_a = x >> 1;
    if x & 1 != 0 {
        x_a = x_a ^ MATRIX_A;
    }
    c ^ x_a
}

/// The output tempering of one word.
pub open spec fn temper(y0: u32) -> u32 {
    let y1 = y0 ^ (y0 >> 11u32);
    let y2 = y1 ^ ((y1 << 7u32) & 0x9d2c_5680u32);
    let y3 = y2 ^ ((y2 << 15u32) & 0xefc6_0000u32);
    y3 ^ (y3 >> 18u32)
}

/// The `j`-th output (from zero) of a generator seeded with `seed`.
pub open spec fn mt_output(seed: u32, j: nat) -> u32 {
    temper(mt_word(seed, 624 + j))
}

/// `std::mt19937`, the 32-bit Mersenne Twister the annealer is seeded with. Its view is
/// the seed and the number of words drawn so far.
#[derive(Clone)]
pub struct Mt19937 {
    state: Vec<u32>,
    index: usize,
    seed: Ghost<u32>,
    drawn: Ghost<nat>,
}

impl View for Mt19937 {
    type V = (u32, nat);

    closed spec fn view(&self) -> (u32, nat) {
        (self.seed@, self.drawn@)
    }
}

impl Mt19937 {
    /// The generator's internal state is the current block of the sequence.
    pub closed spec fn wf(&self) -> bool {
        &&& self.state.len() == MT_N
        &&& self.index <= MT_N
        &&& self.index <= self.drawn@ + 624
        &&& forall|i: int|
            0 <= i < 624 ==> #[trigger] self.state@[i] == mt_word(
                self.seed@,
                (self.drawn@ + i - self.index + 624) as nat,
            )
    }

    pub fn new(seed: u32) -> (r: Self)
        ensures
            r.wf(),
            r@ == (seed, 0nat),
    {
        let mut state: Vec<u32> = Vec::new();
        state.push(seed);
        let mut i: usize = 1;
        while i < MT_N
            invariant
                1 <= i <= MT_N,
                state.len() == i,
                forall|j: int| 0 <= j < i ==> #[trigger] state@[j] == mt_word(seed, j as nat),
            decreases MT_N - i,
        {
            let prev = state[i - 1];
            let v = 1_812_433_253u32.wrapping_mul(prev ^ (prev >> 30)).wrapping_add(i as u32);
            state.push(v);
            i += 1;
        }
        Mt19937 { state, index: MT_N, seed: Ghost(seed), drawn: Ghost(0) }
    }

    /// Replace the block with the next 624 words.
    #[verifier::spinoff_prover]
    #[verifier::rlimit(40)]
    fn twist(&mut self)
        requires
            old(self).wf(),
            old(self).index == MT_N,
        ensures
            final(self).wf(),
            final(self).index == 0,
            final(self)@ == old(self)@,
    {
        let ghost seed = self.seed@;
        let ghost base = self.drawn@;
        let mut i: usize = 0;
        while i < MT_N
            invariant
                self.state.len() == MT_N,
                seed == self.seed@,
                base == self.drawn@,
                self.index == MT_N,
                i <= MT_N,
                forall|j: int|
                    0 <= j < i ==> #[trigger] self.state@[j] == mt_word(seed, (base + 624 + j) as nat),
                forall|j: int|
                    i <= j < 624 ==> #[trigger] self.state@[j] == mt_word(seed, (base + j) as nat),
            decreases MT_N - i,
        {
            let a = self.state[i];
            let b = self.state[(i + 1) % MT_N];
            let c = self.state[(i + MT_M) % MT_N];
            let x_a = twist_word(a, b, c);
            proof {
                if i + 1 < 624 {
                    assert(b == mt_word(seed, (base + i + 1) as nat));
                } else {
                    assert((i + 1) % 624 == 0int);
                    assert(b == mt_word(seed, (base + 624) as nat));
                }
                if i + 397 < 624 {
                    assert((i + 397) % 624 == i + 397);
                } else {
                    assert((i + 397) % 624 == i + 397 - 624);
                }
                lemma_word_step(seed, (base + 624 + i) as nat);
            }
            self.state.set(i, x_a);
            i += 1;
        }
        self.index = 0;
    }

    /// One 32-bit output, tempered.
    pub fn next(&mut self) -> (r: u32)
        requires
            old(self).wf(),
        ensures
            final(self).wf(),
            final(self)@ == (old(self)@.0, old(self)@.1 + 1),
            r == mt_output(old(self)@.0, old(self)@.1),
    {
        if self.index >= MT_N {
            self.twist();
        }
        let mut y = self.state[self.index];
        assert(y == mt_word(self.seed@, (self.drawn@ + 624) as nat));
        self.index = self.index + 1;
        self.drawn = Ghost(self.drawn@ + 1);
        y = y ^ (y >> 11);
        y = y ^ ((y << 7) & 0x9d2c_5680);
        y = y ^ ((y << 15) & 0xefc6_0000);
        y = y ^ (y >> 18);
        y
    }
}

/// The bucket width Boost's integer distribution divides a word by for `0..n`.
pub open spec fn bucket(n: u32) -> int {
    let brange = u32::MAX as int;
    let range = n - 1;
    if brange % (range + 1) == range { brange / (range + 1) + 1 } else { brange / (range + 1) }
}

/// The attempt cap of the rejection loop: no run draws this many words.
pub const MAX_DRAWS: u64 = u64::MAX;

/// Drawing from `0..n` starting at word `d` with `left` attempts: each word is divided by
/// the bucket width and rejected while the quotient exceeds `n - 1`. Yields the value and
/// the number of words drawn afterwards; with no attempt left it yields `n - 1`.
pub open spec fn draw_uniform(seed: u32, d: nat, n: u32, left: nat) -> (u32, nat)
    decreases left,
{
    if left == 0 {
        ((n - 1) as u32, d)
    } else {
        let v = mt_output(seed, d) as int / bucket(n);
        if v <= n - 1 {
            (v as u32, d + 1)
        } else {
            draw_uniform(seed, d + 1, n, (left - 1) as nat)
        }
    }
}

/// `uniform_int_distribution<>(0, n - 1)` on a generator that has drawn `d` words: the
/// value and the new count. `n == 1` draws nothing.
pub open spec fn uniform(seed: u32, d: nat, n: u32) -> (u32, nat) {
    if n == 1 {
        (0, d)
    } else {
        draw_uniform(seed, d, n, MAX_DRAWS as nat)
    }
}

/// A uniform draw lands below `n` and never rewinds the generator.
pub proof fn lemma_uniform_range(seed: u32, d: nat, n: u32)
    requires
        n > 0,
    ensures
        uniform(seed, d, n).0 < n,
        uniform(seed, d, n).1 >= d,
{
    lemma_draw_uniform_range(seed, d, n, MAX_DRAWS as nat);
}

/// A uniform draw from more than one value consumes at least one word.
pub proof fn lemma_uniform_advances(seed: u32, d: nat, n: u32)
    requires
        n > 1,
    ensures
        uniform(seed, d, n).1 >= d + 1,
{
    lemma_draw_uniform_range(seed, d + 1, n, (MAX_DRAWS - 1) as nat);
}

proof fn lemma_draw_uniform_range(seed: u32, d: nat, n: u32, left: nat)
    requires
        n > 0,
    ensures
        draw_uniform(seed, d, n, left).0 < n,
        draw_uniform(seed, d, n, left).1 >= d,
    decreases left,
{
    lemma_bucket_positive(n);
    if left > 0 {
        lemma_draw_uniform_range(seed, d + 1, n, (left - 1) as nat);
    }
}

proof fn lemma_bucket_positive(n: u32)
    requires
        n > 0,
    ensures
        bucket(n) >= 1,
{
    let brange = u32::MAX as int;
    let range = n - 1;
    assert(brange / (range + 1) >= 1) by (nonlinear_arith)
        requires
            1 <= range + 1 <= brange,
    ;
}

/// The value `boost::random::uniform_int_distribution<>(0, n - 1)` yields from the
/// generator: a bucket division with rejection, consuming one word per attempt.
pub fn uniform_int(rng: &mut Mt19937, n: u32) -> (r: u32)
    requires
        old(rng).wf(),
        n > 0,
    ensures
        final(rng).wf(),
        final(rng)@.0 == old(rng)@.0,
        (r, final(rng)@.1) == uniform(old(rng)@.0, old(rng)@.1, n),
        r < n,
{
    proof {
        lemma_draw_uniform_range(rng@.0, rng@.1, n, MAX_DRAWS as nat);
    }
    if n == 1 {
        return 0;
    }
    let brange: u64 = 0xffff_ffff;
    let range: u64 = (n - 1) as u64;
    let mut b: u64 = brange / (range + 1);
    if brange % (range + 1) == range {
        b = b + 1;
    }
    assert(b as int == bucket(n));
    assert(b >= 1) by (nonlinear_arith)
        requires
            b as int == brange as int / (range as int + 1) || b as int == brange as int / (range as int + 1) + 1,
            1 <= range as int + 1 <= brange as int,
    ;
    let ghost seed = rng@.0;
    let ghost goal = uniform(rng@.0, rng@.1, n);
    let mut left: u64 = MAX_DRAWS;
    let mut done = false;
    let mut r: u32 = 0;
    while !done
        invariant
            rng.wf(),
            rng@.0 == seed,
            seed == old(rng)@.0,
            goal == uniform(old(rng)@.0, old(rng)@.1, n),
            b as int == bucket(n),
            b >= 1,
            range == n - 1,
            n > 1,
            !done ==> goal == draw_uniform(seed, rng@.1, n, left as nat),
            !done ==> left >= 1,
            done ==> (r, rng@.1) == goal,
        decreases left as int + (if done { 0int } else { 1int }),
    {
        let ghost d = rng@.1;
        let ghost left0 = left;
        let w = rng.next() as u64;
        left = left - 1;
        let result = w / b;
        assert(result as int == mt_output(seed, d) as int / bucket(n));
        assert(draw_uniform(seed, d + 1, n, 0) == ((n - 1) as u32, d + 1));
        if result <= range {
            r = result as u32;
            done = true;
        } else if left == 0 {
            r = (n - 1) as u32;
            done = true;
        }
    }
    r
}

/// The canonical single-precision draw in `[0, 1)` a word gives, scaled by 2^32: the word taken
/// to single precision (the scaling is exact), and the largest single below one, `1 - 2^-24`,
/// where the word rounds up to one.
pub open spec fn canonical_units(w: u32) -> int {
    let v = nearest_single(w as int);
    if v >= 0x1_0000_0000 {
        0x1_0000_0000 - 0x100
    } else {
        v
    }
}

/// One canonical draw from the generator, as [`canonical_units`]: exactly one word.
pub fn canonical_draw(rng: &mut Mt19937) -> (r: i64)
    requires
        old(rng).wf(),
    ensures
        final(rng).wf(),
        final(rng)@ == (old(rng)@.0, old(rng)@.1 + 1),
        r == canonical_units(mt_output(old(rng)@.0, old(rng)@.1)),
        0 <= r < 0x1_0000_0000,
{
    let w = rng.next();
    let v = to_nearest_single(w as i128);
    if v >= 0x1_0000_0000 {
        0x1_0000_0000 - 0x100
    } else {
        v as i64
    }
}

} // verus!
