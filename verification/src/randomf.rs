//! The random number generator: xoshiro256**, seeded by splitmix64.

use vstd::prelude::*;

verus! {

/// The state of the generator, as mathematics.
pub struct State {
    /// The first word.
    pub a: u64,
    /// The second word.
    pub b: u64,
    /// The third word.
    pub c: u64,
    /// The fourth word.
    pub d: u64,
}

/// A word rotated left, by less than its width and more than nothing.
pub open spec fn rotated(x: u64, k: u32) -> u64 {
    (x << k) | (x >> ((64 - k) as u32))
}

/// The golden-ratio increment of splitmix64.
pub const GOLDEN: u64 = 0x9E37_79B9_7F4A_7C15;

/// The splitmix64 mix of a counter value.
pub open spec fn mixed(x: u64) -> u64 {
    let z = (x ^ (x >> 30)).wrapping_mul(0xBF58_476D_1CE4_E5B9);
    let y = (z ^ (z >> 27)).wrapping_mul(0x94D0_49BB_1331_11EB);
    y ^ (y >> 31)
}

/// The state a seed gives: four mixes of a counter that starts behind the seed. The
/// all-zero state, in which the generator is stuck, is not one of them.
pub open spec fn seeded_state(seed: u64) -> State {
    let x0 = seed.wrapping_add(GOLDEN);
    let x1 = x0.wrapping_add(GOLDEN);
    let x2 = x1.wrapping_add(GOLDEN);
    let x3 = x2.wrapping_add(GOLDEN);
    if mixed(x0) == 0 && mixed(x1) == 0 && mixed(x2) == 0 && mixed(x3) == 0 {
        State { a: GOLDEN, b: 0, c: 0, d: 0 }
    } else {
        State { a: mixed(x0), b: mixed(x1), c: mixed(x2), d: mixed(x3) }
    }
}

/// The number drawn in a state.
pub open spec fn output(s: State) -> u64 {
    rotated(s.b.wrapping_mul(5), 7).wrapping_mul(9)
}

/// The state behind a draw.
pub open spec fn stepped(s: State) -> State {
    let c = s.c ^ s.a;
    let d = s.d ^ s.b;
    State { a: s.a ^ d, b: s.b ^ c, c: c ^ (s.b << 17), d: rotated(d, 45) }
}

/// Draws at or above this are drawn again, so that every remainder is equally likely.
pub open spec fn limit_of(bound: u64) -> u64
    recommends
        bound > 0,
{
    (u64::MAX - u64::MAX % bound) as u64
}

/// A number below `bound`, if one comes within `tries` draws, and the state behind them.
pub open spec fn below(s: State, bound: u64, tries: nat) -> (Option<u64>, State)
    decreases tries,
{
    if tries == 0 {
        (None, s)
    } else if output(s) < limit_of(bound) {
        (Some((output(s) % bound) as u64), stepped(s))
    } else {
        below(stepped(s), bound, (tries - 1) as nat)
    }
}

/// A number below `bound`, or any number when `bound` is zero, and the state behind it.
/// There is none only where every one of the first 2^64 - 1 draws is above the limit.
pub open spec fn bounded_draw(s: State, bound: u64) -> (Option<u64>, State) {
    if bound == 0 {
        (Some(output(s)), stepped(s))
    } else {
        below(s, bound, u64::MAX as nat)
    }
}

/// How many integers lie from `lo` to `hi`, as 64 bits hold it: zero for all of them.
pub open spec fn range_of(lo: i64, hi: i64) -> u64 {
    ((hi - lo + 1) % 0x1_0000_0000_0000_0000) as u64
}

/// An integer from `lo` to `hi`, if one is drawn, and the state behind it.
pub open spec fn integer_draw(s: State, lo: i64, hi: i64) -> (Option<int>, State) {
    let (r, t) = bounded_draw(s, range_of(lo, hi));
    (
        match r {
            Some(v) => Some(lo + v),
            None => None,
        },
        t,
    )
}

/// The generator.
pub struct Rng {
    /// The first word of its state.
    pub s0: u64,
    /// The second word.
    pub s1: u64,
    /// The third word.
    pub s2: u64,
    /// The fourth word.
    pub s3: u64,
    /// A seed was given.
    pub seeded: bool,
}

/// Rotate a word left.
pub fn rotl(x: u64, k: u32) -> (r: u64)
    requires
        0 < k < 64,
    ensures
        r == rotated(x, k),
{
    (x << k) | (x >> (64 - k))
}

/// Advance a splitmix64 counter, and mix it.
pub fn splitmix64(x: &mut u64) -> (r: u64)
    ensures
        *final(x) == old(x).wrapping_add(GOLDEN),
        r == mixed(*final(x)),
{
    *x = x.wrapping_add(GOLDEN);
    let mut z: u64 = *x;
    z = (z ^ (z >> 30)).wrapping_mul(0xBF58_476D_1CE4_E5B9);
    z = (z ^ (z >> 27)).wrapping_mul(0x94D0_49BB_1331_11EB);
    z ^ (z >> 31)
}

impl Rng {
    /// The state the next draw is made in: before any seed, the one `entropy` gives.
    pub open spec fn state(&self, entropy: u64) -> State {
        if self.seeded {
            State { a: self.s0, b: self.s1, c: self.s2, d: self.s3 }
        } else {
            seeded_state(entropy)
        }
    }

    /// A generator without a seed.
    pub fn new() -> (r: Self)
        ensures
            !r.seeded,
    {
        Rng { s0: 0, s1: 0, s2: 0, s3: 0, seeded: false }
    }

    /// Start over from a seed.
    pub fn reseed(&mut self, seed: u64)
        ensures
            final(self).seeded,
            forall|e: u64| #[trigger] final(self).state(e) == seeded_state(seed),
    {
        let mut x: u64 = seed;
        self.s0 = splitmix64(&mut x);
        self.s1 = splitmix64(&mut x);
        self.s2 = splitmix64(&mut x);
        self.s3 = splitmix64(&mut x);
        if self.s0 == 0 && self.s1 == 0 && self.s2 == 0 && self.s3 == 0 {
            self.s0 = GOLDEN;
        }
        self.seeded = true;
    }

    /// One draw. The first one without a seed is seeded with `entropy`.
    pub fn next(&mut self, entropy: u64) -> (r: u64)
        ensures
            final(self).seeded,
            r == output(old(self).state(entropy)),
            forall|e: u64| #[trigger]
                final(self).state(e) == stepped(old(self).state(entropy)),
    {
        if !self.seeded {
            self.reseed(entropy);
            assert(self.state(entropy) == seeded_state(entropy));
        }
        let result: u64 = rotl(self.s1.wrapping_mul(5), 7).wrapping_mul(9);
        let t: u64 = self.s1 << 17;
        self.s2 = self.s2 ^ self.s0;
        self.s3 = self.s3 ^ self.s1;
        self.s1 = self.s1 ^ self.s2;
        self.s0 = self.s0 ^ self.s3;
        self.s2 = self.s2 ^ t;
        self.s3 = rotl(self.s3, 45);
        result
    }

    /// A number below `bound`, every one equally likely; any number when `bound` is zero.
    /// Draws above the last full multiple of `bound` are made again, which comes to an
    /// end unless 2^64 - 1 of them in a row are.
    pub fn bounded(&mut self, bound: u64, entropy: u64) -> (r: Option<u64>)
        ensures
            final(self).seeded,
            r == bounded_draw(old(self).state(entropy), bound).0,
            forall|e: u64| #[trigger]
                final(self).state(e) == bounded_draw(old(self).state(entropy), bound).1,
    {
        if bound == 0 {
            return Some(self.next(entropy));
        }
        let limit: u64 = u64::MAX - (u64::MAX % bound);
        let ghost drawn = bounded_draw(self.state(entropy), bound);
        let mut left: u64 = u64::MAX;
        loop
            invariant
                bound > 0,
                limit == limit_of(bound),
                left > 0,
                below(self.state(entropy), bound, left as nat) == drawn,
                drawn == bounded_draw(old(self).state(entropy), bound),
            decreases left,
        {
            let ghost s = self.state(entropy);
            let r: u64 = self.next(entropy);
            assert(self.state(entropy) == stepped(s));
            if r < limit {
                assert(drawn == (Some((r % bound) as u64), stepped(s)));
                return Some(r % bound);
            }
            left = left - 1;
            assert(below(stepped(s), bound, left as nat) == drawn);
            if left == 0 {
                assert(drawn == (None::<u64>, stepped(s)));
                return None;
            }
        }
    }

    /// The numerator of a fraction of 2^53, every one equally likely.
    pub fn fraction(&mut self, entropy: u64) -> (r: u64)
        ensures
            final(self).seeded,
            r == output(old(self).state(entropy)) >> 11,
            r < 0x20_0000_0000_0000,
            forall|e: u64| #[trigger]
                final(self).state(e) == stepped(old(self).state(entropy)),
    {
        let r: u64 = self.next(entropy);
        assert(r >> 11 < 0x20_0000_0000_0000) by (bit_vector);
        r >> 11
    }
}

/// An integer from `lo` to `hi`, both included, every one equally likely.
pub fn draw(rng: &mut Rng, lo: i64, hi: i64, entropy: u64) -> (r: Option<i64>)
    requires
        lo <= hi,
    ensures
        final(rng).seeded,
        match integer_draw(old(rng).state(entropy), lo, hi).0 {
            Some(v) => r matches Some(i) && i == v && lo <= i <= hi,
            None => r is None,
        },
        forall|e: u64| #[trigger]
            final(rng).state(e) == integer_draw(old(rng).state(entropy), lo, hi).1,
{
    let span: u64 = spread(lo, hi);
    let range: u64 = span.wrapping_add(1);
    let ghost s = rng.state(entropy);
    assert(range == range_of(lo, hi)) by {
        if span == u64::MAX {
            assert(0x1_0000_0000_0000_0000int % 0x1_0000_0000_0000_0000int == 0);
        }
    }
    match rng.bounded(range, entropy) {
        Some(v) => {
            proof {
                if range > 0 {
                    below_is_below(s, range, u64::MAX as nat);
                }
            }
            Some(shifted(lo, v))
        },
        None => None,
    }
}

/// Reseed the generator with an integer.
pub fn seed(rng: &mut Rng, n: i64)
    ensures
        final(rng).seeded,
        forall|e: u64| #[trigger] final(rng).state(e) == seeded_state(n as u64),
{
    rng.reseed(n as u64);
}

/// How far `hi` lies above `lo`.
fn spread(lo: i64, hi: i64) -> (r: u64)
    requires
        lo <= hi,
    ensures
        r == hi - lo,
{
    (hi as i128 - lo as i128) as u64
}

/// The integer `v` above `lo`.
fn shifted(lo: i64, v: u64) -> (r: i64)
    requires
        lo + v <= i64::MAX,
    ensures
        r == lo + v,
{
    (lo as i128 + v as i128) as i64
}

/// The value of a draw in an empty seed's place: the seed to use where none was given,
/// from the time in seconds and the number of the process.
pub fn entropy(seconds: u64, process: u32) -> (r: u64)
    ensures
        r == seconds ^ ((process as u64) << 16),
{
    seconds ^ ((process as u64) << 16)
}

// ── Laws ─────────────────────────────────────────────────────────────────────

/// A bounded number is below its bound.
pub proof fn below_is_below(s: State, bound: u64, tries: nat)
    requires
        bound > 0,
    ensures
        below(s, bound, tries).0 matches Some(v) ==> v < bound,
    decreases tries,
{
    if tries > 0 && output(s) >= limit_of(bound) {
        below_is_below(stepped(s), bound, (tries - 1) as nat);
    }
}

/// An integer is drawn from its range, both ends included.
pub proof fn draws_stay_in_range(s: State, lo: i64, hi: i64)
    requires
        lo <= hi,
    ensures
        integer_draw(s, lo, hi).0 matches Some(v) ==> lo <= v <= hi,
{
    let range = range_of(lo, hi);
    if range > 0 {
        below_is_below(s, range, u64::MAX as nat);
    }
    if hi - lo + 1 == 0x1_0000_0000_0000_0000int {
        assert(0x1_0000_0000_0000_0000int % 0x1_0000_0000_0000_0000int == 0);
    }
}

/// A seed is never the state in which the generator is stuck.
pub proof fn seeds_are_not_stuck(seed: u64)
    ensures
        ({
            let s = seeded_state(seed);
            s.a != 0 || s.b != 0 || s.c != 0 || s.d != 0
        }),
{
}

/// The same seed gives the same numbers, whatever the generator drew before.
pub proof fn seeds_are_deterministic(a: Rng, b: Rng, ea: u64, eb: u64, seed: u64, lo: i64, hi: i64)
    requires
        a.seeded,
        b.seeded,
        a.state(ea) == seeded_state(seed),
        b.state(eb) == seeded_state(seed),
    ensures
        integer_draw(a.state(ea), lo, hi) == integer_draw(b.state(eb), lo, hi),
{
}

/// Rotating moves the high bits to the low end: a rotated word is the word times a power of
/// two, what overflows added again.
pub proof fn rotation_wraps_around(x: u64)
    ensures
        rotated(x, 7) == x.wrapping_mul(0x80) + x / 0x200_0000_0000_0000,
        rotated(x, 45) == x.wrapping_mul(0x2000_0000_0000) + x / 0x8_0000,
{
    assert((x << 7u32) | (x >> 57u32) == (x << 7u32) + (x >> 57u32)) by (bit_vector);
    assert((x << 45u32) | (x >> 19u32) == (x << 45u32) + (x >> 19u32)) by (bit_vector);
    assert(x >> 57u32 == x / 0x200_0000_0000_0000) by (bit_vector);
    assert(x >> 19u32 == x / 0x8_0000) by (bit_vector);
    assert(x << 7u32 == (x % 0x200_0000_0000_0000) * 0x80) by (bit_vector);
    assert(x << 45u32 == (x % 0x8_0000) * 0x2000_0000_0000) by (bit_vector);
    assert((x * 0x80) as int % 0x1_0000_0000_0000_0000 == (x % 0x200_0000_0000_0000) * 0x80);
    assert((x * 0x2000_0000_0000) as int % 0x1_0000_0000_0000_0000 == (x % 0x8_0000)
        * 0x2000_0000_0000);
}

/// Each word of the next state is a sum of words of this one: the first of the first, the
/// second and the fourth, the second of the first three, the third of the first, the third
/// and the second shifted, and the fourth of the second and the fourth, rotated.
pub proof fn states_step_by_sums(s: State)
    ensures
        stepped(s).a == s.a ^ (s.d ^ s.b),
        stepped(s).b == s.b ^ (s.c ^ s.a),
        stepped(s).c == (s.c ^ s.a) ^ (s.b << 17u64),
        stepped(s).d == rotated(s.d ^ s.b, 45),
        output(s) == rotated(s.b.wrapping_mul(5), 7).wrapping_mul(9),
{
}

/// A bounded draw takes the first number below the largest multiple of the bound, and the
/// remainder of it: every value has as many numbers.
pub proof fn bounded_draws_are_even(s: State, bound: u64, tries: nat)
    requires
        bound > 0,
        tries > 0,
    ensures
        limit_of(bound) % bound == 0,
        limit_of(bound) > u64::MAX - bound,
        output(s) < limit_of(bound) ==> below(s, bound, tries) == (
            Some((output(s) % bound) as u64),
            stepped(s),
        ),
        output(s) >= limit_of(bound) ==> below(s, bound, tries) == below(
            stepped(s),
            bound,
            (tries - 1) as nat,
        ),
{
    let m = u64::MAX as int;
    let b = bound as int;
    vstd::arithmetic::div_mod::lemma_fundamental_div_mod(m, b);
    vstd::arithmetic::div_mod::lemma_mod_bound(m, b);
    let q = m / b;
    assert(m - m % b == q * b) by (nonlinear_arith)
        requires
            m == b * q + m % b,
    ;
    vstd::arithmetic::div_mod::lemma_mod_multiples_basic(q, b);
}

/// A range has as many numbers as lie between its ends, both counted; a draw from it is its
/// lower end and a bounded number more.
pub proof fn ranges_count_both_ends(s: State, lo: i64, hi: i64)
    requires
        lo <= hi,
    ensures
        hi - lo < u64::MAX ==> range_of(lo, hi) == hi - lo + 1,
        hi - lo == u64::MAX ==> range_of(lo, hi) == 0,
        lo == hi ==> range_of(lo, hi) == 1,
        integer_draw(s, lo, hi).0 matches Some(v) ==> bounded_draw(s, range_of(lo, hi)).0 == Some(
            (v - lo) as u64,
        ),
        integer_draw(s, lo, hi).1 == bounded_draw(s, range_of(lo, hi)).1,
        bounded_draw(s, 0) == (Some(output(s)), stepped(s)),
{
    draws_stay_in_range(s, lo, hi);
}

} // verus!
