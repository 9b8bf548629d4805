use vstd::arithmetic::div_mod::*;
use vstd::arithmetic::power2::*;
use vstd::bits::*;
use vstd::prelude::*;
use vstd::relations::injective_on;
use vstd::set_lib::*;
use vstd::wrapping::u64_specs::wrapping_add;

verus! {

/// `r` is the integer square root of `n`: `r * r <= n < (r + 1) * (r + 1)`.
pub open spec fn is_floor_sqrt(n: int, r: int) -> bool {
    0 <= r && r * r <= n && n < (r + 1) * (r + 1)
}

/// One Newton step from a point at or above the square root stays at or above it.
proof fn lemma_newton_step_above(n: int, x: int)
    requires
        0 <= n,
        1 <= x,
    ensures
        n < ((x + n / x) / 2 + 1) * ((x + n / x) / 2 + 1),
{
    let q = n / x;
    let y = (x + q) / 2;
    lemma_fundamental_div_mod(n, x);
    lemma_mod_bound(n, x);
    assert(n < x * (q + 1)) by (nonlinear_arith)
        requires
            n == x * q + n % x,
            n % x < x,
    ;
    assert(2 * (y + 1) >= x + q + 1);
    assert(0 <= q) by {
        lemma_div_pos_is_pos(n, x);
    }
    assert(4 * ((y + 1) * (y + 1)) >= 4 * (x * (q + 1))) by (nonlinear_arith)
        requires
            2 * (y + 1) >= x + q + 1,
            x + q + 1 >= 0,
    {
        assert((x - (q + 1)) * (x - (q + 1)) >= 0);
        assert((2 * (y + 1)) * (2 * (y + 1)) >= (x + q + 1) * (x + q + 1));
    }
}

/// The sum computed by one Newton step does not overflow.
proof fn lemma_newton_sum_fits(n: int, x: int)
    requires
        2 <= n <= u64::MAX,
        1 <= x <= n / 2,
        n < (x + 1) * (x + 1),
    ensures
        x + n / x <= u64::MAX,
{
    if x >= 0x1_0000_0000 {
        lemma_div_is_ordered_by_denominator(n, 0x1_0000_0000, x);
        assert(n / 0x1_0000_0000 < 0x1_0000_0000);
    } else {
        assert(n <= x * (x + 2)) by (nonlinear_arith)
            requires
                n < (x + 1) * (x + 1),
        ;
        lemma_div_is_ordered(n, x * (x + 2), x);
        lemma_div_multiples_vanish(x + 2, x);
        assert(x * (x + 2) == x * (x + 2));
    }
}

/// Integer square root by Newton's method.
pub fn int_sqrt(n: u64) -> (r: u64)
    ensures
        is_floor_sqrt(n as int, r as int),
{
    if n <= 1 {
        assert(n * n <= n < (n + 1) * (n + 1)) by (nonlinear_arith)
            requires
                n <= 1,
        ;
        return n;
    }
    let mut x0: u64 = n / 2;
    assert(n < (x0 + 1) * (x0 + 1)) by (nonlinear_arith)
        requires
            x0 == n / 2,
            n >= 2,
    ;
    proof {
        lemma_newton_sum_fits(n as int, x0 as int);
        lemma_newton_step_above(n as int, x0 as int);
    }
    let mut x1: u64 = (x0 + n / x0) / 2;
    while x1 < x0
        invariant
            2 <= n,
            1 <= x0 <= n / 2,
            n < (x0 + 1) * (x0 + 1),
            n < (x1 + 1) * (x1 + 1),
            x1 == (x0 + n / x0) / 2,
        decreases x0,
    {
        x0 = x1;
        assert(1 <= x0) by (nonlinear_arith)
            requires
                n < (x0 + 1) * (x0 + 1),
                2 <= n,
        ;
        proof {
            lemma_newton_sum_fits(n as int, x0 as int);
            lemma_newton_step_above(n as int, x0 as int);
        }
        x1 = (x0 + n / x0) / 2;
    }
    assert(x0 * x0 <= n) by {
        if x0 * x0 > n {
            lemma_fundamental_div_mod(n as int, x0 as int);
            lemma_mod_bound(n as int, x0 as int);
            assert(n / x0 < x0) by (nonlinear_arith)
                requires
                    n == x0 * (n / x0) + n % x0,
                    n % x0 >= 0,
                    x0 * x0 > n,
                    x0 >= 1,
            ;
        }
    }
    x0
}


/// `p` is a power of two (`1`, `2`, `4`, ...).
pub open spec fn is_power_of_two(p: int) -> bool {
    exists|e: nat| pow2(e) == p
}

/// `pow2(e)` is the least power of two strictly above `x`.
pub open spec fn is_least_pow2_above(x: int, e: nat) -> bool {
    pow2(e) > x && (e == 0 || pow2((e - 1) as nat) <= x)
}

/// The halves of the covering domain of `[0, range)`: `a` is the least power
/// of two whose square exceeds `range`, and `b` the least power of two above
/// `range / a`.
pub open spec fn derived_halves(range: int, a: int, b: int) -> bool {
    &&& is_power_of_two(a)
    &&& is_power_of_two(b)
    &&& a * a > range
    &&& (a == 1 || (a / 2) * (a / 2) <= range)
    &&& b > range / a
    &&& (b == 1 || b / 2 <= range / a)
}

/// The least power of two that is at least `x`, with its exponent.
fn next_power_of_two(x: u64) -> (r: (u64, u32))
    requires
        x <= 0x1_0000_0000,
    ensures
        r.0 == pow2(r.1 as nat),
        r.1 <= 32,
        r.0 <= 0x1_0000_0000,
        is_least_pow2_above(x - 1, r.1 as nat),
{
    let mut p: u64 = 1;
    let mut e: u32 = 0;
    proof {
        lemma2_to64();
    }
    while p < x
        invariant
            p == pow2(e as nat),
            e <= 32,
            p <= 0x1_0000_0000,
            x <= 0x1_0000_0000,
            e == 0 || pow2((e - 1) as nat) < x,
        decreases 32 - e,
    {
        proof {
            lemma_pow2_unfold((e + 1) as nat);
            lemma_pow2_pos(e as nat);
            lemma2_to64();
            if e + 1 < 32 {
                lemma_pow2_strictly_increases((e + 1) as nat, 32);
            }
        }
        p = p * 2;
        e = e + 1;
    }
    (p, e)
}

/// The least power of two strictly above `isqrt(range)` is the least power of
/// two whose square exceeds `range`.
proof fn lemma_square_exceeds(range: int, s: int, e: nat)
    requires
        is_floor_sqrt(range, s),
        is_least_pow2_above(s, e),
    ensures
        pow2(e) * pow2(e) > range,
        e == 0 || (pow2(e) / 2) * (pow2(e) / 2) <= range,
{
    let a = pow2(e) as int;
    assert(a * a > range) by (nonlinear_arith)
        requires
            a >= s + 1,
            s >= 0,
            range < (s + 1) * (s + 1),
    ;
    if e > 0 {
        lemma_pow2_unfold(e);
        let h = pow2((e - 1) as nat) as int;
        assert(a / 2 == h);
        lemma_pow2_pos((e - 1) as nat);
        assert(h * h <= range) by (nonlinear_arith)
            requires
                0 <= h <= s,
                s * s <= range,
        ;
    }
}

/// Of two distinct powers of two, the smaller is at most half the larger.
proof fn lemma_pow2_at_most_half(p1: int, p2: int)
    requires
        is_power_of_two(p1),
        is_power_of_two(p2),
        p1 < p2,
    ensures
        p2 != 1,
        p1 <= p2 / 2,
{
    let e1 = choose|e: nat| pow2(e) == p1;
    let e2 = choose|e: nat| pow2(e) == p2;
    if e2 <= e1 {
        if e2 < e1 {
            lemma_pow2_strictly_increases(e2, e1);
        }
    } else {
        lemma_pow2_unfold(e2);
        lemma_pow2_pos(e1);
        if e1 < e2 - 1 {
            lemma_pow2_strictly_increases(e1, (e2 - 1) as nat);
        }
    }
}

/// The least power of two whose square exceeds `range` is below every other
/// power of two with that property.
proof fn lemma_square_least(range: int, a1: int, a2: int)
    requires
        is_power_of_two(a1),
        is_power_of_two(a2),
        a1 * a1 > range,
        a2 == 1 || (a2 / 2) * (a2 / 2) <= range,
    ensures
        a2 <= a1,
{
    if a1 < a2 {
        lemma_pow2_at_most_half(a1, a2);
        let h = a2 / 2;
        let e1 = choose|e: nat| pow2(e) == a1;
        lemma_pow2_pos(e1);
        assert(a1 * a1 <= h * h) by (nonlinear_arith)
            requires
                0 <= a1 <= h,
        ;
    }
}

/// The fourth word of the round function's initial state; it keeps an
/// all-zero input from mixing to an all-zero output.
pub const MIX_CONSTANT: u64 = 0xf3016d19bc9ad940;

/// 64-bit circular left rotation of `x` by `n` bits.
pub open spec fn rotl(x: u64, n: u64) -> u64 {
    (x << n) | (x >> ((64 - n) as u64))
}

/// One add-rotate-xor transform of the four-word mixing state.
pub open spec fn sip_round(v: (u64, u64, u64, u64)) -> (u64, u64, u64, u64) {
    let v0 = wrapping_add(v.0, v.1);
    let v2 = wrapping_add(v.2, v.3);
    let v1 = rotl(v.1, 13) ^ v0;
    let v3 = rotl(v.3, 16) ^ v2;
    let v0 = rotl(v0, 32);
    let v2 = wrapping_add(v2, v1);
    let v0 = wrapping_add(v0, v3);
    let v1 = rotl(v1, 17) ^ v2;
    let v3 = rotl(v3, 21) ^ v0;
    let v2 = rotl(v2, 32);
    (v0, v1, v2, v3)
}

/// The keyed round function: four transforms of `(round, input, seed, MIX_CONSTANT)`,
/// keeping the first word.
pub open spec fn mix(round: u64, input: u64, seed: u64) -> u64 {
    sip_round(sip_round(sip_round(sip_round((round, input, seed, MIX_CONSTANT))))).0
}

/// Rotates `x` left by `n` bits, `0 < n < 64`.
fn rotate_left(x: u64, n: u64) -> (r: u64)
    requires
        0 < n < 64,
    ensures
        r == rotl(x, n),
{
    (x << n) | (x >> (64 - n))
}

/// Masking a wrapped sum to `e` bits gives the sum modulo `2^e`.
proof fn lemma_masked_sum(x: u64, y: u64, e: nat)
    requires
        e < 64,
    ensures
        wrapping_add(x, y) & ((pow2(e) - 1) as u64) == (x + y) % (pow2(e) as int),
{
    let w = wrapping_add(x, y);
    lemma_u64_low_bits_mask_is_mod(w, e);
    lemma_u64_pow2_no_overflow(e);
    lemma_pow2_pos(e);
    if x + y > u64::MAX {
        lemma_pow2_adds(e, (64 - e) as nat);
        lemma2_to64();
        assert(pow2(64) == 0x1_0000_0000_0000_0000) by {
            lemma2_to64_rest();
        }
        lemma_mod_multiples_vanish(pow2((64 - e) as nat) as int, w as int, pow2(e) as int);
    }
}

/// Relies on nothing but the operating system's randomness, through
/// `rand::random`: any `u64` may come back.
#[verifier::external_body]
fn random_seed() -> u64 {
    rand::random::<u64>()
}

/// A bijective pseudorandom permutation of `[0, range)`.
///
/// Values are split into a low half of `a_bits` bits and a high half, run
/// through a Feistel network on the covering domain `[0, a * b)`, and walked
/// along their cycle until they fall back into `[0, range)`.
pub struct BlackRockGenerator {
    range: u64,
    seed: u64,
    rounds: usize,
    a_bits: u32,
    a_mask: u64,
    b_mask: u64,
}

impl Default for BlackRockGenerator {
    /// A generator over the empty range.
    fn default() -> (g: Self)
        ensures
            g.wf(),
            g.spec_range() == 0,
            g.spec_rounds() == 3,
    {
        Self::new(0)
    }
}

impl BlackRockGenerator {
    /// The exclusive upper bound of the permuted domain.
    pub closed spec fn spec_range(&self) -> u64 {
        self.range
    }

    /// The key of the round function.
    pub closed spec fn spec_seed(&self) -> u64 {
        self.seed
    }

    /// The number of Feistel rounds.
    pub closed spec fn spec_rounds(&self) -> usize {
        self.rounds
    }

    /// Size of the low half of the covering domain.
    pub closed spec fn spec_a(&self) -> int {
        self.a_mask + 1
    }

    /// Size of the high half of the covering domain.
    pub closed spec fn spec_b(&self) -> int {
        self.b_mask + 1
    }

    /// The configuration is the one derived from its range.
    pub closed spec fn wf(&self) -> bool {
        &&& derived_halves(self.range as int, self.a_mask + 1, self.b_mask + 1)
        &&& self.a_bits <= 32
        &&& self.a_mask + 1 == pow2(self.a_bits as nat)
        &&& self.b_mask + 1 <= self.a_mask + 1
        &&& self.a_mask < 0x1_0000_0000
    }

    /// Width of the half that round `j` writes: `a` on odd rounds, `b` on even ones.
    spec fn half(&self, j: int) -> int {
        if j % 2 == 1 {
            self.a_mask + 1
        } else {
            self.b_mask + 1
        }
    }

    /// The Feistel state after rounds `j ..= rounds` have been applied to `(l, r)`.
    spec fn feistel(&self, l: int, r: int, j: int) -> (int, int)
        decreases self.rounds + 1 - j,
    {
        if j < 1 || j > self.rounds {
            (l, r)
        } else {
            self.feistel(r, (l + mix(j as u64, r as u64, self.seed)) % self.half(j), j + 1)
        }
    }

    /// One pass of the Feistel network over the covering domain `[0, a * b)`.
    pub closed spec fn permute(&self, m: int) -> int {
        let a = self.a_mask + 1;
        let lr = self.feistel(m % a, m / a, 1);
        if self.rounds % 2 == 1 {
            lr.0 * a + lr.1
        } else {
            lr.1 * a + lr.0
        }
    }

    /// `n` passes of the Feistel network, starting from `m`.
    pub closed spec fn iterate(&self, m: int, n: nat) -> int
        decreases n,
    {
        if n == 0 {
            m
        } else {
            self.permute(self.iterate(m, (n - 1) as nat))
        }
    }

    /// The cycle walk from `m` stops after `k` passes: the `k`-th point after
    /// `m` on its orbit is the first one inside `[0, range)`.
    pub closed spec fn stops_at(&self, m: int, k: nat) -> bool {
        &&& 1 <= k
        &&& self.iterate(m, k) < self.range
        &&& forall|t: nat| 1 <= t < k ==> #[trigger] self.iterate(m, t) >= self.range
    }

    /// The value of the permutation of `[0, range)` at `m`: the first point
    /// after `m` on its Feistel orbit that lies in `[0, range)`.
    pub closed spec fn spec_shuffle(&self, m: int) -> int {
        self.iterate(m, choose|k: nat| self.stops_at(m, k))
    }

    /// Each round keeps both halves within their widths.
    proof fn lemma_feistel_bounds(&self, l: int, r: int, j: int)
        requires
            self.wf(),
            1 <= j <= self.rounds + 1,
            0 <= l < self.half(j),
            0 <= r < self.half(j - 1),
        ensures
            0 <= self.feistel(l, r, j).0 < self.half(self.rounds + 1),
            0 <= self.feistel(l, r, j).1 < self.half(self.rounds as int),
        decreases self.rounds + 1 - j,
    {
        if j <= self.rounds {
            let f = mix(j as u64, r as u64, self.seed);
            lemma_mod_bound(l + f, self.half(j));
            self.lemma_feistel_bounds(r, (l + f) % self.half(j), j + 1);
        }
    }

    /// The rounds `j ..= rounds` are injective on states whose halves are in range.
    proof fn lemma_feistel_injective(&self, l1: int, r1: int, l2: int, r2: int, j: int)
        requires
            self.wf(),
            1 <= j <= self.rounds + 1,
            0 <= l1 < self.half(j),
            0 <= r1 < self.half(j - 1),
            0 <= l2 < self.half(j),
            0 <= r2 < self.half(j - 1),
            self.feistel(l1, r1, j) == self.feistel(l2, r2, j),
        ensures
            l1 == l2,
            r1 == r2,
        decreases self.rounds + 1 - j,
    {
        if j <= self.rounds {
            let h = self.half(j);
            let f1 = mix(j as u64, r1 as u64, self.seed);
            let f2 = mix(j as u64, r2 as u64, self.seed);
            lemma_mod_bound(l1 + f1, h);
            lemma_mod_bound(l2 + f2, h);
            self.lemma_feistel_injective(r1, (l1 + f1) % h, r2, (l2 + f2) % h, j + 1);
            lemma_fundamental_div_mod(l1 + f1, h);
            lemma_fundamental_div_mod(l2 + f1, h);
            let q1 = (l1 + f1) / h;
            let q2 = (l2 + f1) / h;
            assert(l1 == l2) by (nonlinear_arith)
                requires
                    l1 + f1 == h * q1 + (l1 + f1) % h,
                    l2 + f1 == h * q2 + (l2 + f1) % h,
                    (l1 + f1) % h == (l2 + f1) % h,
                    0 <= l1 < h,
                    0 <= l2 < h,
            {
                if q1 > q2 {
                    assert(h * q1 >= h * (q2 + 1));
                } else if q1 < q2 {
                    assert(h * q2 >= h * (q1 + 1));
                }
            }
        }
    }

    /// One pass maps the covering domain into itself.
    proof fn lemma_permute_bounds(&self, m: int)
        requires
            self.wf(),
            0 <= m < self.spec_a() * self.spec_b(),
        ensures
            0 <= self.permute(m) < self.spec_a() * self.spec_b(),
    {
        let a = self.spec_a();
        let b = self.spec_b();
        self.lemma_split(m);
        self.lemma_feistel_bounds(m % a, m / a, 1);
        let lr = self.feistel(m % a, m / a, 1);
        if self.rounds % 2 == 1 {
            assert(0 <= lr.0 * a + lr.1 < a * b) by (nonlinear_arith)
                requires
                    0 <= lr.0 < b,
                    0 <= lr.1 < a,
            ;
        } else {
            assert(0 <= lr.1 * a + lr.0 < a * b) by (nonlinear_arith)
                requires
                    0 <= lr.1 < b,
                    0 <= lr.0 < a,
            ;
        }
    }

    /// Splitting a value of the covering domain into its low and high halves.
    proof fn lemma_split(&self, m: int)
        requires
            self.wf(),
            0 <= m < self.spec_a() * self.spec_b(),
        ensures
            0 <= m % self.spec_a() < self.spec_a(),
            0 <= m / self.spec_a() < self.spec_b(),
            m == self.spec_a() * (m / self.spec_a()) + m % self.spec_a(),
    {
        let a = self.spec_a();
        let b = self.spec_b();
        lemma_fundamental_div_mod(m, a);
        lemma_mod_bound(m, a);
        lemma_div_pos_is_pos(m, a);
        assert(a * b == b * a) by (nonlinear_arith);
        lemma_div_by_multiple_is_strongly_ordered(m, a * b, b, a);
        lemma_div_multiples_vanish(b, a);
    }

    /// One pass is injective on the covering domain.
    proof fn lemma_permute_injective(&self, m1: int, m2: int)
        requires
            self.wf(),
            0 <= m1 < self.spec_a() * self.spec_b(),
            0 <= m2 < self.spec_a() * self.spec_b(),
            self.permute(m1) == self.permute(m2),
        ensures
            m1 == m2,
    {
        let a = self.spec_a();
        self.lemma_split(m1);
        self.lemma_split(m2);
        self.lemma_feistel_bounds(m1 % a, m1 / a, 1);
        self.lemma_feistel_bounds(m2 % a, m2 / a, 1);
        let p = self.feistel(m1 % a, m1 / a, 1);
        let q = self.feistel(m2 % a, m2 / a, 1);
        if self.rounds % 2 == 1 {
            lemma_fundamental_div_mod_converse(p.0 * a + p.1, a, p.0, p.1);
            lemma_fundamental_div_mod_converse(q.0 * a + q.1, a, q.0, q.1);
        } else {
            lemma_fundamental_div_mod_converse(p.1 * a + p.0, a, p.1, p.0);
            lemma_fundamental_div_mod_converse(q.1 * a + q.0, a, q.1, q.0);
        }
        assert(p == q);
        self.lemma_feistel_injective(m1 % a, m1 / a, m2 % a, m2 / a, 1);
    }

    /// Any number of passes keeps a value inside the covering domain.
    proof fn lemma_iterate_bounds(&self, m: int, n: nat)
        requires
            self.wf(),
            0 <= m < self.spec_a() * self.spec_b(),
        ensures
            0 <= self.iterate(m, n) < self.spec_a() * self.spec_b(),
        decreases n,
    {
        if n > 0 {
            self.lemma_iterate_bounds(m, (n - 1) as nat);
            self.lemma_permute_bounds(self.iterate(m, (n - 1) as nat));
        }
    }

    /// `q` passes after `p` passes are `p + q` passes.
    proof fn lemma_iterate_add(&self, m: int, p: nat, q: nat)
        ensures
            self.iterate(self.iterate(m, p), q) == self.iterate(m, p + q),
        decreases q,
    {
        if q > 0 {
            self.lemma_iterate_add(m, p, (q - 1) as nat);
        }
    }

    /// `n` passes are injective on the covering domain.
    proof fn lemma_iterate_injective(&self, x: int, y: int, n: nat)
        requires
            self.wf(),
            0 <= x < self.spec_a() * self.spec_b(),
            0 <= y < self.spec_a() * self.spec_b(),
            self.iterate(x, n) == self.iterate(y, n),
        ensures
            x == y,
        decreases n,
    {
        if n > 0 {
            let n1 = (n - 1) as nat;
            self.lemma_iterate_bounds(x, n1);
            self.lemma_iterate_bounds(y, n1);
            self.lemma_permute_injective(self.iterate(x, n1), self.iterate(y, n1));
            self.lemma_iterate_injective(x, y, n1);
        }
    }

    /// Every orbit of the Feistel network returns to its start within `a * b` passes.
    proof fn lemma_orbit_returns(&self, m: int) -> (p: nat)
        requires
            self.wf(),
            0 <= m < self.spec_a() * self.spec_b(),
        ensures
            1 <= p <= self.spec_a() * self.spec_b(),
            self.iterate(m, p) == m,
    {
        let n = self.spec_a() * self.spec_b();
        let f = |k: int| self.iterate(m, k as nat);
        let steps = set_int_range(0, n + 1);
        let dom = set_int_range(0, n);
        lemma_int_range(0, n + 1);
        lemma_int_range(0, n);
        assert(steps.map(f).subset_of(dom)) by {
            assert forall|v: int| #[trigger] steps.map(f).contains(v) implies dom.contains(v) by {
                let k = choose|k: int| steps.contains(k) && f(k) == v;
                self.lemma_iterate_bounds(m, k as nat);
            }
        }
        lemma_len_subset(steps.map(f), dom);
        if injective_on(f, steps) {
            lemma_map_size(steps, steps.map(f), f);
            assert(false);
        }
        let (i, j) = choose|i: int, j: int|
            steps.contains(i) && steps.contains(j) && f(i) == f(j) && i != j;
        let (i, j) = if i < j { (i, j) } else { (j, i) };
        let d = (j - i) as nat;
        self.lemma_iterate_add(m, d, i as nat);
        self.lemma_iterate_bounds(m, d);
        self.lemma_iterate_injective(self.iterate(m, d), m, i as nat);
        d
    }

    /// The stopping point of a cycle walk is unique.
    proof fn lemma_stops_unique(&self, m: int, k1: nat, k2: nat)
        requires
            self.stops_at(m, k1),
            self.stops_at(m, k2),
        ensures
            k1 == k2,
    {
        if k1 < k2 {
            assert(self.iterate(m, k1) >= self.range);
        } else if k2 < k1 {
            assert(self.iterate(m, k2) >= self.range);
        }
    }

    /// The covering domain contains `[0, range)`.
    proof fn lemma_domain_covers(&self)
        requires
            self.wf(),
        ensures
            self.range < self.spec_a() * self.spec_b(),
    {
        let a = self.spec_a();
        let b = self.spec_b();
        let r = self.range as int;
        lemma_fundamental_div_mod(r, a);
        lemma_mod_bound(r, a);
        assert(r < a * b) by (nonlinear_arith)
            requires
                r == a * (r / a) + r % a,
                r % a < a,
                b >= r / a + 1,
                a >= 1,
        ;
    }

    /// The index `m` in `[0, range)` maps to a value in `[0, range)`.
    proof fn lemma_shuffle_value(&self, m: int) -> (k: nat)
        requires
            self.wf(),
            0 <= m < self.range,
        ensures
            self.stops_at(m, k),
            self.spec_shuffle(m) == self.iterate(m, k),
            0 <= self.spec_shuffle(m) < self.range,
    {
        self.lemma_domain_covers();
        let p = self.lemma_orbit_returns(m);
        let k = self.lemma_first_stop(m, p, 1);
        let c = choose|c: nat| self.stops_at(m, c);
        self.lemma_stops_unique(m, k, c);
        self.lemma_iterate_bounds(m, k);
        k
    }

    /// Searching the orbit from pass `k` on finds a stop no later than the
    /// return to `m`.
    proof fn lemma_first_stop(&self, m: int, p: nat, k: nat) -> (s: nat)
        requires
            0 <= m < self.range,
            1 <= k <= p,
            self.iterate(m, p) == m,
            forall|t: nat| 1 <= t < k ==> #[trigger] self.iterate(m, t) >= self.range,
        ensures
            self.stops_at(m, s),
            s <= p,
        decreases p - k,
    {
        if self.iterate(m, k) < self.range {
            k
        } else {
            self.lemma_first_stop(m, p, k + 1)
        }
    }

    /// Two walks that end on the same value, the first no longer than the
    /// second, start from the same index.
    proof fn lemma_no_collision(&self, i: int, j: int, ki: nat, kj: nat)
        requires
            self.wf(),
            0 <= i < self.range,
            0 <= j < self.range,
            self.stops_at(i, ki),
            self.stops_at(j, kj),
            ki <= kj,
            self.iterate(i, ki) == self.iterate(j, kj),
        ensures
            i == j,
    {
        self.lemma_domain_covers();
        let d = (kj - ki) as nat;
        self.lemma_iterate_add(j, d, ki);
        self.lemma_iterate_bounds(j, d);
        self.lemma_iterate_injective(i, self.iterate(j, d), ki);
        if d > 0 {
            assert(self.iterate(j, d) >= self.range);
        }
    }

    /// The exponent of `b`.
    proof fn lemma_b_bits(&self) -> (eb: nat)
        requires
            self.wf(),
        ensures
            pow2(eb) == self.b_mask + 1,
            eb <= 32,
    {
        let eb = choose|e: nat| pow2(e) == self.b_mask + 1;
        if eb > 32 {
            lemma_pow2_strictly_increases(32, eb);
            lemma2_to64();
        }
        eb
    }

    /// Maps `m` in `[0, range)` to its place in the permutation, walking its
    /// Feistel orbit until it falls back into `[0, range)`. The walk ends at
    /// the latest when the orbit returns to `m`.
    pub fn shuffle(&self, m: u64) -> (r: u64)
        requires
            self.wf(),
            m < self.spec_range(),
        ensures
            r < self.spec_range(),
            r == self.spec_shuffle(m as int),
    {
        proof {
            self.lemma_domain_covers();
        }
        let ghost p = self.lemma_orbit_returns(m as int);
        let mut c = self.encrypt(m);
        let ghost mut k: nat = 1;
        assert(self.iterate(m as int, 0) == m);
        while c >= self.range
            invariant
                self.wf(),
                m < self.range < self.spec_a() * self.spec_b(),
                c < self.spec_a() * self.spec_b(),
                1 <= k <= p,
                self.iterate(m as int, p) == m,
                c == self.iterate(m as int, k),
                forall|t: nat| 1 <= t < k ==> #[trigger] self.iterate(m as int, t) >= self.range,
            decreases p - k,
        {
            c = self.encrypt(c);
            proof {
                k = k + 1;
            }
        }
        proof {
            let s = self.lemma_shuffle_value(m as int);
            self.lemma_stops_unique(m as int, k, s);
        }
        c
    }

    /// The derived halves are powers of two whose product covers `[0, range)`.
    pub proof fn lemma_parameters(&self)
        requires
            self.wf(),
        ensures
            derived_halves(self.spec_range() as int, self.spec_a(), self.spec_b()),
            is_power_of_two(self.spec_a()),
            is_power_of_two(self.spec_b()),
            self.spec_a() * self.spec_b() >= self.spec_range(),
    {
        self.lemma_domain_covers();
    }

    /// Every index of `[0, range)` is shuffled to a value of `[0, range)`.
    pub proof fn lemma_shuffle_range(&self, m: int)
        requires
            self.wf(),
            0 <= m < self.spec_range(),
        ensures
            0 <= self.spec_shuffle(m) < self.spec_range(),
    {
        self.lemma_shuffle_value(m);
    }

    /// Distinct indices of `[0, range)` are shuffled to distinct values.
    pub proof fn lemma_shuffle_injective(&self, i: int, j: int)
        requires
            self.wf(),
            0 <= i < self.spec_range(),
            0 <= j < self.spec_range(),
            i != j,
        ensures
            self.spec_shuffle(i) != self.spec_shuffle(j),
    {
        let ki = self.lemma_shuffle_value(i);
        let kj = self.lemma_shuffle_value(j);
        if self.spec_shuffle(i) == self.spec_shuffle(j) {
            if ki <= kj {
                self.lemma_no_collision(i, j, ki, kj);
            } else {
                self.lemma_no_collision(j, i, kj, ki);
            }
        }
    }

    /// Every value of `[0, range)` is the shuffle of some index of `[0, range)`.
    pub proof fn lemma_shuffle_onto(&self, y: int)
        requires
            self.wf(),
            0 <= y < self.spec_range(),
        ensures
            exists|i: int| 0 <= i < self.spec_range() && self.spec_shuffle(i) == y,
    {
        let dom = set_int_range(0, self.range as int);
        let f = |i: int| self.spec_shuffle(i);
        lemma_int_range(0, self.range as int);
        assert(injective_on(f, dom)) by {
            assert forall|x1: int, x2: int|
                dom.contains(x1) && dom.contains(x2) && #[trigger] f(x1) == #[trigger] f(x2)
                implies x1 == x2 by {
                if x1 != x2 {
                    self.lemma_shuffle_injective(x1, x2);
                }
            }
        }
        lemma_map_size(dom, dom.map(f), f);
        assert(dom.map(f).subset_of(dom)) by {
            assert forall|v: int| #[trigger] dom.map(f).contains(v) implies dom.contains(v) by {
                let i = choose|i: int| dom.contains(i) && f(i) == v;
                self.lemma_shuffle_value(i);
            }
        }
        lemma_subset_equality(dom.map(f), dom);
        assert(dom.map(f).contains(y));
    }

    /// The cycle walk from an index of `[0, range)` stops after at most
    /// `a * b` passes of the Feistel network.
    pub proof fn lemma_walk_bounded(&self, m: int)
        requires
            self.wf(),
            0 <= m < self.spec_range(),
        ensures
            exists|k: nat| self.stops_at(m, k) && k <= self.spec_a() * self.spec_b(),
    {
        self.lemma_domain_covers();
        let p = self.lemma_orbit_returns(m);
        self.lemma_first_stop(m, p, 1);
    }

    /// Generators built from the same range, seed and rounds shuffle every
    /// index alike.
    pub proof fn lemma_deterministic(g1: &Self, g2: &Self, i: int)
        requires
            g1.wf(),
            g2.wf(),
            g1.spec_range() == g2.spec_range(),
            g1.spec_seed() == g2.spec_seed(),
            g1.spec_rounds() == g2.spec_rounds(),
        ensures
            g1.spec_shuffle(i) == g2.spec_shuffle(i),
    {
        let range = g1.range as int;
        let (a1, a2) = (g1.spec_a(), g2.spec_a());
        if a1 < a2 {
            lemma_square_least(range, a1, a2);
        } else if a2 < a1 {
            lemma_square_least(range, a2, a1);
        }
        let q = range / a1;
        let (b1, b2) = (g1.spec_b(), g2.spec_b());
        if b1 < b2 {
            lemma_pow2_at_most_half(b1, b2);
        } else if b2 < b1 {
            lemma_pow2_at_most_half(b2, b1);
        }
        if g1.a_bits < g2.a_bits {
            lemma_pow2_strictly_increases(g1.a_bits as nat, g2.a_bits as nat);
        } else if g2.a_bits < g1.a_bits {
            lemma_pow2_strictly_increases(g2.a_bits as nat, g1.a_bits as nat);
        }
        assert(g1 == g2);
    }

    /// One add-rotate-xor transform of the mixing state.
    fn sipround(&self, v: (u64, u64, u64, u64)) -> (r: (u64, u64, u64, u64))
        ensures
            r == sip_round(v),
    {
        let (mut v0, mut v1, mut v2, mut v3) = v;
        v0 = v0.wrapping_add(v1);
        v2 = v2.wrapping_add(v3);
        v1 = rotate_left(v1, 13) ^ v0;
        v3 = rotate_left(v3, 16) ^ v2;
        v0 = rotate_left(v0, 32);

        v2 = v2.wrapping_add(v1);
        v0 = v0.wrapping_add(v3);
        v1 = rotate_left(v1, 17) ^ v2;
        v3 = rotate_left(v3, 21) ^ v0;
        v2 = rotate_left(v2, 32);

        (v0, v1, v2, v3)
    }

    /// The round function of round `j` on the half `right`.
    fn round(&self, j: usize, right: u64) -> (r: u64)
        ensures
            r == mix(j as u64, right, self.seed),
    {
        let v = self.sipround((j as u64, right, self.seed, MIX_CONSTANT));
        let v = self.sipround(v);
        let v = self.sipround(v);
        self.sipround(v).0
    }

    /// One pass of the Feistel network: split `m`, run the rounds, merge.
    fn encrypt(&self, m: u64) -> (c: u64)
        requires
            self.wf(),
            m < self.spec_a() * self.spec_b(),
        ensures
            c == self.permute(m as int),
            c < self.spec_a() * self.spec_b(),
    {
        let ghost a = self.a_mask + 1;
        let ghost b = self.b_mask + 1;
        let ghost eb = self.lemma_b_bits();
        proof {
            lemma_u64_low_bits_mask_is_mod(m, self.a_bits as nat);
            lemma_u64_shr_is_div(m, self.a_bits as u64);
            lemma_pow2_pos(self.a_bits as nat);
            assert(m as int / a < b) by {
                assert(a * b == b * a) by (nonlinear_arith);
                lemma_div_by_multiple_is_strongly_ordered(m as int, a * b, b, a);
                lemma_div_multiples_vanish(b, a);
            }
        }
        let mut left = m & self.a_mask;
        let mut right = m >> (self.a_bits as u64);
        let mut i: usize = 0;
        while i < self.rounds
            invariant
                self.wf(),
                a == self.a_mask + 1,
                b == self.b_mask + 1,
                pow2(eb) == b,
                eb <= 32,
                i <= self.rounds,
                left < self.half(i + 1),
                right < self.half(i as int),
                self.feistel(left as int, right as int, i + 1) == self.feistel(m as int % a, m as int / a, 1),
            decreases self.rounds - i,
        {
            let j = i + 1;
            let f = self.round(j, right);
            let tmp;
            if j % 2 == 1 {
                proof {
                    lemma_masked_sum(left, f, self.a_bits as nat);
                }
                tmp = left.wrapping_add(f) & self.a_mask;
            } else {
                proof {
                    lemma_masked_sum(left, f, eb);
                }
                tmp = left.wrapping_add(f) & self.b_mask;
            }
            proof {
                lemma_mod_bound(left + f, self.half(j as int));
            }
            left = right;
            right = tmp;
            i = j;
        }
        proof {
            assert(a * b <= 0x1_0000_0000_0000_0000) by (nonlinear_arith)
                requires
                    1 <= b <= a,
                    a <= 0x1_0000_0000,
            ;
        }
        if self.rounds % 2 == 1 {
            proof {
                assert(left * a + right < a * b) by (nonlinear_arith)
                    requires
                        left < b,
                        right < a,
                ;
                lemma_u64_shl_is_mul(left, self.a_bits as u64);
            }
            (left << (self.a_bits as u64)) + right
        } else {
            proof {
                assert(right * a + left < a * b) by (nonlinear_arith)
                    requires
                        right < b,
                        left < a,
                ;
                lemma_u64_shl_is_mul(right, self.a_bits as u64);
            }
            (right << (self.a_bits as u64)) + left
        }
    }

    /// Creates a generator of the permutation of `[0, range)` keyed by `seed`,
    /// with `rounds` Feistel rounds.
    pub fn with_seed_and_rounds(range: u64, seed: u64, rounds: usize) -> (g: Self)
        ensures
            g.wf(),
            g.spec_range() == range,
            g.spec_seed() == seed,
            g.spec_rounds() == rounds,
            derived_halves(range as int, g.spec_a(), g.spec_b()),
    {
        let s = int_sqrt(range);
        proof {
            assert(s <= 0xffff_ffff) by (nonlinear_arith)
                requires
                    s * s <= range,
                    range <= u64::MAX,
            ;
        }
        let (a, a_bits) = next_power_of_two(s + 1);
        proof {
            lemma_square_exceeds(range as int, s as int, a_bits as nat);
            lemma_pow2_pos(a_bits as nat);
        }
        let q = range / a;
        proof {
            assert(q < a) by (nonlinear_arith)
                requires
                    a * a > range,
                    a >= 1,
                    q == range / a,
            {
                lemma_fundamental_div_mod(range as int, a as int);
                lemma_mod_pos_bound(range as int, a as int);
            }
        }
        let (b, b_bits) = next_power_of_two(q + 1);
        proof {
            lemma_pow2_pos(b_bits as nat);
            lemma2_to64();
            assert(b <= a) by {
                if b_bits > a_bits {
                    if b_bits - 1 > a_bits {
                        lemma_pow2_strictly_increases(a_bits as nat, (b_bits - 1) as nat);
                    }
                }
                if b_bits < a_bits {
                    lemma_pow2_strictly_increases(b_bits as nat, a_bits as nat);
                }
            }
            if b_bits > 0 {
                lemma_pow2_unfold(b_bits as nat);
            }
            assert(is_power_of_two(a as int));
            assert(is_power_of_two(b as int));
        }
        BlackRockGenerator { range, seed, rounds, a_bits, a_mask: a - 1, b_mask: b - 1 }
    }

    /// Creates a generator keyed by `seed`, with the default three rounds.
    pub fn with_seed(range: u64, seed: u64) -> (g: Self)
        ensures
            g.wf(),
            g.spec_range() == range,
            g.spec_seed() == seed,
            g.spec_rounds() == 3,
            derived_halves(range as int, g.spec_a(), g.spec_b()),
    {
        Self::with_seed_and_rounds(range, seed, 3)
    }

    /// Creates a generator with a random seed and `rounds` rounds.
    pub fn with_rounds(range: u64, rounds: usize) -> (g: Self)
        ensures
            g.wf(),
            g.spec_range() == range,
            g.spec_rounds() == rounds,
            derived_halves(range as int, g.spec_a(), g.spec_b()),
    {
        Self::with_seed_and_rounds(range, random_seed(), rounds)
    }

    /// Creates a generator with a random seed and the default three rounds.
    pub fn new(range: u64) -> (g: Self)
        ensures
            g.wf(),
            g.spec_range() == range,
            g.spec_rounds() == 3,
            derived_halves(range as int, g.spec_a(), g.spec_b()),
    {
        Self::with_seed_and_rounds(range, random_seed(), 3)
    }
}

} // verus!
