//! Integer parts of the k-means build: the seeded Mulberry32 generator and
//! the draws of distinct record indices made with it.

use vstd::prelude::*;
use vstd::arithmetic::div_mod::{lemma_add_mod_noop, lemma_mod_multiples_vanish, lemma_fundamental_div_mod, lemma_small_mod};
use std::collections::HashSet;
use crate::nearest::UNREACHED_KEY;

verus! {

/// Increment added to the generator state before each output.
pub const GOLDEN_STEP: u32 = 0x6d2b79f5;

/// State that follows `s`.
pub open spec fn step_state(s: u32) -> u32 {
    s.wrapping_add(GOLDEN_STEP)
}

/// Mulberry32 output mixing of an (already advanced) state.
pub open spec fn mix(s: u32) -> u32 {
    let t1 = (s ^ (s >> 15u32)).wrapping_mul(s | 1u32);
    let t2 = t1 ^ t1.wrapping_add((t1 ^ (t1 >> 7u32)).wrapping_mul(t1 | 61u32));
    t2 ^ (t2 >> 14u32)
}

/// The 32-bit output produced by a generator whose state is `s`.
pub open spec fn output_u32(s: u32) -> u32 {
    mix(step_state(s))
}

/// Scales a 32-bit output into `[0, n)`: `floor(x * n / 2^32)`.
pub open spec fn scale_to_range(x: u32, n: usize) -> usize {
    ((x as nat * n as nat) / 0x1_0000_0000nat) as usize
}

/// Small seedable PRNG (Mulberry32). Not cryptographically secure; it is
/// used so that the same seed always produces the same build.
pub struct Rng {
    state: u32,
}

impl Rng {
    /// The generator's current state.
    pub closed spec fn state(&self) -> u32 {
        self.state
    }

    /// A generator seeded with the low 32 bits of `seed`.
    pub fn new(seed: u64) -> (r: Self)
        ensures
            r.state() == (seed % 0x1_0000_0000) as u32,
    {
        assert((seed % 0x1_0000_0000) as u32 == seed as u32) by (bit_vector);
        Rng { state: seed as u32 }
    }

    /// Advances the state by `GOLDEN_STEP` and returns the mixed output.
    pub fn next_u32(&mut self) -> (r: u32)
        ensures
            final(self).state() == step_state(old(self).state()),
            r == output_u32(old(self).state()),
    {
        self.state = self.state.wrapping_add(GOLDEN_STEP);
        let mut t = self.state;
        t = (t ^ (t >> 15)).wrapping_mul(t | 1);
        t ^= t.wrapping_add((t ^ (t >> 7)).wrapping_mul(t | 61));
        t ^ (t >> 14)
    }

    /// A draw in `[0, n)` (always 0 when `n == 0`).
    pub fn next_range(&mut self, n: usize) -> (r: usize)
        requires
            n <= 0x1_0000_0000,
        ensures
            final(self).state() == step_state(old(self).state()),
            r == scale_to_range(output_u32(old(self).state()), n),
            r as nat * 0x1_0000_0000 <= output_u32(old(self).state()) as nat * n as nat,
            (output_u32(old(self).state()) as nat * n as nat) < (r as nat + 1) * 0x1_0000_0000,
            n > 0 ==> r < n,
            n == 0 ==> r == 0,
    {
        let x = self.next_u32();
        let nn = n as u64;
        assert(x as u64 * nn <= 0xffff_ffffu64 * 0x1_0000_0000u64) by (nonlinear_arith)
            requires x <= 0xffff_ffffu64, nn <= 0x1_0000_0000u64;
        let prod = x as u64 * nn;
        proof {
            assert(prod / 0x1_0000_0000u64 < nn || nn == 0) by (nonlinear_arith)
                requires prod == x as u64 * nn, x < 0x1_0000_0000u64;
            assert(nn == 0 ==> prod == 0) by (nonlinear_arith)
                requires prod == x as u64 * nn;
        }
        let r = (prod / 0x1_0000_0000u64) as usize;
        proof {
            lemma_scale_is_floor(x, n);
        }
        r
    }
}

/// A draw scales the whole 32-bit output: it is `floor(x * n / 2^32)`, the
/// one value `r` with `r * 2^32 <= x * n < (r + 1) * 2^32`.
pub proof fn lemma_scale_is_floor(x: u32, n: usize)
    requires
        n <= 0x1_0000_0000,
    ensures
        scale_to_range(x, n) as nat * 0x1_0000_0000 <= x as nat * n as nat,
        (x as nat * n as nat) < (scale_to_range(x, n) as nat + 1) * 0x1_0000_0000,
{
    let p = x as nat * n as nat;
    assert(p <= 0xffff_ffff * 0x1_0000_0000) by (nonlinear_arith)
        requires x <= 0xffff_ffff, n <= 0x1_0000_0000, p == x as nat * n as nat;
    lemma_fundamental_div_mod(p as int, 0x1_0000_0000);
    let q = p / 0x1_0000_0000nat;
    assert(q < 0x1_0000_0000);
    assert(q as usize == q);
}

/// Every index below `n` is the draw of some 32-bit output, so a run of
/// draws can reach every index.
pub proof fn lemma_every_index_is_drawn(n: usize, i: usize)
    requires
        0 < n <= 0x1_0000_0000,
        i < n,
    ensures
        exists|x: u32| #[trigger] scale_to_range(x, n) == i,
{
    let nn = n as int;
    let a = i as int * 0x1_0000_0000 + nn - 1;
    let xi = a / nn;
    lemma_fundamental_div_mod(a, nn);
    let m = a % nn;
    assert(0 <= m < nn) by {
        vstd::arithmetic::div_mod::lemma_mod_pos_bound(a, nn);
    }
    assert(a == nn * xi + m);
    assert(0 <= xi < 0x1_0000_0000) by (nonlinear_arith)
        requires
            a == nn * xi + m,
            0 <= m < nn,
            0 < nn <= 0x1_0000_0000,
            0 <= i < nn,
            a == i * 0x1_0000_0000 + nn - 1,
    ;
    let x = xi as u32;
    assert(x as int == xi);
    let p = x as nat * n as nat;
    assert(p == nn * xi) by (nonlinear_arith)
        requires p == x as nat * n as nat, x as int == xi, nn == n as int;
    assert(i as int * 0x1_0000_0000 <= p < (i as int + 1) * 0x1_0000_0000);
    lemma_scale_is_floor(x, n);
    let r = scale_to_range(x, n) as int;
    assert(r * 0x1_0000_0000 <= p < (r + 1) * 0x1_0000_0000);
    assert(r == i);
}

/// Two generators seeded with values that agree in their low 32 bits
/// produce the same stream of states and outputs.
pub proof fn lemma_seed_determines_stream(seed1: u64, seed2: u64, m: nat)
    requires
        seed1 % 0x1_0000_0000 == seed2 % 0x1_0000_0000,
    ensures
        state_after((seed1 % 0x1_0000_0000) as u32, m) == state_after((seed2 % 0x1_0000_0000) as u32, m),
        output_u32(state_after((seed1 % 0x1_0000_0000) as u32, m)) == output_u32(
            state_after((seed2 % 0x1_0000_0000) as u32, m),
        ),
{
}

/// Number of distinct generator states: the state sequence repeats after
/// this many steps.
pub const PERIOD: u64 = 0x1_0000_0000;

/// State reached from `s` after `m` outputs.
pub open spec fn state_after(s: u32, m: nat) -> u32
    decreases m,
{
    if m == 0 {
        s
    } else {
        step_state(state_after(s, (m - 1) as nat))
    }
}

/// The draw in `[0, n)` made by a generator whose state is `s`.
pub open spec fn draw_at(s: u32, n: usize) -> usize {
    scale_to_range(output_u32(s), n)
}

/// The state after `m` steps is `s + m * GOLDEN_STEP` modulo 2^32.
pub proof fn lemma_state_after_closed_form(s: u32, m: nat)
    ensures
        state_after(s, m) as int == (s as int + m * GOLDEN_STEP as int) % (PERIOD as int),
    decreases m,
{
    let p = PERIOD as int;
    if m == 0 {
        lemma_small_mod(s as nat, p as nat);
    } else {
        let m1 = (m - 1) as nat;
        lemma_state_after_closed_form(s, m1);
        let x = state_after(s, m1) as int;
        let c = GOLDEN_STEP as int;
        lemma_small_mod(c as nat, p as nat);
        lemma_add_mod_noop(s as int + m1 * c, c, p);
        if x + c >= p {
            lemma_small_mod((x + c - p) as nat, p as nat);
            lemma_mod_multiples_vanish(1, x + c - p, p);
        } else {
            lemma_small_mod((x + c) as nat, p as nat);
        }
        assert(s as int + m1 * c + c == s as int + m * c) by (nonlinear_arith)
            requires
                m1 + 1 == m,
        ;
    }
}

/// The generator is periodic: after `PERIOD` steps it is back where it was.
pub proof fn lemma_period(s: u32, m: nat)
    ensures
        state_after(s, m) == state_after(s, m % (PERIOD as nat)),
{
    let p = PERIOD as int;
    let c = GOLDEN_STEP as int;
    let q = m as int / p;
    let r = m as int % p;
    lemma_fundamental_div_mod(m as int, p);
    lemma_state_after_closed_form(s, m);
    lemma_state_after_closed_form(s, (m % (PERIOD as nat)) as nat);
    assert(s as int + m * c == p * (q * c) + (s as int + r * c)) by (nonlinear_arith)
        requires
            m == p * q + r,
    ;
    lemma_mod_multiples_vanish(q * c, s as int + r * c, p);
}

/// Stepping once and then `m` times is stepping `m + 1` times.
pub proof fn lemma_state_after_step(s: u32, m: nat)
    ensures
        state_after(step_state(s), m) == state_after(s, m + 1),
    decreases m,
{
    if m > 0 {
        let m1 = (m - 1) as nat;
        lemma_state_after_step(s, m1);
        assert(state_after(step_state(s), m) == step_state(state_after(step_state(s), m1)));
        assert(state_after(s, m + 1) == step_state(state_after(s, m)));
        assert(m1 + 1 == m);
    } else {
        assert(state_after(s, 1) == step_state(state_after(s, 0)));
    }
}

/// The first draw, among at most `fuel` draws starting from state `s`, that
/// is not in `used`, with the state that follows it.
pub open spec fn first_fresh(s: u32, n: usize, used: Set<usize>, fuel: nat) -> Option<(usize, u32)>
    decreases fuel,
{
    if fuel == 0 {
        None
    } else if !used.contains(draw_at(s, n)) {
        Some((draw_at(s, n), step_state(s)))
    } else {
        first_fresh(step_state(s), n, used, (fuel - 1) as nat)
    }
}

/// Drawing until an index not yet used appears, `count` times over,
/// starting from state `s`: the indices in the order they were drawn and the
/// final state. `None` when some search goes a whole period without a new
/// index, after which it would never find one.
pub open spec fn distinct_draws(s: u32, n: usize, count: nat) -> Option<(Seq<usize>, u32)>
    decreases count,
{
    if count == 0 {
        Some((Seq::empty(), s))
    } else {
        match distinct_draws(s, n, (count - 1) as nat) {
            None => None,
            Some((picked, s1)) => match first_fresh(s1, n, picked.to_set(), PERIOD as nat) {
                None => None,
                Some((d, s2)) => Some((picked.push(d), s2)),
            },
        }
    }
}

/// When `fuel` draws from `s` all land in `used`, so do the first `fuel`
/// draws of the stream.
proof fn lemma_first_fresh_none(s: u32, n: usize, used: Set<usize>, fuel: nat)
    requires
        first_fresh(s, n, used, fuel) is None,
    ensures
        forall|m: nat| m < fuel ==> used.contains(#[trigger] draw_at(state_after(s, m), n)),
    decreases fuel,
{
    if fuel > 0 {
        lemma_first_fresh_none(step_state(s), n, used, (fuel - 1) as nat);
        assert forall|m: nat| m < fuel implies used.contains(
            #[trigger] draw_at(state_after(s, m), n),
        ) by {
            if m > 0 {
                lemma_state_after_step(s, (m - 1) as nat);
            }
        }
    }
}

/// A search that finds no new index within a whole period never finds one:
/// every later draw repeats one of the period's draws.
pub proof fn lemma_exhausted_search_never_ends(s: u32, n: usize, used: Set<usize>)
    requires
        first_fresh(s, n, used, PERIOD as nat) is None,
    ensures
        forall|m: nat| used.contains(#[trigger] draw_at(state_after(s, m), n)),
{
    lemma_first_fresh_none(s, n, used, PERIOD as nat);
    assert forall|m: nat| used.contains(#[trigger] draw_at(state_after(s, m), n)) by {
        lemma_period(s, m);
        let r = (m % (PERIOD as nat)) as nat;
        assert(used.contains(draw_at(state_after(s, r), n)));
    }
}

/// Draws from `rng` until an index not in `used` appears, gives up after a
/// whole period of draws.
fn next_fresh(rng: &mut Rng, used: &mut HashSet<usize>, n: usize) -> (r: Option<usize>)
    requires
        n <= 0x1_0000_0000,
    ensures
        match first_fresh(old(rng).state(), n, old(used)@, PERIOD as nat) {
            None => r is None,
            Some((d, s2)) => {
                &&& r == Some(d)
                &&& final(rng).state() == s2
                &&& final(used)@ == old(used)@.insert(d)
            },
        },
{
    broadcast use vstd::std_specs::hash::group_hash_axioms;

    let ghost s0 = rng.state();
    let ghost u0 = used@;
    let mut attempts: u64 = 0;
    while attempts < PERIOD
        invariant
            n <= 0x1_0000_0000,
            attempts <= PERIOD,
            s0 == old(rng).state(),
            u0 == old(used)@,
            used@ == u0,
            first_fresh(s0, n, u0, PERIOD as nat) == first_fresh(
                rng.state(),
                n,
                u0,
                (PERIOD - attempts) as nat,
            ),
        decreases PERIOD - attempts,
    {
        let ghost before = rng.state();
        let ghost fuel = (PERIOD - attempts) as nat;
        let pi = rng.next_range(n);
        assert(pi == draw_at(before, n));
        assert(first_fresh(before, n, u0, fuel) == if !u0.contains(pi) {
            Some((pi, step_state(before)))
        } else {
            first_fresh(step_state(before), n, u0, (fuel - 1) as nat)
        });
        attempts += 1;
        if used.insert(pi) {
            return Some(pi);
        }
        assert(u0.insert(pi) =~= u0);
    }
    None
}

/// Draws `count` distinct indices in `[0, n)` (or all zeros when `n == 0`),
/// each by drawing until an index not drawn before appears, as the k-means
/// seeding and the training sample do. `None` exactly when one of those
/// searches would never end (see `lemma_exhausted_search_never_ends`).
pub fn draw_distinct(rng: &mut Rng, count: usize, n: usize) -> (r: Option<Vec<usize>>)
    requires
        n <= 0x1_0000_0000,
    ensures
        match distinct_draws(old(rng).state(), n, count as nat) {
            None => r is None,
            Some((picked, s)) => {
                &&& r is Some
                &&& r->0@ == picked
                &&& final(rng).state() == s
            },
        },
        r matches Some(v) ==> {
            &&& v@.len() == count
            &&& v@.no_duplicates()
            &&& n > 0 ==> forall|i: int| 0 <= i < v@.len() ==> #[trigger] v@[i] < n
        },
{
    broadcast use vstd::std_specs::hash::group_hash_axioms;

    let ghost s0 = rng.state();
    let mut used: HashSet<usize> = HashSet::with_capacity(count);
    let mut picked: Vec<usize> = Vec::new();
    let mut t: usize = 0;
    while t < count
        invariant
            n <= 0x1_0000_0000,
            t <= count,
            s0 == old(rng).state(),
            distinct_draws(s0, n, t as nat) == Some((picked@, rng.state())),
            used@ == picked@.to_set(),
        decreases count - t,
    {
        match next_fresh(rng, &mut used, n) {
            None => {
                proof {
                    lemma_distinct_draws_stays_none(s0, n, (t + 1) as nat, count as nat);
                }
                return None;
            },
            Some(pi) => {
                proof {
                    picked@.lemma_push_to_set_commute(pi);
                }
                picked.push(pi);
            },
        }
        t += 1;
    }
    proof {
        lemma_distinct_draws_valid(s0, n, count as nat);
    }
    Some(picked)
}

/// Once a draw fails, every longer run of draws fails too.
pub proof fn lemma_distinct_draws_stays_none(s: u32, n: usize, c: nat, c2: nat)
    requires
        distinct_draws(s, n, c) is None,
        c <= c2,
    ensures
        distinct_draws(s, n, c2) is None,
    decreases c2 - c,
{
    if c < c2 {
        lemma_distinct_draws_stays_none(s, n, c, (c2 - 1) as nat);
    }
}

/// Drawn indices are distinct and lie in `[0, n)` when `n > 0`.
pub proof fn lemma_distinct_draws_valid(s: u32, n: usize, count: nat)
    requires
        distinct_draws(s, n, count) is Some,
    ensures
        ({
            let picked = (distinct_draws(s, n, count)->0).0;
            &&& picked.len() == count
            &&& picked.no_duplicates()
            &&& n > 0 ==> forall|i: int| 0 <= i < picked.len() ==> #[trigger] picked[i] < n
        }),
    decreases count,
{
    if count > 0 {
        lemma_distinct_draws_valid(s, n, (count - 1) as nat);
        let (p, s1) = distinct_draws(s, n, (count - 1) as nat)->0;
        lemma_first_fresh_found(s1, n, p.to_set(), PERIOD as nat);
        let d = (first_fresh(s1, n, p.to_set(), PERIOD as nat)->0).0;
        assert(!p.contains(d));
    }
}

proof fn lemma_first_fresh_found(s: u32, n: usize, used: Set<usize>, fuel: nat)
    requires
        first_fresh(s, n, used, fuel) is Some,
    ensures
        !used.contains((first_fresh(s, n, used, fuel)->0).0),
        n > 0 ==> (first_fresh(s, n, used, fuel)->0).0 < n,
    decreases fuel,
{
    if used.contains(draw_at(s, n)) {
        lemma_first_fresh_found(step_state(s), n, used, (fuel - 1) as nat);
    } else {
        if n > 0 {
            let x = output_u32(s) as nat;
            let nn = n as nat;
            assert((x * nn) / 0x1_0000_0000nat < nn) by (nonlinear_arith)
                requires
                    x < 0x1_0000_0000nat,
                    nn > 0,
            ;
        }
    }
}

/// Index of the nearest centroid given the keys of its distances: the
/// first index holding the smallest key, among keys below `UNREACHED_KEY`;
/// 0 when no key is below it.
pub fn nearest_centroid(keys: &[u32]) -> (r: u32)
    requires
        keys@.len() <= 0x1_0000_0000,
    ensures
        (exists|i: int| 0 <= i < keys@.len() && keys@[i] < UNREACHED_KEY) ==> {
            &&& r < keys@.len()
            &&& keys@[r as int] < UNREACHED_KEY
            &&& forall|i: int| 0 <= i < keys@.len() ==> keys@[r as int] <= #[trigger] keys@[i]
            &&& forall|i: int| 0 <= i < r ==> keys@[r as int] < #[trigger] keys@[i]
        },
        !(exists|i: int| 0 <= i < keys@.len() && keys@[i] < UNREACHED_KEY) ==> r == 0,
{
    let mut best_k: u32 = 0;
    let mut best = UNREACHED_KEY;
    let mut ki: usize = 0;
    while ki < keys.len()
        invariant
            ki <= keys@.len(),
            keys@.len() <= 0x1_0000_0000,
            best <= UNREACHED_KEY,
            forall|i: int| 0 <= i < ki ==> best <= #[trigger] keys@[i],
            best < UNREACHED_KEY ==> {
                &&& best_k < ki
                &&& keys@[best_k as int] == best
                &&& forall|i: int| 0 <= i < best_k ==> best < #[trigger] keys@[i]
            },
            best == UNREACHED_KEY ==> best_k == 0,
        decreases keys@.len() - ki,
    {
        if keys[ki] < best {
            best = keys[ki];
            best_k = ki as u32;
        }
        ki += 1;
    }
    best_k
}

/// Number of entries of `a` equal to `c`.
pub open spec fn count_in(a: Seq<u32>, c: int) -> nat
    decreases a.len(),
{
    if a.len() == 0 {
        0
    } else {
        count_in(a.drop_last(), c) + if a.last() == c {
            1nat
        } else {
            0nat
        }
    }
}

/// Sum of `count_in(a, c)` over the clusters `c < k`.
pub open spec fn count_total(a: Seq<u32>, k: nat) -> nat
    decreases k,
{
    if k == 0 {
        0
    } else {
        count_total(a, (k - 1) as nat) + count_in(a, k - 1)
    }
}

pub proof fn lemma_count_in_bounded(a: Seq<u32>, c: int)
    ensures
        count_in(a, c) <= a.len(),
    decreases a.len(),
{
    if a.len() > 0 {
        lemma_count_in_bounded(a.drop_last(), c);
    }
}

proof fn lemma_count_total_push(a: Seq<u32>, x: u32, k: nat)
    ensures
        count_total(a.push(x), k) == count_total(a, k) + if x < k {
            1nat
        } else {
            0nat
        },
    decreases k,
{
    assert(a.push(x).drop_last() =~= a);
    if k > 0 {
        lemma_count_total_push(a, x, (k - 1) as nat);
    }
}

/// When every entry names one of `k` clusters, the per-cluster counts add
/// up to the number of entries.
pub proof fn lemma_counts_add_up(a: Seq<u32>, k: nat)
    requires
        forall|i: int| 0 <= i < a.len() ==> #[trigger] a[i] < k,
    ensures
        count_total(a, k) == a.len(),
    decreases a.len(),
{
    if a.len() == 0 {
        lemma_count_total_empty(a, k);
    } else {
        let init = a.drop_last();
        lemma_counts_add_up(init, k);
        lemma_count_total_push(init, a.last(), k);
        assert(init.push(a.last()) =~= a);
    }
}

proof fn lemma_count_total_empty(a: Seq<u32>, k: nat)
    requires
        a.len() == 0,
    ensures
        count_total(a, k) == 0,
    decreases k,
{
    if k > 0 {
        lemma_count_total_empty(a, (k - 1) as nat);
    }
}

/// Number of points assigned to each of the `k` clusters.
pub fn count_assignments(assignments: &[u32], k: usize) -> (r: Vec<u32>)
    requires
        forall|i: int| 0 <= i < assignments@.len() ==> #[trigger] assignments@[i] < k,
        assignments@.len() <= u32::MAX,
    ensures
        r@.len() == k,
        forall|c: int| 0 <= c < k ==> #[trigger] r@[c] == count_in(assignments@, c),
{
    let mut counts: Vec<u32> = Vec::new();
    let mut c: usize = 0;
    while c < k
        invariant
            c <= k,
            counts@.len() == c,
            forall|j: int| 0 <= j < c ==> #[trigger] counts@[j] == 0,
        decreases k - c,
    {
        counts.push(0);
        c += 1;
    }
    let mut i: usize = 0;
    while i < assignments.len()
        invariant
            i <= assignments@.len(),
            assignments@.len() <= u32::MAX,
            forall|j: int| 0 <= j < assignments@.len() ==> #[trigger] assignments@[j] < k,
            counts@.len() == k,
            forall|j: int|
                0 <= j < k ==> #[trigger] counts@[j] == count_in(
                    assignments@.subrange(0, i as int),
                    j,
                ),
        decreases assignments@.len() - i,
    {
        let a = assignments[i] as usize;
        proof {
            lemma_count_in_bounded(assignments@.subrange(0, i as int), a as int);
            assert(assignments@.subrange(0, i + 1).drop_last() =~= assignments@.subrange(
                0,
                i as int,
            ));
        }
        let cur = counts[a];
        counts.set(a, cur + 1);
        i += 1;
    }
    assert(assignments@.subrange(0, assignments@.len() as int) =~= assignments@);
    counts
}

} // verus!
