//! Rounding to 53 significant bits, as IEEE 754 binary64 numbers have them,
//! carried out exactly on integers.
//!
//! A number is rounded to the nearest one that has 53 significant bits; of two
//! that are equally near, the one whose last bit is even is taken.

use vstd::prelude::*;

verus! {

/// 2 to the 52nd power.
pub const HALF_SPAN: u128 = 0x10_0000_0000_0000;

/// 2 to the 53rd power: whole numbers below it need no rounding.
pub const SPAN: u128 = 0x20_0000_0000_0000;

/// The whole number nearest to `n / d`, the even one of two equally near.
pub open spec fn nearest(n: nat, d: nat) -> nat {
    let q = n / d;
    let r = n % d;
    if 2 * r > d || (2 * r == d && q % 2 == 1) {
        q + 1
    } else {
        q
    }
}

/// How far apart the numbers of 53 significant bits are at `x`.
pub open spec fn step_at(x: nat) -> nat
    decreases x,
{
    if x < SPAN {
        1
    } else {
        2 * step_at(x / 2)
    }
}

/// A whole number rounded to 53 significant bits.
pub open spec fn round(x: nat) -> nat {
    nearest(x, step_at(x)) * step_at(x)
}

/// Rounding a quotient moves it by less than one.
proof fn lemma_nearest_range(n: nat, d: nat, k: nat)
    requires
        d > 0,
    ensures
        n / d <= nearest(n, d) <= n / d + 1,
        n <= k * d ==> nearest(n, d) <= k,
        n >= k * d ==> nearest(n, d) >= k,
{
    let q = n / d;
    let r = n % d;
    assert(n == q * d + r && 0 <= r < d) by (nonlinear_arith)
        requires
            d > 0,
            q == n / d,
            r == n % d,
    ;
    if n <= k * d {
        assert(q < k || (q == k && r == 0)) by (nonlinear_arith)
            requires
                n == q * d + r,
                0 <= r < d,
                n <= k * d,
        ;
    }
    if n >= k * d {
        assert(q >= k) by (nonlinear_arith)
            requires
                n == q * d + r,
                0 <= r < d,
                n >= k * d,
        ;
    }
}

/// The step fits the number.
proof fn lemma_step(x: nat)
    ensures
        step_at(x) > 0,
        x < SPAN * step_at(x),
        x >= SPAN ==> step_at(x) >= 2,
        x >= HALF_SPAN ==> HALF_SPAN * step_at(x) <= x,
    decreases x,
{
    if x >= SPAN {
        lemma_step(x / 2);
    }
}

/// A rounded number is at most twice the number.
proof fn lemma_round_bound(x: nat)
    ensures
        round(x) <= 2 * x,
        nearest(x, step_at(x)) <= SPAN,
{
    let u = step_at(x);
    lemma_step(x);
    lemma_nearest_range(x, u, SPAN as nat);
    if x < SPAN {
        lemma_nearest_range(x, 1, x);
        assert(u == 1);
    } else {
        let q = nearest(x, u) as int;
        assert(q * u <= 2 * x) by (nonlinear_arith)
            requires
                q <= 0x20_0000_0000_0000,
                0x10_0000_0000_0000 * u <= x,
                u > 0,
        ;
    }
}

fn nearest_of(n: u128, d: u128) -> (r: u128)
    requires
        d > 0,
        n / d < u128::MAX,
    ensures
        r == nearest(n as nat, d as nat),
{
    let q: u128 = n / d;
    let r: u128 = n % d;
    if r > d - r || (r == d - r && q % 2 == 1) {
        q + 1
    } else {
        q
    }
}

/// The step at a number.
fn step_of(x: u128) -> (r: u128)
    ensures
        r == step_at(x as nat),
        0 < r,
        x > 0 ==> r <= x,
{
    let mut y: u128 = x;
    let mut step: u128 = 1;
    while y >= SPAN
        invariant
            step > 0,
            step * y <= x,
            step_at(x as nat) == step * step_at(y as nat),
            y > 0 || x == y,
        decreases y,
    {
        let half: u128 = y / 2;
        assert(step * 2 * half <= x) by (nonlinear_arith)
            requires
                step * y <= x,
                2 * half <= y,
                step > 0,
        ;
        assert(step * 2 <= step * y) by (nonlinear_arith)
            requires
                y >= 2,
                step > 0,
        ;
        let ghost u = step_at(half as nat);
        assert(step * (2 * u) == (step * 2) * u) by (nonlinear_arith);
        step = step * 2;
        y = half;
    }
    assert(step * 1 == step);
    if x > 0 {
        assert(step <= step * y) by (nonlinear_arith)
            requires
                y >= 1,
                step > 0,
        ;
    }
    step
}

/// Rounds a whole number to 53 significant bits.
pub fn rounded(x: u128) -> (r: u128)
    requires
        x < 0x4000_0000_0000_0000_0000_0000_0000_0000,
    ensures
        r == round(x as nat),
        r <= 2 * x,
{
    let step: u128 = step_of(x);
    proof {
        lemma_round_bound(x as nat);
        assert(x / step <= x) by (nonlinear_arith)
            requires
                step > 0,
                x >= 0,
        ;
    }
    nearest_of(x, step) * step
}

/// Whether `y` is read back as `x`, for a number `x` of 53 significant bits and
/// more: `y` is nearer to `x` than to its neighbours, or, if `x` is even in its
/// last bit, just as near. (Below a power of two, neighbours are half as far
/// apart.) Distances are counted in quarters.
pub open spec fn reads_back(x: nat, y: nat) -> bool {
    let step = step_at(x);
    let m = x / step;
    let below = if m == HALF_SPAN { step } else { 2 * step };
    let above = 2 * step;
    if y <= x {
        4 * (x - y) < below || (4 * (x - y) == below && m % 2 == 0)
    } else {
        4 * (y - x) < above || (4 * (y - x) == above && m % 2 == 0)
    }
}

/// The multiple of `unit` nearest to `x` among the two around it that are read
/// back as `x`, the greater of two equally near; nothing, if neither is.
pub open spec fn fitting(x: nat, unit: nat) -> Option<nat> {
    let low = (x / unit) * unit;
    let high = low + unit;
    if reads_back(x, low) && (!reads_back(x, high) || 2 * (x - low) < unit) {
        Some(low)
    } else if reads_back(x, high) {
        Some(high)
    } else {
        None
    }
}

/// The shortest decimal number that is read back as `x`: a multiple of the
/// greatest power of ten, up to `unit`, that has a fitting multiple.
pub open spec fn shortest(x: nat, unit: nat) -> nat
    decreases unit,
{
    if unit <= 1 {
        x
    } else {
        match fitting(x, unit) {
            Some(y) => y,
            None => shortest(x, unit / 10),
        }
    }
}

/// 10 to the 20th power: more than any 64-bit number.
pub const TOP_UNIT: u128 = 100_000_000_000_000_000_000;

/// What a number shows as: rounded to 53 significant bits, and in as few digits
/// as tell it from its neighbours.
pub open spec fn shown(v: u64) -> nat {
    let x = round(v as nat);
    if x < SPAN {
        x
    } else {
        shortest(x, TOP_UNIT as nat)
    }
}

/// Numbers of up to 53 bits show as they are.
pub proof fn law_small_numbers_show_exactly(v: u64)
    requires
        v < SPAN,
    ensures
        shown(v) == v,
{
    lemma_nearest_range(v as nat, 1, v as nat);
}

fn reads_back_as(x: u128, y: u128, step: u128, m: u128) -> (r: bool)
    requires
        x < 0x10_0000_0000_0000_0000_0000,
        y < 0x10_0000_0000_0000_0000_0000,
        step == step_at(x as nat),
        m == x / step,
        0 < step <= x,
    ensures
        r == reads_back(x as nat, y as nat),
{
    if y <= x {
        let below: u128 = if m == HALF_SPAN {
            step
        } else {
            2 * step
        };
        4 * (x - y) < below || (4 * (x - y) == below && m % 2 == 0)
    } else {
        4 * (y - x) < 2 * step || (4 * (y - x) == 2 * step && m % 2 == 0)
    }
}

/// Computes what a number shows as.
pub fn shown_as(v: u64) -> (r: u128)
    ensures
        r == shown(v),
{
    proof {
        lemma_round_bound(v as nat);
    }
    let x: u128 = rounded(v as u128);
    if x < SPAN {
        return x;
    }
    let step: u128 = step_of(x);
    let m: u128 = x / step;
    let mut unit: u128 = TOP_UNIT;
    while unit > 1
        invariant
            x == round(v as nat),
            SPAN <= x <= 0x2_0000_0000_0000_0000,
            step == step_at(x as nat),
            m == x / step,
            0 < step <= x,
            unit <= TOP_UNIT,
            shortest(x as nat, TOP_UNIT as nat) == shortest(x as nat, unit as nat),
        decreases unit,
    {
        let q: u128 = x / unit;
        assert(q * unit <= x) by (nonlinear_arith)
            requires
                q == x / unit,
                unit > 0,
                x >= 0,
        ;
        let low: u128 = q * unit;
        let high: u128 = low + unit;
        let low_fits = reads_back_as(x, low, step, m);
        let high_fits = reads_back_as(x, high, step, m);
        if low_fits && (!high_fits || 2 * (x - low) < unit) {
            return low;
        }
        if high_fits {
            return high;
        }
        unit = unit / 10;
    }
    x
}

/// Rounding to 53 significant bits: numbers of that many bits stay as they are; beyond, the
/// result is a multiple of a step that leaves 53 bits, no further away than half a step, and
/// of two equally near the one whose last bit is even.
pub proof fn law_rounding_takes_the_nearest(x: nat)
    ensures
        x < SPAN ==> round(x) == x,
        x >= SPAN ==> {
            let step = step_at(x);
            let m = nearest(x, step) as int;
            &&& HALF_SPAN * step <= x < SPAN * step
            &&& round(x) == m * step
            &&& 2 * (round(x) - x) <= step && 2 * (x - round(x)) <= step
            &&& 2 * (round(x) - x) == step || 2 * (x - round(x)) == step ==> m % 2 == 0
        },
        step_at(2 * x + 1) == (if 2 * x + 1 < SPAN { 1nat } else { 2 * step_at(x) }),
{
    lemma_step(x);
    assert((2 * x + 1) / 2 == x);
    if x < SPAN {
        lemma_nearest_range(x, 1, x);
    } else {
        let d = step_at(x) as int;
        let q = x as int / d;
        let r = x as int % d;
        assert(x == q * d + r && 0 <= r < d) by (nonlinear_arith)
            requires
                d > 0,
                q == x as int / d,
                r == x as int % d,
        ;
        assert((q + 1) * d == q * d + d) by (nonlinear_arith);
        let m = nearest(x, d as nat) as int;
        assert(m == q || m == q + 1);
    }
}

/// Ten to a power.
pub open spec fn ten_to(k: nat) -> nat
    decreases k,
{
    if k == 0 { 1 } else { 10 * ten_to((k - 1) as nat) }
}

/// What a large number shows as: a number that is no further from it, once it is rounded,
/// than half a step, so that it is read back as the same, with as many zeros at the end as
/// any number has that is nearer than a quarter of a step.
pub proof fn law_large_numbers_show_in_few_digits(v: u64, z: nat, k: nat)
    requires
        round(v as nat) >= SPAN,
    ensures
        ({
            let x = round(v as nat);
            let step = step_at(x);
            let y = shown(v);
            &&& 2 * (y - x) <= step && 2 * (x - y) <= step
            &&& k <= 20 && z % ten_to(k) == 0 && 4 * (z - x) < step && 4 * (x - z) < step ==> y % ten_to(k) == 0
        }),
{
    let x = round(v as nat);
    lemma_step(x);
    reveal_with_fuel(ten_to, 21);
    assert(ten_to(20) == TOP_UNIT);
    lemma_shortest_reads_back(x, 20);
    if k <= 20 && z % ten_to(k) == 0 && 4 * (z - x) < step_at(x) && 4 * (x - z) < step_at(x) {
        lemma_shortest_has_the_zeros(x, 20, z, k);
    }
}

/// A power of ten is positive.
proof fn lemma_ten_to(k: nat)
    ensures
        ten_to(k) > 0,
        k > 0 ==> ten_to(k) / 10 == ten_to((k - 1) as nat) && ten_to(k) > 1,
    decreases k,
{
    if k > 0 {
        lemma_ten_to((k - 1) as nat);
    }
}

/// What is shown is read back.
proof fn lemma_shortest_reads_back(x: nat, k: nat)
    requires
        step_at(x) > 0,
    ensures
        ({
            let y = shortest(x, ten_to(k));
            2 * (y - x) <= step_at(x) && 2 * (x - y) <= step_at(x)
        }),
    decreases k,
{
    lemma_ten_to(k);
    if k > 0 {
        lemma_shortest_reads_back(x, (k - 1) as nat);
    }
}

/// A multiple of a greater power of ten is one of a lesser.
proof fn lemma_multiple(q: nat, j: nat, k: nat)
    requires
        k <= j,
    ensures
        (q * ten_to(j)) % ten_to(k) == 0,
    decreases j,
{
    lemma_ten_to(k);
    if j == k {
        let d = ten_to(k) as int;
        assert((q * d) % d == 0) by (nonlinear_arith)
            requires
                d > 0,
        ;
    } else {
        let i = (j - 1) as nat;
        lemma_multiple(10 * q, i, k);
        let t = ten_to(i) as int;
        assert(q * (10 * t) == (10 * q) * t) by (nonlinear_arith);
    }
}

/// Where a number near enough has zeros, what is shown has them too.
proof fn lemma_shortest_has_the_zeros(x: nat, j: nat, z: nat, k: nat)
    requires
        k <= j,
        z % ten_to(k) == 0,
        4 * (z - x) < step_at(x),
        4 * (x - z) < step_at(x),
    ensures
        shortest(x, ten_to(j)) % ten_to(k) == 0,
    decreases j,
{
    lemma_ten_to(j);
    lemma_ten_to(k);
    if k == 0 {
        assert(ten_to(0) == 1);
    } else {
        let unit = ten_to(j);
        let q = x / unit;
        assert((q + 1) * unit == q * unit + unit) by (nonlinear_arith);
        lemma_multiple(q, j, k);
        lemma_multiple(q + 1, j, k);
        if j == k {
            let w = z / unit;
            assert(z == w * unit) by (nonlinear_arith)
                requires
                    z % unit == 0,
                    w == z / unit,
                    unit > 0,
            ;
            assert(q * unit <= x < q * unit + unit) by (nonlinear_arith)
                requires
                    q == x / unit,
                    unit > 0,
            ;
            if z <= x {
                assert(w <= q) by (nonlinear_arith)
                    requires
                        w * unit < (q + 1) * unit,
                        unit > 0,
                ;
                assert(w * unit <= q * unit) by (nonlinear_arith)
                    requires
                        w <= q,
                        unit > 0,
                ;
                assert(reads_back(x, q * unit));
            } else {
                assert(w >= q + 1) by (nonlinear_arith)
                    requires
                        w * unit > q * unit,
                        unit > 0,
                ;
                assert((q + 1) * unit <= w * unit) by (nonlinear_arith)
                    requires
                        w >= q + 1,
                        unit > 0,
                ;
                assert(reads_back(x, q * unit + unit));
            }
        } else {
            lemma_shortest_has_the_zeros(x, (j - 1) as nat, z, k);
        }
    }
}

} // verus!
