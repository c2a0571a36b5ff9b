//! The Collatz map in its fused form, the table of multi-step constants, the
//! table of candidate skips, and the range verifier that combines them.
use vstd::prelude::*;
use vstd::arithmetic::power2::{pow2, lemma_pow2_pos, lemma_pow2_unfold, lemma_pow2_adds};
use vstd::arithmetic::div_mod::{lemma_fundamental_div_mod, lemma_fundamental_div_mod_converse};
use crate::bigint::{BigInt, big_limit, strip_twos, word_base};

verus! {

/// One fused Collatz step: an odd value takes `3n + 1` and the halving that
/// always follows it; an even value is halved.
pub open spec fn fused_step(n: nat) -> nat {
    if n % 2 == 1 {
        (3 * n + 1) / 2
    } else {
        n / 2
    }
}

/// `t` fused steps from `n`.
pub open spec fn fused_iter(n: nat, t: nat) -> nat
    decreases t,
{
    if t == 0 {
        n
    } else {
        fused_step(fused_iter(n, (t - 1) as nat))
    }
}

/// How many of the first `t` fused steps from `n` start on an odd value.
pub open spec fn odd_steps(n: nat, t: nat) -> nat
    decreases t,
{
    if t == 0 {
        0
    } else {
        odd_steps(n, (t - 1) as nat) + fused_iter(n, (t - 1) as nat) % 2
    }
}

pub open spec fn pow3(e: nat) -> nat
    decreases e,
{
    if e == 0 {
        1
    } else {
        3 * pow3((e - 1) as nat)
    }
}

/// A multiplier and an offset that stand for several fused steps at once.
#[derive(Clone, Copy, Debug, PartialEq, Eq, Structural)]
pub struct ProductSum {
    pub product: u32,
    pub sum: u32,
}

/// The largest step count a step table is built for.
pub const MAX_TABLE_STEPS: u64 = 20;

/// The step count actually used for a requested one.
pub open spec fn table_steps(requested: u64) -> nat {
    if requested > MAX_TABLE_STEPS {
        MAX_TABLE_STEPS as nat
    } else {
        requested as nat
    }
}

/// `t` holds, for each residue `i` modulo `2^k`, the power of three and the
/// value that `k` fused steps from `i` produce.
pub open spec fn is_step_table(t: Seq<ProductSum>, k: nat) -> bool {
    &&& t.len() == pow2(k)
    &&& forall|i: int|
        0 <= i < t.len() ==> {
            &&& (#[trigger] t[i]).product == pow3(odd_steps(i as nat, k))
            &&& t[i].sum == fused_iter(i as nat, k)
        }
}

/// The table for a step count of zero: one raw step in multiplier and offset
/// form, for the even and the odd residue.
pub open spec fn single_step_table() -> Seq<ProductSum> {
    seq![ProductSum { product: 1, sum: 0 }, ProductSum { product: 3, sum: 1 }]
}

proof fn lemma_pow3_monotone(a: nat, b: nat)
    requires
        a <= b,
    ensures
        1 <= pow3(a) <= pow3(b),
    decreases b,
{
    if a < b {
        lemma_pow3_monotone(a, (b - 1) as nat);
    } else if a > 0 {
        lemma_pow3_monotone((a - 1) as nat, (b - 1) as nat);
    }
}

proof fn lemma_pow2_monotone(a: nat, b: nat)
    requires
        a <= b,
    ensures
        1 <= pow2(a) <= pow2(b),
{
    lemma_pow2_pos(a);
    if a < b {
        vstd::arithmetic::power2::lemma_pow2_strictly_increases(a, b);
    }
}

proof fn lemma_odd_steps_bound(n: nat, t: nat)
    ensures
        odd_steps(n, t) <= t,
    decreases t,
{
    if t > 0 {
        lemma_odd_steps_bound(n, (t - 1) as nat);
    }
}

/// One fused step keeps a value below `2^m * 3^j` below `2^(m-1) * 3^(j+1)`.
proof fn lemma_step_bound(x: nat, m: nat, j: nat)
    requires
        m >= 1,
        x < pow2(m) * pow3(j),
    ensures
        fused_step(x) < pow2((m - 1) as nat) * pow3(j + 1),
{
    lemma_pow2_unfold(m);
    let pq = pow2((m - 1) as nat) * pow3(j);
    assert(pow2(m) * pow3(j) == 2 * pq) by (nonlinear_arith)
        requires
            pow2(m) == 2 * pow2((m - 1) as nat),
            pq == pow2((m - 1) as nat) * pow3(j),
    ;
    assert(pow2((m - 1) as nat) * pow3(j + 1) == 3 * pq) by (nonlinear_arith)
        requires
            pow3(j + 1) == 3 * pow3(j),
            pq == pow2((m - 1) as nat) * pow3(j),
    ;
}

/// The parity-sequence identity: the first `t <= k` fused steps from
/// `a * 2^k + b` take the same parities as those from `b`, so the high part
/// `a` is only scaled by the powers of two and three they apply.
pub proof fn lemma_parity_prefix(a: nat, b: nat, k: nat, t: nat)
    requires
        t <= k,
    ensures
        fused_iter(a * pow2(k) + b, t) == a * pow2((k - t) as nat) * pow3(odd_steps(b, t))
            + fused_iter(b, t),
        odd_steps(a * pow2(k) + b, t) == odd_steps(b, t),
    decreases t,
{
    if t > 0 {
        let s = (t - 1) as nat;
        lemma_parity_prefix(a, b, k, s);
        let o = odd_steps(b, s);
        let fb = fused_iter(b, s);
        let big = a * pow2((k - s) as nat) * pow3(o);
        let half = a * pow2((k - t) as nat) * pow3(o);
        lemma_pow2_unfold((k - s) as nat);
        assert(big == 2 * half) by (nonlinear_arith)
            requires
                big == a * pow2((k - s) as nat) * pow3(o),
                half == a * pow2((k - t) as nat) * pow3(o),
                pow2((k - s) as nat) == 2 * pow2((k - t) as nat),
        ;
        assert(a * pow2((k - t) as nat) * (3 * pow3(o)) == 3 * half) by (nonlinear_arith)
            requires
                half == a * pow2((k - t) as nat) * pow3(o),
        ;
        assert((2 * half + fb) % 2 == fb % 2);
        assert(fused_iter(a * pow2(k) + b, t) == fused_step(2 * half + fb));
        if fb % 2 == 1 {
            assert((3 * (2 * half + fb) + 1) / 2 == 3 * half + (3 * fb + 1) / 2);
            assert(odd_steps(b, t) == o + 1);
            assert(pow3(o + 1) == 3 * pow3(o));
        } else {
            assert((2 * half + fb) / 2 == half + fb / 2);
            assert(odd_steps(b, t) == o);
        }
    } else {
        assert(a * pow2(k) * pow3(0) == a * pow2(k)) by (nonlinear_arith)
            requires
                pow3(0) == 1,
        ;
    }
}

/// One lookup in a step table does the work of `k` fused steps: for any `v`,
/// shifting out the low `k` bits, multiplying by the entry's product and
/// adding its sum gives exactly the value `k` single fused steps reach.
pub proof fn lemma_table_step(t: Seq<ProductSum>, k: nat, v: nat)
    requires
        is_step_table(t, k),
    ensures
        (v / pow2(k)) * t[(v % pow2(k)) as int].product + t[(v % pow2(k)) as int].sum
            == fused_iter(v, k),
{
    lemma_pow2_pos(k);
    let a = v / pow2(k);
    let b = v % pow2(k);
    lemma_fundamental_div_mod(v as int, pow2(k) as int);
    assert(v == a * pow2(k) + b) by (nonlinear_arith)
        requires
            v == pow2(k) * a + b,
    ;
    lemma_parity_prefix(a, b, k, k);
    vstd::arithmetic::power2::lemma2_to64();
    assert(t[b as int].product == pow3(odd_steps(b, k)));
    assert(a * pow2(0) * pow3(odd_steps(b, k)) == a * pow3(odd_steps(b, k))) by (nonlinear_arith)
        requires
            pow2(0) == 1,
    ;
}

/// Builds the table of multipliers and offsets for `requested` fused steps
/// (at most `MAX_TABLE_STEPS`); a request of zero gives the two-entry
/// single-step table.
pub fn precompute_constants(requested: u64) -> (r: Vec<ProductSum>)
    ensures
        requested == 0 ==> r@ == single_step_table(),
        requested > 0 ==> is_step_table(r@, table_steps(requested)),
{
    if requested == 0 {
        let r = vec![ProductSum { product: 1, sum: 0 }, ProductSum { product: 3, sum: 1 }];
        assert(r@ =~= single_step_table());
        return r;
    }
    let steps: u64 = if requested < 21 { requested } else { MAX_TABLE_STEPS };
    proof {
        vstd::bits::lemma_u64_pow2_no_overflow(steps as nat);
        vstd::bits::lemma_u64_shl_is_mul(1, steps);
        lemma_pow2_monotone(steps as nat, 20);
        vstd::arithmetic::power2::lemma2_to64();
        reveal_with_fuel(pow3, 21);
        assert(pow3(20) == 3486784401);
    }
    let size: u64 = 1u64 << steps;
    let mut constants: Vec<ProductSum> = Vec::new();
    let mut i: u64 = 0;
    while i < size
        invariant
            size == pow2(steps as nat),
            size <= 0x10_0000,
            steps == table_steps(requested),
            1 <= steps <= 20,
            pow3(20) == 3486784401,
            i <= size,
            constants.len() == i,
            forall|j: int|
                0 <= j < i ==> {
                    &&& (#[trigger] constants@[j]).product == pow3(odd_steps(j as nat, steps as nat))
                    &&& constants@[j].sum == fused_iter(j as nat, steps as nat)
                },
        decreases size - i,
    {
        let mut search: u64 = i;
        let mut product: u32 = 1;
        let mut j: u64 = 0;
        proof {
            lemma_pow2_monotone(steps as nat, steps as nat);
        }
        while j < steps
            invariant
                1 <= steps <= 20,
                pow3(20) == 3486784401,
                j <= steps,
                search == fused_iter(i as nat, j as nat),
                product == pow3(odd_steps(i as nat, j as nat)),
                search < pow2((steps - j) as nat) * pow3(j as nat),
            decreases steps - j,
        {
            proof {
                lemma_step_bound(search as nat, (steps - j) as nat, j as nat);
                lemma_pow2_monotone((steps - j) as nat, 20);
                lemma_pow3_monotone(j as nat, 20);
                vstd::arithmetic::power2::lemma2_to64();
                assert(search < 0x10_0000 * 3486784401) by (nonlinear_arith)
                    requires
                        search < pow2((steps - j) as nat) * pow3(j as nat),
                        pow2((steps - j) as nat) <= 0x10_0000,
                        pow3(j as nat) <= 3486784401,
                ;
                lemma_odd_steps_bound(i as nat, j as nat);
                lemma_pow3_monotone(odd_steps(i as nat, j as nat) + 1, 20);
            }
            if search % 2 == 1 {
                search = (search * 3 + 1) / 2;
                product = product * 3;
            } else {
                search = search / 2;
            }
            j = j + 1;
        }
        proof {
            lemma_pow3_monotone(steps as nat, 20);
            vstd::arithmetic::power2::lemma2_to64();
            assert(search < 3486784401) by (nonlinear_arith)
                requires
                    search < pow2(0) * pow3(steps as nat),
                    pow2(0) == 1,
                    pow3(steps as nat) <= 3486784401,
            ;
        }
        constants.push(ProductSum { product, sum: search as u32 });
        i = i + 1;
    }
    constants
}

/// The largest step count a skip table is built for: its `2^(s-2)` entries
/// must be addressable, and four fused steps from any value below `2^s` must
/// fit in 64 bits.
pub const MAX_SKIP_STEPS: u64 = 33;

/// A skip table entry: a forward distance of at least one candidate and at
/// most the largest multiple of four that a byte holds.
pub open spec fn valid_skip(e: u8) -> bool {
    4 <= e <= 252 && e % 4 == 0
}

proof fn lemma_pow2_le_pow3(a: nat)
    ensures
        pow2(a) <= pow3(a),
    decreases a,
{
    if a == 0 {
        vstd::arithmetic::power2::lemma2_to64();
    } else {
        lemma_pow2_unfold(a);
        lemma_pow2_le_pow3((a - 1) as nat);
    }
}

proof fn lemma_pow3_adds(a: nat, b: nat)
    ensures
        pow3(a + b) == pow3(a) * pow3(b),
    decreases a,
{
    if a > 0 {
        let a1 = (a - 1) as nat;
        lemma_pow3_adds(a1, b);
        assert(a + b - 1 == a1 + b);
        assert(pow3(a + b) == 3 * pow3(a1 + b));
        assert(pow3(a) == 3 * pow3(a1));
        assert(3 * (pow3(a1) * pow3(b)) == (3 * pow3(a1)) * pow3(b)) by (nonlinear_arith);
    } else {
        assert(pow3(0) == 1);
        assert(pow3(b) == 1 * pow3(b));
    }
}

/// `2^(s-j) * 3^j` never exceeds `3^s`.
proof fn lemma_mixed_bound(s: nat, j: nat)
    requires
        j <= s,
    ensures
        pow2((s - j) as nat) * pow3(j) <= pow3(s),
{
    lemma_pow2_le_pow3((s - j) as nat);
    lemma_pow3_adds((s - j) as nat, j);
    lemma_pow3_monotone(0, j);
    assert(pow2((s - j) as nat) * pow3(j) <= pow3((s - j) as nat) * pow3(j)) by (nonlinear_arith)
        requires
            pow2((s - j) as nat) <= pow3((s - j) as nat),
            pow3(j) >= 1,
    ;
}

/// Four fused steps at once keep a value below `2^m * 3^j` below
/// `2^(m-4) * 3^(j+4)`, for any product up to 81 and sum up to 65.
proof fn lemma_block_bound(x: nat, m: nat, j: nat, p: nat, q: nat)
    requires
        m >= 4,
        x < pow2(m) * pow3(j),
        p <= 81,
        q <= 65,
    ensures
        (x * p + q) / 16 < pow2((m - 4) as nat) * pow3(j + 4),
{
    lemma_pow2_adds(4, (m - 4) as nat);
    vstd::arithmetic::power2::lemma2_to64();
    lemma_pow3_adds(j, 4);
    reveal_with_fuel(pow3, 5);
    let b = pow2((m - 4) as nat) * pow3(j);
    assert(pow2(m) * pow3(j) == 16 * b) by (nonlinear_arith)
        requires
            pow2(m) == 16 * pow2((m - 4) as nat),
            b == pow2((m - 4) as nat) * pow3(j),
    ;
    assert(pow2((m - 4) as nat) * pow3(j + 4) == 81 * b) by (nonlinear_arith)
        requires
            pow3(j + 4) == pow3(j) * 81,
            b == pow2((m - 4) as nat) * pow3(j),
    ;
    assert(x * p + q < 16 * (81 * b)) by (nonlinear_arith)
        requires
            x < 16 * b,
            p <= 81,
            q <= 65,
    ;
}

/// The value `n` falls below itself within `s` fused steps.
pub open spec fn resolves(n: nat, s: nat) -> bool {
    exists|t: nat| 1 <= t <= s && #[trigger] fused_iter(n, t) < n
}

/// For a value with residue `r` modulo 16, the step among the next four
/// (counting the value itself as step 0) at which its trajectory is lowest.
pub open spec fn lowest_step(r: nat) -> nat {
    if r == 6 || r == 14 {
        1
    } else if r == 9 || r == 12 {
        2
    } else if r == 2 || r == 8 || r == 13 {
        3
    } else if r == 7 || r == 11 || r == 15 {
        0
    } else {
        4
    }
}

proof fn lemma_iter_add(n: nat, a: nat, b: nat)
    ensures
        fused_iter(n, a + b) == fused_iter(fused_iter(n, a), b),
    decreases b,
{
    if b > 0 {
        lemma_iter_add(n, a, (b - 1) as nat);
        assert(a + b - 1 == a + (b - 1) as nat);
    }
}

/// The constants for four fused steps at once, by residue `r` modulo 16: a
/// product and sum that take `16q + r` to the value four steps later (times
/// 16), and a product and sum that take it to its lowest value on the way.
fn four_step_constants(r: u64) -> (c: (u64, u64, u64, u64))
    requires
        r < 16,
    ensures
        c.0 <= 81,
        c.1 <= 65,
        c.2 <= 16,
        c.3 <= 7,
        c.0 == pow3(odd_steps(r as nat, 4)),
        (r * c.0 + c.1) / 16 == fused_iter(r as nat, 4),
        c.2 == pow2((4 - lowest_step(r as nat)) as nat) * pow3(
            odd_steps(r as nat, lowest_step(r as nat)),
        ),
        (r * c.2 + c.3) / 16 == fused_iter(r as nat, lowest_step(r as nat)),
{
    let c = match r {
        0 => (1, 0, 1, 0),
        1 => (9, 7, 9, 7),
        2 => (9, 14, 6, 4),
        3 => (9, 5, 9, 5),
        4 => (3, 4, 3, 4),
        5 => (3, 1, 3, 1),
        6 => (9, 10, 8, 0),
        7 => (27, 19, 16, 0),
        8 => (3, 8, 2, 0),
        9 => (27, 29, 12, 4),
        10 => (3, 2, 3, 2),
        11 => (27, 23, 16, 0),
        12 => (9, 20, 4, 0),
        13 => (9, 11, 6, 2),
        14 => (27, 38, 8, 0),
        _ => (81, 65, 16, 0),
    };
    proof {
        reveal_with_fuel(fused_iter, 5);
        reveal_with_fuel(odd_steps, 5);
        reveal_with_fuel(pow3, 5);
        vstd::arithmetic::power2::lemma2_to64();
        assert(pow3(0) == 1 && pow3(1) == 3 && pow3(2) == 9 && pow3(3) == 27 && pow3(4) == 81);
        if r == 0 {
            assert(lowest_step(0) == 4 && odd_steps(0, 4) == 0);
            assert(pow2(0) * pow3(0) == 1);
        } else if r == 1 {
            assert(lowest_step(1) == 4 && odd_steps(1, 4) == 2);
            assert(pow2(0) * pow3(2) == 9);
        } else if r == 2 {
            assert(lowest_step(2) == 3 && odd_steps(2, 3) == 1);
            assert(pow2(1) * pow3(1) == 6);
        } else if r == 3 {
            assert(lowest_step(3) == 4 && odd_steps(3, 4) == 2);
            assert(pow2(0) * pow3(2) == 9);
        } else if r == 4 {
            assert(lowest_step(4) == 4 && odd_steps(4, 4) == 1);
            assert(pow2(0) * pow3(1) == 3);
        } else if r == 5 {
            assert(lowest_step(5) == 4 && odd_steps(5, 4) == 1);
            assert(pow2(0) * pow3(1) == 3);
        } else if r == 6 {
            assert(lowest_step(6) == 1 && odd_steps(6, 1) == 0);
            assert(pow2(3) * pow3(0) == 8);
        } else if r == 7 {
            assert(lowest_step(7) == 0 && odd_steps(7, 0) == 0);
            assert(pow2(4) * pow3(0) == 16);
        } else if r == 8 {
            assert(lowest_step(8) == 3 && odd_steps(8, 3) == 0);
            assert(pow2(1) * pow3(0) == 2);
        } else if r == 9 {
            assert(lowest_step(9) == 2 && odd_steps(9, 2) == 1);
            assert(pow2(2) * pow3(1) == 12);
        } else if r == 10 {
            assert(lowest_step(10) == 4 && odd_steps(10, 4) == 1);
            assert(pow2(0) * pow3(1) == 3);
        } else if r == 11 {
            assert(lowest_step(11) == 0 && odd_steps(11, 0) == 0);
            assert(pow2(4) * pow3(0) == 16);
        } else if r == 12 {
            assert(lowest_step(12) == 2 && odd_steps(12, 2) == 0);
            assert(pow2(2) * pow3(0) == 4);
        } else if r == 13 {
            assert(lowest_step(13) == 3 && odd_steps(13, 3) == 1);
            assert(pow2(1) * pow3(1) == 6);
        } else if r == 14 {
            assert(lowest_step(14) == 1 && odd_steps(14, 1) == 0);
            assert(pow2(3) * pow3(0) == 8);
        } else if r == 15 {
            assert(lowest_step(15) == 0 && odd_steps(15, 0) == 0);
            assert(pow2(4) * pow3(0) == 16);
        }
    }
    c
}

/// The step `lowest_step` picks is the lowest of the four: its value, and
/// its scale on the high part, are at most those of any other step.
proof fn lemma_lowest_is_min(r: nat, t: nat)
    requires
        r < 16,
        1 <= t <= 4,
    ensures
        pow2((4 - lowest_step(r)) as nat) * pow3(odd_steps(r, lowest_step(r)))
            <= pow2((4 - t) as nat) * pow3(odd_steps(r, t)),
        fused_iter(r, lowest_step(r)) <= fused_iter(r, t),
{
    reveal_with_fuel(fused_iter, 5);
    reveal_with_fuel(odd_steps, 5);
    reveal_with_fuel(pow3, 5);
    vstd::arithmetic::power2::lemma2_to64();
    assert(pow3(0) == 1 && pow3(1) == 3 && pow3(2) == 9 && pow3(3) == 27 && pow3(4) == 81);
    if r == 0 {
        assert(lowest_step(0) == 4);
        assert(fused_iter(0, 1) == 0 && fused_iter(0, 2) == 0
            && fused_iter(0, 3) == 0 && fused_iter(0, 4) == 0);
        assert(odd_steps(0, 1) == 0 && odd_steps(0, 2) == 0
            && odd_steps(0, 3) == 0 && odd_steps(0, 4) == 0);
        if t == 1 {
            assert(pow2(3) * pow3(0) == 8);
        }
        if t == 2 {
            assert(pow2(2) * pow3(0) == 4);
        }
        if t == 3 {
            assert(pow2(1) * pow3(0) == 2);
        }
        if t == 4 {
            assert(pow2(0) * pow3(0) == 1);
        }
        assert(pow2(0) * pow3(0) == 1);
    } else if r == 1 {
        assert(lowest_step(1) == 4);
        assert(fused_iter(1, 1) == 2 && fused_iter(1, 2) == 1
            && fused_iter(1, 3) == 2 && fused_iter(1, 4) == 1);
        assert(odd_steps(1, 1) == 1 && odd_steps(1, 2) == 1
            && odd_steps(1, 3) == 2 && odd_steps(1, 4) == 2);
        if t == 1 {
            assert(pow2(3) * pow3(1) == 24);
        }
        if t == 2 {
            assert(pow2(2) * pow3(1) == 12);
        }
        if t == 3 {
            assert(pow2(1) * pow3(2) == 18);
        }
        if t == 4 {
            assert(pow2(0) * pow3(2) == 9);
        }
        assert(pow2(0) * pow3(2) == 9);
    } else if r == 2 {
        assert(lowest_step(2) == 3);
        assert(fused_iter(2, 1) == 1 && fused_iter(2, 2) == 2
            && fused_iter(2, 3) == 1 && fused_iter(2, 4) == 2);
        assert(odd_steps(2, 1) == 0 && odd_steps(2, 2) == 1
            && odd_steps(2, 3) == 1 && odd_steps(2, 4) == 2);
        if t == 1 {
            assert(pow2(3) * pow3(0) == 8);
        }
        if t == 2 {
            assert(pow2(2) * pow3(1) == 12);
        }
        if t == 3 {
            assert(pow2(1) * pow3(1) == 6);
        }
        if t == 4 {
            assert(pow2(0) * pow3(2) == 9);
        }
        assert(pow2(1) * pow3(1) == 6);
    } else if r == 3 {
        assert(lowest_step(3) == 4);
        assert(fused_iter(3, 1) == 5 && fused_iter(3, 2) == 8
            && fused_iter(3, 3) == 4 && fused_iter(3, 4) == 2);
        assert(odd_steps(3, 1) == 1 && odd_steps(3, 2) == 2
            && odd_steps(3, 3) == 2 && odd_steps(3, 4) == 2);
        if t == 1 {
            assert(pow2(3) * pow3(1) == 24);
        }
        if t == 2 {
            assert(pow2(2) * pow3(2) == 36);
        }
        if t == 3 {
            assert(pow2(1) * pow3(2) == 18);
        }
        if t == 4 {
            assert(pow2(0) * pow3(2) == 9);
        }
        assert(pow2(0) * pow3(2) == 9);
    } else if r == 4 {
        assert(lowest_step(4) == 4);
        assert(fused_iter(4, 1) == 2 && fused_iter(4, 2) == 1
            && fused_iter(4, 3) == 2 && fused_iter(4, 4) == 1);
        assert(odd_steps(4, 1) == 0 && odd_steps(4, 2) == 0
            && odd_steps(4, 3) == 1 && odd_steps(4, 4) == 1);
        if t == 1 {
            assert(pow2(3) * pow3(0) == 8);
        }
        if t == 2 {
            assert(pow2(2) * pow3(0) == 4);
        }
        if t == 3 {
            assert(pow2(1) * pow3(1) == 6);
        }
        if t == 4 {
            assert(pow2(0) * pow3(1) == 3);
        }
        assert(pow2(0) * pow3(1) == 3);
    } else if r == 5 {
        assert(lowest_step(5) == 4);
        assert(fused_iter(5, 1) == 8 && fused_iter(5, 2) == 4
            && fused_iter(5, 3) == 2 && fused_iter(5, 4) == 1);
        assert(odd_steps(5, 1) == 1 && odd_steps(5, 2) == 1
            && odd_steps(5, 3) == 1 && odd_steps(5, 4) == 1);
        if t == 1 {
            assert(pow2(3) * pow3(1) == 24);
        }
        if t == 2 {
            assert(pow2(2) * pow3(1) == 12);
        }
        if t == 3 {
            assert(pow2(1) * pow3(1) == 6);
        }
        if t == 4 {
            assert(pow2(0) * pow3(1) == 3);
        }
        assert(pow2(0) * pow3(1) == 3);
    } else if r == 6 {
        assert(lowest_step(6) == 1);
        assert(fused_iter(6, 1) == 3 && fused_iter(6, 2) == 5
            && fused_iter(6, 3) == 8 && fused_iter(6, 4) == 4);
        assert(odd_steps(6, 1) == 0 && odd_steps(6, 2) == 1
            && odd_steps(6, 3) == 2 && odd_steps(6, 4) == 2);
        if t == 1 {
            assert(pow2(3) * pow3(0) == 8);
        }
        if t == 2 {
            assert(pow2(2) * pow3(1) == 12);
        }
        if t == 3 {
            assert(pow2(1) * pow3(2) == 18);
        }
        if t == 4 {
            assert(pow2(0) * pow3(2) == 9);
        }
        assert(pow2(3) * pow3(0) == 8);
    } else if r == 7 {
        assert(lowest_step(7) == 0);
        assert(fused_iter(7, 1) == 11 && fused_iter(7, 2) == 17
            && fused_iter(7, 3) == 26 && fused_iter(7, 4) == 13);
        assert(odd_steps(7, 1) == 1 && odd_steps(7, 2) == 2
            && odd_steps(7, 3) == 3 && odd_steps(7, 4) == 3);
        if t == 1 {
            assert(pow2(3) * pow3(1) == 24);
        }
        if t == 2 {
            assert(pow2(2) * pow3(2) == 36);
        }
        if t == 3 {
            assert(pow2(1) * pow3(3) == 54);
        }
        if t == 4 {
            assert(pow2(0) * pow3(3) == 27);
        }
        assert(pow2(4) * pow3(0) == 16);
    } else if r == 8 {
        assert(lowest_step(8) == 3);
        assert(fused_iter(8, 1) == 4 && fused_iter(8, 2) == 2
            && fused_iter(8, 3) == 1 && fused_iter(8, 4) == 2);
        assert(odd_steps(8, 1) == 0 && odd_steps(8, 2) == 0
            && odd_steps(8, 3) == 0 && odd_steps(8, 4) == 1);
        if t == 1 {
            assert(pow2(3) * pow3(0) == 8);
        }
        if t == 2 {
            assert(pow2(2) * pow3(0) == 4);
        }
        if t == 3 {
            assert(pow2(1) * pow3(0) == 2);
        }
        if t == 4 {
            assert(pow2(0) * pow3(1) == 3);
        }
        assert(pow2(1) * pow3(0) == 2);
    } else if r == 9 {
        assert(lowest_step(9) == 2);
        assert(fused_iter(9, 1) == 14 && fused_iter(9, 2) == 7
            && fused_iter(9, 3) == 11 && fused_iter(9, 4) == 17);
        assert(odd_steps(9, 1) == 1 && odd_steps(9, 2) == 1
            && odd_steps(9, 3) == 2 && odd_steps(9, 4) == 3);
        if t == 1 {
            assert(pow2(3) * pow3(1) == 24);
        }
        if t == 2 {
            assert(pow2(2) * pow3(1) == 12);
        }
        if t == 3 {
            assert(pow2(1) * pow3(2) == 18);
        }
        if t == 4 {
            assert(pow2(0) * pow3(3) == 27);
        }
        assert(pow2(2) * pow3(1) == 12);
    } else if r == 10 {
        assert(lowest_step(10) == 4);
        assert(fused_iter(10, 1) == 5 && fused_iter(10, 2) == 8
            && fused_iter(10, 3) == 4 && fused_iter(10, 4) == 2);
        assert(odd_steps(10, 1) == 0 && odd_steps(10, 2) == 1
            && odd_steps(10, 3) == 1 && odd_steps(10, 4) == 1);
        if t == 1 {
            assert(pow2(3) * pow3(0) == 8);
        }
        if t == 2 {
            assert(pow2(2) * pow3(1) == 12);
        }
        if t == 3 {
            assert(pow2(1) * pow3(1) == 6);
        }
        if t == 4 {
            assert(pow2(0) * pow3(1) == 3);
        }
        assert(pow2(0) * pow3(1) == 3);
    } else if r == 11 {
        assert(lowest_step(11) == 0);
        assert(fused_iter(11, 1) == 17 && fused_iter(11, 2) == 26
            && fused_iter(11, 3) == 13 && fused_iter(11, 4) == 20);
        assert(odd_steps(11, 1) == 1 && odd_steps(11, 2) == 2
            && odd_steps(11, 3) == 2 && odd_steps(11, 4) == 3);
        if t == 1 {
            assert(pow2(3) * pow3(1) == 24);
        }
        if t == 2 {
            assert(pow2(2) * pow3(2) == 36);
        }
        if t == 3 {
            assert(pow2(1) * pow3(2) == 18);
        }
        if t == 4 {
            assert(pow2(0) * pow3(3) == 27);
        }
        assert(pow2(4) * pow3(0) == 16);
    } else if r == 12 {
        assert(lowest_step(12) == 2);
        assert(fused_iter(12, 1) == 6 && fused_iter(12, 2) == 3
            && fused_iter(12, 3) == 5 && fused_iter(12, 4) == 8);
        assert(odd_steps(12, 1) == 0 && odd_steps(12, 2) == 0
            && odd_steps(12, 3) == 1 && odd_steps(12, 4) == 2);
        if t == 1 {
            assert(pow2(3) * pow3(0) == 8);
        }
        if t == 2 {
            assert(pow2(2) * pow3(0) == 4);
        }
        if t == 3 {
            assert(pow2(1) * pow3(1) == 6);
        }
        if t == 4 {
            assert(pow2(0) * pow3(2) == 9);
        }
        assert(pow2(2) * pow3(0) == 4);
    } else if r == 13 {
        assert(lowest_step(13) == 3);
        assert(fused_iter(13, 1) == 20 && fused_iter(13, 2) == 10
            && fused_iter(13, 3) == 5 && fused_iter(13, 4) == 8);
        assert(odd_steps(13, 1) == 1 && odd_steps(13, 2) == 1
            && odd_steps(13, 3) == 1 && odd_steps(13, 4) == 2);
        if t == 1 {
            assert(pow2(3) * pow3(1) == 24);
        }
        if t == 2 {
            assert(pow2(2) * pow3(1) == 12);
        }
        if t == 3 {
            assert(pow2(1) * pow3(1) == 6);
        }
        if t == 4 {
            assert(pow2(0) * pow3(2) == 9);
        }
        assert(pow2(1) * pow3(1) == 6);
    } else if r == 14 {
        assert(lowest_step(14) == 1);
        assert(fused_iter(14, 1) == 7 && fused_iter(14, 2) == 11
            && fused_iter(14, 3) == 17 && fused_iter(14, 4) == 26);
        assert(odd_steps(14, 1) == 0 && odd_steps(14, 2) == 1
            && odd_steps(14, 3) == 2 && odd_steps(14, 4) == 3);
        if t == 1 {
            assert(pow2(3) * pow3(0) == 8);
        }
        if t == 2 {
            assert(pow2(2) * pow3(1) == 12);
        }
        if t == 3 {
            assert(pow2(1) * pow3(2) == 18);
        }
        if t == 4 {
            assert(pow2(0) * pow3(3) == 27);
        }
        assert(pow2(3) * pow3(0) == 8);
    } else if r == 15 {
        assert(lowest_step(15) == 0);
        assert(fused_iter(15, 1) == 23 && fused_iter(15, 2) == 35
            && fused_iter(15, 3) == 53 && fused_iter(15, 4) == 80);
        assert(odd_steps(15, 1) == 1 && odd_steps(15, 2) == 2
            && odd_steps(15, 3) == 3 && odd_steps(15, 4) == 4);
        if t == 1 {
            assert(pow2(3) * pow3(1) == 24);
        }
        if t == 2 {
            assert(pow2(2) * pow3(2) == 36);
        }
        if t == 3 {
            assert(pow2(1) * pow3(3) == 54);
        }
        if t == 4 {
            assert(pow2(0) * pow3(4) == 81);
        }
        assert(pow2(4) * pow3(0) == 16);
    }
}

/// From `2^s - 1` each of the first `s` fused steps is odd: after `t` of
/// them the value is `2^(s-t) * 3^t - 1`, never below the start.
proof fn lemma_all_ones_climbs(s: nat, t: nat)
    requires
        1 <= s,
        t <= s,
    ensures
        fused_iter((pow2(s) - 1) as nat, t) == pow2((s - t) as nat) * pow3(t) - 1,
        fused_iter((pow2(s) - 1) as nat, t) >= pow2(s) - 1,
    decreases t,
{
    lemma_pow2_pos(s);
    if t == 0 {
        assert(pow3(0) == 1);
        assert(pow2(s) * pow3(0) == pow2(s));
    } else {
        let p = (t - 1) as nat;
        lemma_all_ones_climbs(s, p);
        lemma_pow2_unfold((s - p) as nat);
        let b = pow2((s - t) as nat) * pow3(p);
        assert(pow2((s - p) as nat) * pow3(p) == 2 * b) by (nonlinear_arith)
            requires
                pow2((s - p) as nat) == 2 * pow2((s - t) as nat),
                b == pow2((s - t) as nat) * pow3(p),
        ;
        assert(pow2((s - t) as nat) * pow3(t) == 3 * b) by (nonlinear_arith)
            requires
                pow3(t) == 3 * pow3(p),
                b == pow2((s - t) as nat) * pow3(p),
        ;
        lemma_pow2_pos((s - t) as nat);
        lemma_pow3_monotone(0, p);
        assert(b >= 1) by (nonlinear_arith)
            requires
                pow2((s - t) as nat) >= 1,
                pow3(p) >= 1,
                b == pow2((s - t) as nat) * pow3(p),
        ;
        assert((2 * b - 1) % 2 == 1);
        assert((3 * (2 * b - 1) + 1) / 2 == 3 * b - 1);
    }
    lemma_pow2_le_pow3(t);
    lemma_pow2_adds((s - t) as nat, t);
    assert(pow2((s - t) as nat) * pow2(t) <= pow2((s - t) as nat) * pow3(t)) by (nonlinear_arith)
        requires
            pow2(t) <= pow3(t),
    ;
}

/// The value with every bit set below `2^s` does not fall below itself
/// within `s` fused steps.
proof fn lemma_all_ones_unresolved(s: nat)
    requires
        1 <= s,
    ensures
        !resolves((pow2(s) - 1) as nat, s),
{
    lemma_pow2_pos(s);
    if resolves((pow2(s) - 1) as nat, s) {
        let t = choose|t: nat|
            1 <= t <= s && #[trigger] fused_iter((pow2(s) - 1) as nat, t) < (pow2(s) - 1) as nat;
        lemma_all_ones_climbs(s, t);
    }
}

/// Four steps at once by the constants of a residue: `(x * m + a) / 16` is
/// the value `t` fused steps from `x`, where `m` and `a` do that for the
/// residue of `x` modulo 16.
proof fn lemma_block_value(x: nat, t: nat, m: nat, a: nat)
    requires
        t <= 4,
        m == pow2((4 - t) as nat) * pow3(odd_steps(x % 16, t)),
        ((x % 16) * m + a) / 16 == fused_iter(x % 16, t),
    ensures
        (x * m + a) / 16 == fused_iter(x, t),
{
    let q = x / 16;
    let r = x % 16;
    vstd::arithmetic::power2::lemma2_to64();
    lemma_parity_prefix(q, r, 4, t);
    assert(x == q * 16 + r);
    assert(q * pow2((4 - t) as nat) * pow3(odd_steps(r, t)) == q * m) by (nonlinear_arith)
        requires
            m == pow2((4 - t) as nat) * pow3(odd_steps(r, t)),
    ;
    assert(x * m + a == 16 * (q * m) + (r * m + a)) by (nonlinear_arith)
        requires
            x == q * 16 + r,
    ;
    let y = r * m + a;
    lemma_fundamental_div_mod(y as int, 16);
    lemma_fundamental_div_mod_converse((x * m + a) as int, 16, (q * m + y / 16) as int, (y % 16) as int);
}

/// The lowest-step constants of a residue give a value no larger than any
/// of the four fused steps that follow.
proof fn lemma_block_min(x: nat, t: nat, lp: nat, ls: nat)
    requires
        1 <= t <= 4,
        lp == pow2((4 - lowest_step(x % 16)) as nat) * pow3(odd_steps(x % 16, lowest_step(x % 16))),
        ((x % 16) * lp + ls) / 16 == fused_iter(x % 16, lowest_step(x % 16)),
    ensures
        (x * lp + ls) / 16 <= fused_iter(x, t),
{
    let q = x / 16;
    let r = x % 16;
    let tr = lowest_step(r);
    vstd::arithmetic::power2::lemma2_to64();
    lemma_block_value(x, tr, lp, ls);
    lemma_parity_prefix(q, r, 4, tr);
    lemma_parity_prefix(q, r, 4, t);
    lemma_lowest_is_min(r, t);
    assert(x == q * 16 + r);
    let slope = pow2((4 - t) as nat) * pow3(odd_steps(r, t));
    assert(q * pow2((4 - tr) as nat) * pow3(odd_steps(r, tr)) == q * lp) by (nonlinear_arith)
        requires
            lp == pow2((4 - tr) as nat) * pow3(odd_steps(r, tr)),
    ;
    assert(q * pow2((4 - t) as nat) * pow3(odd_steps(r, t)) == q * slope) by (nonlinear_arith)
        requires
            slope == pow2((4 - t) as nat) * pow3(odd_steps(r, t)),
    ;
    assert(q * lp <= q * slope) by (nonlinear_arith)
        requires
            lp <= slope,
    ;
}

/// Where a skip table entry lands is a value that does not fall below itself
/// within the horizon, or the farthest point a byte reaches past the
/// previous landing point, all of whose candidates in between do.
pub open spec fn lands_well(landing: nat, s: nat) -> bool {
    !resolves(landing, s) || forall|w: nat|
        landing - 252 < w < landing && w % 4 == 3 ==> #[trigger] resolves(w, s)
}

/// Whether `i` falls below itself within `search_steps` fused steps. Steps
/// are taken four at a time by residue modulo 16 while at least four remain,
/// stopping as soon as the lowest value on the way drops below `i`.
#[verifier::rlimit(50)]
fn falls_below_within(i: u64, search_steps: u64) -> (r: bool)
    requires
        3 <= search_steps <= MAX_SKIP_STEPS,
        i < pow2(search_steps as nat),
    ensures
        r == resolves(i as nat, search_steps as nat),
{
    let ghost s = search_steps as nat;
    proof {
        lemma_pow3_monotone(s, 33);
        reveal_with_fuel(pow3, 34);
        assert(pow3(33) == 5559060566555523);
    }
    let four: u64 = search_steps & !3u64;
    assert(four <= search_steps && four % 4 == 0 && search_steps - four < 4) by (bit_vector)
        requires
            four == search_steps & !3u64,
    ;
    let mut j: u64 = 0;
    let mut search: u64 = i;
    let mut lowest_search: u64 = i;
    proof {
        assert(pow3(0) == 1);
        assert(pow2(s) * pow3(0) == pow2(s));
    }
    while j < four
        invariant_except_break
            search < pow2((s - j) as nat) * pow3(j as nat),
            search == fused_iter(i as nat, j as nat),
            lowest_search >= i,
            forall|t: nat| t <= j ==> #[trigger] fused_iter(i as nat, t) >= i,
        invariant
            four <= search_steps <= MAX_SKIP_STEPS,
            s == search_steps,
            four % 4 == 0,
            j % 4 == 0,
            j <= four,
            pow3(s) <= 5559060566555523,
        ensures
            j <= search_steps,
            lowest_search >= i ==> search < pow2((s - j) as nat) * pow3(j as nat),
            lowest_search >= i ==> search == fused_iter(i as nat, j as nat),
            lowest_search < i ==> resolves(i as nat, s),
            lowest_search >= i ==> forall|t: nat| t <= j ==> #[trigger] fused_iter(i as nat, t) >= i,
        decreases four - j,
    {
        proof {
            lemma_mixed_bound(s, j as nat);
        }
        let (product, sum, low_product, low_sum) = four_step_constants(search % 16);
        proof {
            lemma_block_bound(search as nat, (s - j) as nat, j as nat, product as nat, sum as nat);
            assert(search * product + sum <= 5559060566555523 * 81 + 65) by (nonlinear_arith)
                requires
                    search < 5559060566555523,
                    product <= 81,
                    sum <= 65,
            ;
            assert(search * low_product + low_sum <= 5559060566555523 * 16 + 7) by (nonlinear_arith)
                requires
                    search < 5559060566555523,
                    low_product <= 16,
                    low_sum <= 7,
            ;
        }
        proof {
            let x = search as nat;
            let t = lowest_step(x % 16);
            lemma_block_value(x, t, low_product as nat, low_sum as nat);
            vstd::arithmetic::power2::lemma2_to64();
            assert(pow2(0) == 1);
            assert(1 * pow3(odd_steps(x % 16, 4)) == pow3(odd_steps(x % 16, 4)));
            assert(product == pow2(0) * pow3(odd_steps(x % 16, 4)));
            lemma_block_value(x, 4, product as nat, sum as nat);
            lemma_iter_add(i as nat, j as nat, t);
            lemma_iter_add(i as nat, j as nat, 4);
            if (x * low_product + low_sum) / 16 < i {
                assert(fused_iter(i as nat, (j + t) as nat) < i);
                assert(j + t >= 1);
            } else {
                assert forall|tt: nat| tt <= j + 4 implies #[trigger] fused_iter(i as nat, tt) >= i by {
                    if tt > j {
                        let d = (tt - j) as nat;
                        lemma_iter_add(i as nat, j as nat, d);
                        lemma_block_min(x, d, low_product as nat, low_sum as nat);
                    }
                }
            }
        }
        lowest_search = (search * low_product + low_sum) / 16;
        search = (search * product + sum) / 16;
        if lowest_search < i {
            break;
        }
        j = j + 4;
    }
    if lowest_search >= i {
        while j < search_steps
            invariant_except_break
                search < pow2((s - j) as nat) * pow3(j as nat),
                search == fused_iter(i as nat, j as nat),
                lowest_search >= i,
                forall|t: nat| t <= j ==> #[trigger] fused_iter(i as nat, t) >= i,
            invariant
                lowest_search < i ==> resolves(i as nat, s),
                j <= search_steps <= MAX_SKIP_STEPS,
                s == search_steps,
                pow3(s) <= 5559060566555523,
            ensures
                lowest_search < i ==> resolves(i as nat, s),
                lowest_search >= i ==> forall|t: nat|
                    t <= s ==> #[trigger] fused_iter(i as nat, t) >= i,
            decreases search_steps - j,
        {
            proof {
                lemma_mixed_bound(s, j as nat);
                lemma_step_bound(search as nat, (s - j) as nat, j as nat);
            }
            if search % 2 == 0 {
                search = search / 2;
            } else {
                search = (search * 3 + 1) / 2;
            }
            lowest_search = search;
            if lowest_search < i {
                assert(fused_iter(i as nat, (j + 1) as nat) < i);
                break;
            }
            assert(fused_iter(i as nat, (j + 1) as nat) >= i);
            j = j + 1;
        }
    }
    proof {
        if lowest_search >= i && resolves(i as nat, s) {
            let t = choose|t: nat| 1 <= t <= s && #[trigger] fused_iter(i as nat, t) < i;
            assert(fused_iter(i as nat, t) >= i);
        }
    }

    lowest_search < i
}

/// Builds the skip table for a horizon of `search_steps` fused steps: one
/// entry per candidate `4m + 3` below `2^search_steps`, giving the distance
/// to the next candidate that does not fall below itself within the horizon
/// (or to the farthest point a byte can reach). A smaller table, built the
/// same way, steers the scan past candidates it already rules out.
#[verifier::rlimit(50)]
pub fn precompute_mod_skip(search_steps: u64) -> (r: Vec<u8>)
    requires
        search_steps <= MAX_SKIP_STEPS,
    ensures
        search_steps < 3 ==> r@ == seq![4u8],
        search_steps >= 3 ==> r.len() == pow2(search_steps as nat) / 4,
        forall|m: int| 0 <= m < r.len() ==> valid_skip(#[trigger] r@[m]),
        3 <= search_steps < 20 ==> forall|m: int, w: nat|
            0 <= m < r.len() - 1 && w % 4 == 3 && 4 * m + 3 < w < 4 * m + 3 + #[trigger] r@[m]
                ==> #[trigger] resolves(w, search_steps as nat),
        3 <= search_steps < 20 ==> forall|m: int|
            0 <= m < r.len() - 1 ==> lands_well((4 * m + 3 + #[trigger] r@[m]) as nat, search_steps as nat),
    decreases search_steps,
{
    if search_steps < 3 {
        let r = vec![4u8];
        assert(r@ =~= seq![4u8]);
        return r;
    }
    let small_mod_skip: Vec<u8> = if search_steps < 20 {
        vec![4u8]
    } else if search_steps < 30 {
        precompute_mod_skip(18)
    } else {
        precompute_mod_skip(27)
    };
    assert(small_mod_skip.len() > 0) by {
        if search_steps >= 20 {
            vstd::arithmetic::power2::lemma2_to64();
            lemma_pow2_monotone(18, 27);
        }
    }
    proof {
        vstd::bits::lemma_u64_pow2_no_overflow(search_steps as nat);
        vstd::bits::lemma_u64_shl_is_mul(1, search_steps);
        lemma_pow2_monotone(3, search_steps as nat);
        lemma_pow2_monotone(search_steps as nat, 33);
        vstd::arithmetic::power2::lemma2_to64();
        vstd::arithmetic::power2::lemma2_to64_rest();
    }
    let size: u64 = 1u64 << search_steps;
    proof {
        lemma_pow2_adds(2, (search_steps - 2) as nat);
        assert(size == 4 * pow2((search_steps - 2) as nat));
    }
    let quarter: usize = (size / 4) as usize;
    let mut mod_skip: Vec<u8> = vec![0u8; quarter];
    assert forall|m: int| 0 <= m < mod_skip.len() implies #[trigger] mod_skip@[m] == 0 by {
        assert(vstd::pervasive::cloned(0u8, mod_skip@[m]));
    }
    let ghost s = search_steps as nat;

    let ghost plain = search_steps < 20;
    assert(plain ==> small_mod_skip@ =~= seq![4u8]);
    let mut i: u64 = 3;
    let mut low_search: u64 = 3;
    while i < size
        invariant
            plain == (search_steps < 20),
            plain ==> small_mod_skip@ == seq![4u8],
            plain ==> i <= low_search + 252,
            plain ==> forall|w: nat|
                low_search < w < i && w % 4 == 3 ==> #[trigger] resolves(w, s),
            plain ==> forall|m: int, w: nat|
                0 <= m < low_search / 4 && w % 4 == 3 && 4 * m + 3 < w < 4 * m + 3
                    + #[trigger] mod_skip@[m] ==> #[trigger] resolves(w, s),
            plain ==> forall|m: int|
                0 <= m < low_search / 4 ==> lands_well((4 * m + 3 + #[trigger] mod_skip@[m]) as nat, s),
            plain ==> i < size || low_search == size - 1,
            3 <= search_steps <= MAX_SKIP_STEPS,
            s == search_steps,
            size == pow2(s),
            8 <= size <= 0x2_0000_0000,
            size % 4 == 0,
            quarter == size / 4,
            mod_skip.len() == quarter,
            small_mod_skip.len() > 0,
            small_mod_skip.len() <= 0x1000_0000,
            forall|m: int|
                0 <= m < small_mod_skip.len() ==> valid_skip(#[trigger] small_mod_skip@[m]),
            3 <= low_search <= i,
            i < size + 256,
            low_search < size,
            low_search % 4 == 3,
            i % 4 == 3,
            forall|m: int| 0 <= m < mod_skip.len() ==> #[trigger] mod_skip@[m] % 4 == 0
                && mod_skip@[m] <= 252,
            forall|m: int| 0 <= m < low_search / 4 ==> valid_skip(#[trigger] mod_skip@[m]),
        decreases size + 256 - i,
    {
        let resolved = falls_below_within(i, search_steps);
        let highest_target: u64 = low_search + 252;
        let (target, is_target) = if i < highest_target {
            (i, !resolved)
        } else {
            (highest_target, true)
        };

        proof {
            if plain {
                assert(target == i);
                assert(!is_target ==> resolves(i as nat, s));
                if i == size - 1 {
                    lemma_all_ones_unresolved(s);
                }
                if is_target {
                    assert(lands_well(target as nat, s));
                }
            }
        }
        if is_target {
            let mut k: u64 = low_search;
            while k < target
                invariant
                    plain ==> target == i,
                    plain ==> forall|w: nat|
                        low_search < w < target && w % 4 == 3 ==> #[trigger] resolves(w, s),
                    plain ==> forall|m: int, w: nat|
                        0 <= m < k / 4 && w % 4 == 3 && 4 * m + 3 < w < 4 * m + 3
                            + #[trigger] mod_skip@[m] ==> #[trigger] resolves(w, s),
                    plain ==> lands_well(target as nat, s),
                    plain ==> forall|m: int|
                        0 <= m < k / 4 ==> lands_well((4 * m + 3 + #[trigger] mod_skip@[m]) as nat, s),
                    low_search <= k,
                    k <= target,
                    target <= low_search + 252,
                    target < size,
                    target % 4 == 3,
                    k % 4 == 3,
                    low_search % 4 == 3,
                    quarter == size / 4,
                    mod_skip.len() == quarter,
                    forall|m: int| 0 <= m < mod_skip.len() ==> #[trigger] mod_skip@[m] % 4 == 0
                        && mod_skip@[m] <= 252,
                    forall|m: int| 0 <= m < k / 4 ==> valid_skip(#[trigger] mod_skip@[m]),
                decreases target - k,
            {
                mod_skip.set((k / 4) as usize, (target - k) as u8);
                k = k + 4;
            }
            low_search = target;
        }

        let slot = ((i / 4) & ((small_mod_skip.len() - 1) as u64)) as usize;
        proof {
            let q = i / 4;
            let mask = (small_mod_skip.len() - 1) as u64;
            assert(q & mask <= mask) by (bit_vector);
            assert(q & 0 == 0) by (bit_vector);
        }
        i = i + small_mod_skip[slot] as u64;
    }

    // Candidates past the last target are left to be checked one by one.
    let mut m: usize = (low_search / 4) as usize;
    while m + 1 < quarter
        invariant
            low_search / 4 <= m + 1 <= quarter,
            low_search / 4 <= m,
            quarter >= 2,
            quarter == size / 4,
            size % 4 == 0,
            mod_skip.len() == quarter,
            forall|x: int| 0 <= x < mod_skip.len() ==> #[trigger] mod_skip@[x] % 4 == 0
                && mod_skip@[x] <= 252,
            forall|x: int| 0 <= x < m ==> valid_skip(#[trigger] mod_skip@[x]),
            plain ==> forall|x: int, w: nat|
                0 <= x < m && w % 4 == 3 && 4 * x + 3 < w < 4 * x + 3 + #[trigger] mod_skip@[x]
                    ==> #[trigger] resolves(w, s),
            plain ==> low_search == size - 1 && m == low_search / 4,
            plain ==> forall|x: int|
                0 <= x < m ==> lands_well((4 * x + 3 + #[trigger] mod_skip@[x]) as nat, s),
        decreases quarter - m,
    {
        mod_skip.set(m, 4);
        m = m + 1;
    }

    // The last entry closes the table into a ring: four past the first
    // entry's target, or the next candidate where that is out of reach.
    let first = mod_skip[0];
    let last: u8 = if first <= 248 { first + 4 } else { 4 };
    mod_skip.set(quarter - 1, last);
    mod_skip
}

/// The base-two logarithm, rounded down (zero for zero and one).
pub open spec fn log2(n: nat) -> nat
    decreases n,
{
    if n <= 1 {
        0
    } else {
        1 + log2(n / 2)
    }
}

/// The entry of a step table that a value selects: its low word masked by
/// the table length less one.
pub open spec fn step_index(v: nat, len: nat) -> int {
    (((v % word_base()) as u64) & ((len - 1) as u64)) as int
}

/// One table lookup applied to `v`, before trailing zeros are removed: the
/// low `log2(len)` bits are shifted out, then the entry's product and sum
/// are applied.
pub open spec fn table_raw(steps: Seq<ProductSum>, v: nat) -> nat {
    let e = steps[step_index(v, steps.len())];
    (v / pow2(log2(steps.len()))) * e.product as nat + e.sum as nat
}

/// One table-accelerated step, normalised by removing trailing zeros.
pub open spec fn table_step(steps: Seq<ProductSum>, v: nat) -> nat {
    strip_twos(table_raw(steps, v))
}

/// `n` table-accelerated steps from `v`.
pub open spec fn table_iter(steps: Seq<ProductSum>, v: nat, n: nat) -> nat
    decreases n,
{
    if n == 0 {
        v
    } else {
        table_step(steps, table_iter(steps, v, (n - 1) as nat))
    }
}

/// The largest number of table steps spent on one candidate.
pub const MAX_TRAJECTORY_STEPS: u64 = 0xffff_ffff_ffff_ffff;

/// The first `n` accelerated steps from `c` stay at or above `c`, and each of
/// them fits in 128 bits before it is normalised.
pub open spec fn climbs(steps: Seq<ProductSum>, c: nat, n: nat) -> bool {
    forall|i: nat|
        i < n ==> #[trigger] table_iter(steps, c, i) >= c && table_raw(steps, table_iter(steps, c, i))
            < big_limit()
}

/// The accelerated trajectory of `c` falls below `c`, within 128 bits and
/// within `MAX_TRAJECTORY_STEPS` steps.
pub open spec fn descends(steps: Seq<ProductSum>, c: nat) -> bool {
    exists|n: nat|
        n <= MAX_TRAJECTORY_STEPS && climbs(steps, c, n) && #[trigger] table_iter(steps, c, n) < c
}

/// The accelerated trajectory of `c` is abandoned while still at or above
/// `c`: its next step needs more than 128 bits, or the step budget is spent.
pub open spec fn gives_up(steps: Seq<ProductSum>, c: nat) -> bool {
    exists|n: nat|
        n <= MAX_TRAJECTORY_STEPS && climbs(steps, c, n) && #[trigger] table_iter(steps, c, n) >= c
            && (n == MAX_TRAJECTORY_STEPS || table_raw(steps, table_iter(steps, c, n))
            >= big_limit())
}

proof fn lemma_log2_pow2(k: nat)
    ensures
        log2(pow2(k)) == k,
    decreases k,
{
    if k > 0 {
        lemma_pow2_unfold(k);
        lemma_pow2_pos((k - 1) as nat);
        lemma_log2_pow2((k - 1) as nat);
        assert(pow2(k) / 2 == pow2((k - 1) as nat));
    } else {
        vstd::arithmetic::power2::lemma2_to64();
    }
}

/// In a table of `2^k` entries a value selects the entry of its residue
/// modulo `2^k`.
proof fn lemma_step_index_pow2(v: nat, k: nat)
    requires
        k < 64,
    ensures
        step_index(v, pow2(k)) == v % pow2(k),
{
    let low = (v % word_base()) as u64;
    lemma_pow2_pos(k);
    vstd::bits::lemma_u64_pow2_no_overflow(k);
    vstd::bits::lemma_u64_low_bits_mask_is_mod(low, k);
    assert(vstd::bits::low_bits_mask(k) == pow2(k) - 1);
    lemma_pow2_adds(k, (64 - k) as nat);
    vstd::arithmetic::power2::lemma2_to64_rest();
    lemma_pow2_pos((64 - k) as nat);
    vstd::arithmetic::div_mod::lemma_mod_mod(v as int, pow2(k) as int, pow2((64 - k) as nat) as int);
}

/// The table step that `compute_range` takes agrees with single fused steps:
/// with a step table for `k` steps, one lookup, shift, multiply and add on
/// any value `v` gives exactly the value `k` fused steps from `v` reach.
pub proof fn lemma_table_raw_is_fused(steps: Seq<ProductSum>, k: nat, v: nat)
    requires
        is_step_table(steps, k),
        k < 64,
    ensures
        table_raw(steps, v) == fused_iter(v, k),
{
    lemma_log2_pow2(k);
    lemma_step_index_pow2(v, k);
    lemma_table_step(steps, k, v);
    let i = (v % pow2(k)) as int;
    lemma_pow2_pos(k);
    assert(0 <= i < steps.len());
    let e = steps[i];
    let a = v / pow2(k);
    assert(a * e.product + e.sum == fused_iter(v, k));
    assert(step_index(v, steps.len()) == i);
    assert(pow2(log2(steps.len())) == pow2(k));
    assert(table_raw(steps, v) == a * (e.product as nat) + e.sum as nat);
}

/// Removing trailing zeros is a run of fused steps (halvings).
proof fn lemma_strip_is_fused(x: nat)
    ensures
        exists|e: nat| #[trigger] fused_iter(x, e) == strip_twos(x),
    decreases x,
{
    if x == 0 || x % 2 == 1 {
        assert(fused_iter(x, 0) == strip_twos(x));
    } else {
        lemma_strip_is_fused(x / 2);
        let e = choose|e: nat| #[trigger] fused_iter(x / 2, e) == strip_twos(x / 2);
        lemma_iter_add(x, 1, e);
        assert(fused_iter(x, 0) == x);
        assert(fused_iter(x, 1) == fused_step(x));
        assert(fused_iter(x, 1) == x / 2);
        assert(fused_iter(x, 1 + e) == strip_twos(x));
    }
}

/// With a genuine step table every accelerated trajectory point is a point
/// of the Collatz trajectory in fused steps.
proof fn lemma_table_iter_is_fused(steps: Seq<ProductSum>, k: nat, c: nat, n: nat)
    requires
        is_step_table(steps, k),
        k < 64,
    ensures
        exists|t: nat| #[trigger] fused_iter(c, t) == table_iter(steps, c, n),
    decreases n,
{
    if n == 0 {
        assert(fused_iter(c, 0) == table_iter(steps, c, 0));
    } else {
        let p = (n - 1) as nat;
        lemma_table_iter_is_fused(steps, k, c, p);
        let t = choose|t: nat| #[trigger] fused_iter(c, t) == table_iter(steps, c, p);
        let v = table_iter(steps, c, p);
        lemma_table_raw_is_fused(steps, k, v);
        lemma_strip_is_fused(fused_iter(v, k));
        let e = choose|e: nat| #[trigger] fused_iter(fused_iter(v, k), e) == strip_twos(fused_iter(v, k));
        lemma_iter_add(c, t, k);
        lemma_iter_add(c, t + k, e);
        assert(fused_iter(c, t + k + e) == table_iter(steps, c, n));
    }
}

/// A candidate whose accelerated trajectory falls below it, stepped with a
/// step table built for `k >= 1` steps, truly falls below itself under the
/// Collatz map: what `compute_range` confirms holds of the map itself.
pub proof fn lemma_descends_is_collatz(steps: Seq<ProductSum>, k: nat, c: nat)
    requires
        is_step_table(steps, k),
        k < 64,
        descends(steps, c),
    ensures
        exists|t: nat| #[trigger] fused_iter(c, t) < c,
{
    let n = choose|n: nat|
        n <= MAX_TRAJECTORY_STEPS && climbs(steps, c, n) && #[trigger] table_iter(steps, c, n) < c;
    lemma_table_iter_is_fused(steps, k, c, n);
    let t = choose|t: nat| #[trigger] fused_iter(c, t) == table_iter(steps, c, n);
    assert(fused_iter(c, t) < c);
}

/// The skip table slot for a candidate: a quarter of it, masked by the table
/// length less one.
pub open spec fn skip_index(c: nat, len: nat) -> int {
    (((c / 4) as u64) & ((len - 1) as u64)) as int
}

/// Residues modulo nine of candidates that are reached from a smaller
/// starting value, and so need no check of their own.
pub open spec fn redundant_mod9(c: nat) -> bool {
    let r = c % 9;
    r == 2 || r == 4 || r == 5 || r == 8
}

/// The candidate after `c`: follow the skip table, and again while the value
/// lands on a redundant residue. `None` when a skip makes no progress or
/// leaves the 64-bit range.
pub open spec fn next_candidate(skips: Seq<u8>, c: nat) -> Option<nat>
    decreases u64::MAX + 1 - c,
{
    let d = c + skips[skip_index(c, skips.len())] as nat;
    if d <= c || d > u64::MAX {
        None
    } else if redundant_mod9(d) {
        next_candidate(skips, d)
    } else {
        Some(d)
    }
}

/// The `j`-th candidate of the walk that starts at `start` rounded up to
/// three modulo four.
pub open spec fn candidate(start: u64, skips: Seq<u8>, j: nat) -> Option<nat>
    decreases j,
{
    if j == 0 {
        Some((start | 3) as nat)
    } else {
        match candidate(start, skips, (j - 1) as nat) {
            Some(c) => next_candidate(skips, c),
            None => None,
        }
    }
}

/// The walk from `start` visits `c` as its `j`-th candidate.
pub open spec fn visits(start: u64, skips: Seq<u8>, j: nat, c: nat) -> bool {
    candidate(start, skips, j) == Some(c)
}

/// What `compute_range(start, end, steps, skips)` returns.
///
/// With an empty table nothing is verified and the result is zero. Otherwise
/// the result `r` is at most `end`, and every candidate of the walk up to `r`
/// has an accelerated trajectory that falls below it. `r` is below `end`
/// only where the walk could not go on: `r + 1` is a candidate whose
/// trajectory was given up, or `r` is a candidate after which the walk
/// stalls; a stall within the range always bounds `r`.
pub open spec fn range_result(
    start: u64,
    end: u64,
    steps: Seq<ProductSum>,
    skips: Seq<u8>,
    r: u64,
) -> bool {
    if steps.len() == 0 || skips.len() == 0 {
        r == 0
    } else {
        &&& r <= end
        &&& forall|j: nat, c: nat|
            #[trigger] visits(start, skips, j, c) && c <= r ==> descends(steps, c)
        &&& forall|j: nat, c: nat|
            #[trigger] visits(start, skips, j, c) && c <= end && candidate(start, skips, j + 1)
                is None ==> r <= c
        &&& r < end ==> exists|j: nat, c: nat|
            #[trigger] visits(start, skips, j, c) && c <= end && ((r + 1 == c && gives_up(steps, c))
                || (r == c && candidate(start, skips, j + 1) is None))
    }
}

proof fn lemma_next_candidate_grows(skips: Seq<u8>, c: nat)
    requires
        next_candidate(skips, c) is Some,
    ensures
        c < next_candidate(skips, c)->0 <= u64::MAX,
    decreases u64::MAX + 1 - c,
{
    let d = c + skips[skip_index(c, skips.len())] as nat;
    if d > c && d <= u64::MAX && redundant_mod9(d) {
        lemma_next_candidate_grows(skips, d);
    }
}

/// The walk strictly increases: an earlier candidate is smaller.
proof fn lemma_walk_increases(start: u64, skips: Seq<u8>, a: nat, b: nat)
    requires
        a < b,
        candidate(start, skips, b) is Some,
    ensures
        candidate(start, skips, a) is Some,
        candidate(start, skips, a)->0 < candidate(start, skips, b)->0,
    decreases b,
{
    let p = (b - 1) as nat;
    assert(candidate(start, skips, p) is Some);
    lemma_next_candidate_grows(skips, candidate(start, skips, p)->0);
    if a < p {
        lemma_walk_increases(start, skips, a, p);
    }
}

/// A candidate's trajectory cannot both fall below it and be given up.
pub proof fn lemma_descends_excludes_gives_up(steps: Seq<ProductSum>, c: nat)
    requires
        descends(steps, c),
    ensures
        !gives_up(steps, c),
{
    let n1 = choose|n: nat|
        n <= MAX_TRAJECTORY_STEPS && climbs(steps, c, n) && #[trigger] table_iter(steps, c, n) < c;
    if gives_up(steps, c) {
        let n2 = choose|n: nat|
            n <= MAX_TRAJECTORY_STEPS && climbs(steps, c, n) && #[trigger] table_iter(steps, c, n)
                >= c && (n == MAX_TRAJECTORY_STEPS || table_raw(steps, table_iter(steps, c, n))
                >= big_limit());
        if n1 < n2 {
            assert(table_iter(steps, c, n1) >= c);
        } else if n2 < n1 {
            assert(table_raw(steps, table_iter(steps, c, n2)) < big_limit());
        }
    }
}

/// A single value is verified whenever its accelerated trajectory falls
/// below it: `compute_range(n, n, ..)` with non-empty tables returns `n`.
/// Values other than three modulo four need no trajectory at all.
pub proof fn lemma_single_value_verified(n: u64, steps: Seq<ProductSum>, skips: Seq<u8>, r: u64)
    requires
        steps.len() > 0,
        skips.len() > 0,
        range_result(n, n, steps, skips, r),
        n % 4 == 3 ==> descends(steps, n as nat),
    ensures
        r == n,
{
    assert((n | 3) >= n && ((n | 3) == n ==> n % 4 == 3)) by (bit_vector);
    if r < n {
        let (j, c) = choose|j: nat, c: nat|
            #[trigger] visits(n, skips, j, c) && c <= n && ((r + 1 == c && gives_up(steps, c)) || (r
                == c && candidate(n, skips, j + 1) is None));
        if j > 0 {
            lemma_walk_increases(n, skips, 0, j);
        } else {
            lemma_descends_excludes_gives_up(steps, c);
        }
    }
}

/// `range_result` pins the result down: at most one value meets it.
pub proof fn lemma_range_result_unique(
    start: u64,
    end: u64,
    steps: Seq<ProductSum>,
    skips: Seq<u8>,
    r: u64,
    q: u64,
)
    requires
        range_result(start, end, steps, skips, r),
        range_result(start, end, steps, skips, q),
    ensures
        r == q,
{
    if steps.len() > 0 && skips.len() > 0 {
        lemma_range_result_below(start, end, steps, skips, r, q);
        lemma_range_result_below(start, end, steps, skips, q, r);
    }
}

proof fn lemma_range_result_below(
    start: u64,
    end: u64,
    steps: Seq<ProductSum>,
    skips: Seq<u8>,
    r: u64,
    q: u64,
)
    requires
        steps.len() > 0,
        skips.len() > 0,
        range_result(start, end, steps, skips, r),
        range_result(start, end, steps, skips, q),
    ensures
        q <= r,
{
    if r < q {
        let (j, c) = choose|j: nat, c: nat|
            #[trigger] visits(start, skips, j, c) && c <= end && ((r + 1 == c && gives_up(steps, c))
                || (r == c && candidate(start, skips, j + 1) is None));
        if r + 1 == c && gives_up(steps, c) {
            assert(descends(steps, c));
            lemma_descends_excludes_gives_up(steps, c);
        }
    }
}

/// Past a candidate the walk from `start` shares with the walk from
/// `other`, the two walks go on alike.
proof fn lemma_walk_shift(start: u64, other: u64, skips: Seq<u8>, j0: nat, k: nat)
    requires
        candidate(start, skips, j0) == Some((other | 3) as nat),
    ensures
        candidate(start, skips, j0 + k) == candidate(other, skips, k),
    decreases k,
{
    if k > 0 {
        lemma_walk_shift(start, other, skips, j0, (k - 1) as nat);
        assert(j0 + k - 1 == j0 + (k - 1) as nat);
    }
}

/// Splitting a range in two changes nothing, where the walk over the whole
/// range passes through the first candidate of the second part: the whole
/// range gives the first part's result when that part stops short, and the
/// second part's result otherwise.
pub proof fn lemma_split_range(
    start: u64,
    mid: u64,
    end: u64,
    steps: Seq<ProductSum>,
    skips: Seq<u8>,
    first: u64,
    second: u64,
    whole: u64,
    j0: nat,
)
    requires
        steps.len() > 0,
        skips.len() > 0,
        start <= mid < end,
        range_result(start, mid, steps, skips, first),
        range_result((mid + 1) as u64, end, steps, skips, second),
        range_result(start, end, steps, skips, whole),
        candidate(start, skips, j0) == Some((((mid + 1) as u64) | 3) as nat),
        j0 == 0 || (candidate(start, skips, (j0 - 1) as nat) matches Some(c) && c <= mid),
    ensures
        whole == if first < mid {
            first
        } else {
            second
        },
{
    let other = (mid + 1) as u64;
    // every candidate past `mid` comes at or after index `j0`
    assert forall|j: nat, c: nat| #[trigger] visits(start, skips, j, c) && c > mid implies j >= j0 by {
        if j < j0 {
            if j < j0 - 1 {
                lemma_walk_increases(start, skips, j, (j0 - 1) as nat);
            }
        }
    }
    assert forall|j: nat, c: nat| #[trigger] visits(start, skips, j, c) && j >= j0 implies visits(
        other,
        skips,
        (j - j0) as nat,
        c,
    ) by {
        lemma_walk_shift(start, other, skips, j0, (j - j0) as nat);
    }
    if first < mid {
        assert(range_result(start, end, steps, skips, first));
        lemma_range_result_unique(start, end, steps, skips, whole, first);
    } else {
        assert forall|j: nat, c: nat| #[trigger] visits(start, skips, j, c) && c <= second implies descends(
            steps,
            c,
        ) by {
            if c > mid {
                assert(visits(other, skips, (j - j0) as nat, c));
            }
        }
        assert forall|j: nat, c: nat|
            #[trigger] visits(start, skips, j, c) && c <= end && candidate(start, skips, j + 1)
                is None implies second <= c by {
            if c <= mid {
                if j + 1 < j0 {
                    lemma_walk_increases(start, skips, j + 1, j0);
                }
            } else {
                let k = (j - j0) as nat;
                assert(visits(other, skips, k, c));
                lemma_walk_shift(start, other, skips, j0, k + 1);
                assert(j0 + (k + 1) == j + 1);
            }
        }
        if second < end {
            let (k, c) = choose|k: nat, c: nat|
                #[trigger] visits(other, skips, k, c) && c <= end && ((second + 1 == c && gives_up(
                    steps,
                    c,
                )) || (second == c && candidate(other, skips, k + 1) is None));
            lemma_walk_shift(start, other, skips, j0, k);
            lemma_walk_shift(start, other, skips, j0, k + 1);
            assert(j0 + (k + 1) == (j0 + k) + 1);
            assert(visits(start, skips, j0 + k, c));
        }
        assert(range_result(start, end, steps, skips, second));
        lemma_range_result_unique(start, end, steps, skips, whole, second);
    }
}

proof fn lemma_log2_bound(n: nat, e: nat)
    requires
        n < pow2(e),
        e >= 1,
    ensures
        log2(n) < e,
    decreases e,
{
    if n > 1 {
        lemma_pow2_unfold(e);
        vstd::arithmetic::power2::lemma2_to64();
        if e == 1 {
            assert(false);
        } else {
            lemma_log2_bound(n / 2, (e - 1) as nat);
        }
    }
}

/// The step count a step table of length `len` stands for.
fn table_log2(len: usize) -> (k: u32)
    ensures
        k == log2(len as nat),
        k < 64,
{
    let mut m: usize = len;
    let mut k: u32 = 0;
    proof {
        vstd::arithmetic::power2::lemma2_to64_rest();
        lemma_log2_bound(len as nat, 64);
    }
    while m > 1
        invariant
            log2(len as nat) == k + log2(m as nat),
            log2(len as nat) < 64,
        decreases m,
    {
        m = m / 2;
        k = k + 1;
    }
    k
}

/// Verifies that every candidate of the range from `search_start` to
/// `search_end` has an accelerated Collatz trajectory that falls below it,
/// walking the candidates with the skip table and stepping trajectories with
/// the step table. Returns `search_end` when the whole range is verified;
/// otherwise the last value it can vouch for (see `range_result`).
pub fn compute_range(
    search_start: u64,
    search_end: u64,
    precomputed_constants: &[ProductSum],
    mod_skip: &[u8],
) -> (r: u64)
    ensures
        range_result(search_start, search_end, precomputed_constants@, mod_skip@, r),
{
    if precomputed_constants.len() == 0 || mod_skip.len() == 0 {
        return 0;
    }
    let ghost steps = precomputed_constants@;
    let ghost skips = mod_skip@;
    let constants_mask: u64 = (precomputed_constants.len() - 1) as u64;
    let constants_steps: u32 = table_log2(precomputed_constants.len());
    let mod_skip_mask: u64 = (mod_skip.len() - 1) as u64;

    let mut trailing_search: u64 = search_start | 3;
    assert(search_start | 3 >= 3) by (bit_vector);
    let ghost mut j: nat = 0;
    while trailing_search <= search_end
        invariant
            steps == precomputed_constants@,
            skips == mod_skip@,
            steps.len() > 0,
            skips.len() > 0,
            constants_mask == steps.len() - 1,
            mod_skip_mask == skips.len() - 1,
            constants_steps == log2(steps.len()),
            constants_steps < 64,
            trailing_search >= 3,
            visits(search_start, skips, j, trailing_search as nat),
            forall|i: nat, c: nat|
                i < j && #[trigger] visits(search_start, skips, i, c) ==> c <= search_end
                    && descends(steps, c) && candidate(search_start, skips, i + 1) is Some,
        decreases u64::MAX - trailing_search,
    {
        let ghost c = trailing_search as nat;
        let mut current = BigInt { low: trailing_search, high: 0 };
        let mut taken: u64 = 0;
        while current.high > 0 || current.low >= trailing_search
            invariant
                steps == precomputed_constants@,
                steps.len() > 0,
                constants_mask == steps.len() - 1,
                constants_steps == log2(steps.len()),
                constants_steps < 64,
                c == trailing_search,
                3 <= c <= search_end,
                skips == mod_skip@,
                skips.len() > 0,
                mod_skip_mask == skips.len() - 1,
                visits(search_start, skips, j, c),
                forall|i: nat, cc: nat|
                    i < j && #[trigger] visits(search_start, skips, i, cc) ==> cc <= search_end
                        && descends(steps, cc) && candidate(search_start, skips, i + 1) is Some,
                current@ == table_iter(steps, c, taken as nat),
                climbs(steps, c, taken as nat),
            decreases MAX_TRAJECTORY_STEPS - taken,
        {
            proof {
                lemma_low_word(current);
            }
            if taken == MAX_TRAJECTORY_STEPS {
                proof {
                    lemma_range_gives_up(search_start, search_end, steps, skips, j, c, taken as nat);
                }
                return trailing_search - 1;
            }
            let index = (current.low & constants_mask) as usize;
            proof {
                let low = current.low;
                assert(low & constants_mask <= constants_mask) by (bit_vector);
            }
            let entry = precomputed_constants[index];
            let ghost v = current@;
            current.shr_assign(constants_steps);
            let shifted = current;
            current = match current.checked_mul(entry.product) {
                Some(x) => x,
                None => {
                    proof {
                        assert(table_raw(steps, v) >= big_limit()) by (nonlinear_arith)
                            requires
                                table_raw(steps, v) == shifted@ * entry.product + entry.sum,
                                shifted@ * entry.product >= big_limit(),
                        ;
                        lemma_range_gives_up(search_start, search_end, steps, skips, j, c, taken as nat);
                    }
                    return trailing_search - 1;
                },
            };
            current = match current.checked_add(entry.sum) {
                Some(x) => x,
                None => {
                    proof {
                        lemma_range_gives_up(search_start, search_end, steps, skips, j, c, taken as nat);
                    }
                    return trailing_search - 1;
                },
            };
            current = current.remove_trailing_zeros();
            proof {
                assert forall|i: nat| i < taken + 1 implies #[trigger] table_iter(steps, c, i) >= c
                    && table_raw(steps, table_iter(steps, c, i)) < big_limit() by {
                    if i < taken {
                    }
                }
            }
            taken = taken + 1;
        }
        proof {
            lemma_low_word(current);
            assert(descends(steps, c)) by {
                assert(table_iter(steps, c, taken as nat) < c);
            }
        }

        let search = trailing_search;
        let mut next = trailing_search;
        loop
            invariant_except_break
                next == search || redundant_mod9(next as nat),
                next_candidate(skips, search as nat) == if next == search {
                    next_candidate(skips, search as nat)
                } else {
                    next_candidate(skips, next as nat)
                },
            invariant
                steps == precomputed_constants@,
                steps.len() > 0,
                skips == mod_skip@,
                skips.len() > 0,
                mod_skip_mask == skips.len() - 1,
                c == search,
                3 <= c <= search_end,
                visits(search_start, skips, j, c),
                descends(steps, c),
                forall|i: nat, cc: nat|
                    i < j && #[trigger] visits(search_start, skips, i, cc) ==> cc <= search_end
                        && descends(steps, cc) && candidate(search_start, skips, i + 1) is Some,
                search <= next,
            ensures
                search < next,
                next_candidate(skips, search as nat) == Some(next as nat),
            decreases u64::MAX - next,
        {
            let slot = ((next / 4) & mod_skip_mask) as usize;
            proof {
                let q = next / 4;
                assert(q & mod_skip_mask <= mod_skip_mask) by (bit_vector);
            }
            let skip = mod_skip[slot] as u64;
            if skip == 0 || next > u64::MAX - skip {
                proof {
                    assert(next_candidate(skips, search as nat) is None);
                    lemma_range_stalls(search_start, search_end, steps, skips, j, c);
                }
                return search;
            }
            next = next + skip;
            if next % 9 != 2 && next % 9 != 4 && next % 9 != 5 && next % 9 != 8 {
                break;
            }
        }
        proof {
            assert(next_candidate(skips, search as nat) == Some(next as nat));
            assert(visits(search_start, skips, j + 1, next as nat));
            assert forall|i: nat, cc: nat|
                i < j + 1 && #[trigger] visits(search_start, skips, i, cc) implies cc <= search_end
                    && descends(steps, cc) && candidate(search_start, skips, i + 1) is Some by {
                if i == j {
                    assert(cc == c);
                }
            }
            j = j + 1;
        }
        trailing_search = next;
    }
    proof {
        lemma_range_complete(search_start, search_end, steps, skips, j, trailing_search as nat);
    }
    search_end
}

/// The low word of a `BigInt` is its value modulo `2^64`, and the value is
/// below a one-word bound exactly when the high word is zero and the low word
/// is below it.
proof fn lemma_low_word(b: BigInt)
    ensures
        b.low == b@ % word_base(),
        b@ < word_base() <==> b.high == 0,
        b.high == 0 ==> b@ == b.low,
{
    lemma_fundamental_div_mod_converse(b@ as int, word_base() as int, b.high as int, b.low as int);
}

proof fn lemma_range_gives_up(
    start: u64,
    end: u64,
    steps: Seq<ProductSum>,
    skips: Seq<u8>,
    j: nat,
    c: nat,
    n: nat,
)
    requires
        steps.len() > 0,
        skips.len() > 0,
        3 <= c <= end,
        visits(start, skips, j, c),
        forall|i: nat, cc: nat|
            i < j && #[trigger] visits(start, skips, i, cc) ==> cc <= end && descends(steps, cc)
                && candidate(start, skips, i + 1) is Some,
        n <= MAX_TRAJECTORY_STEPS,
        climbs(steps, c, n),
        table_iter(steps, c, n) >= c,
        n == MAX_TRAJECTORY_STEPS || table_raw(steps, table_iter(steps, c, n)) >= big_limit(),
    ensures
        range_result(start, end, steps, skips, (c - 1) as u64),
{
    assert(gives_up(steps, c));
    let r = (c - 1) as u64;
    assert forall|i: nat, cc: nat| #[trigger] visits(start, skips, i, cc) && cc <= r implies descends(
        steps,
        cc,
    ) by {
        if i >= j {
            if i > j {
                lemma_walk_increases(start, skips, j, i);
            }
        }
    }
    assert forall|i: nat, cc: nat|
        #[trigger] visits(start, skips, i, cc) && cc <= end && candidate(start, skips, i + 1)
            is None implies r <= cc by {
        if i > j {
            lemma_walk_increases(start, skips, j, i);
        }
    }
    assert(visits(start, skips, j, c));
}

proof fn lemma_range_stalls(
    start: u64,
    end: u64,
    steps: Seq<ProductSum>,
    skips: Seq<u8>,
    j: nat,
    c: nat,
)
    requires
        steps.len() > 0,
        skips.len() > 0,
        c <= end,
        visits(start, skips, j, c),
        descends(steps, c),
        next_candidate(skips, c) is None,
        forall|i: nat, cc: nat|
            i < j && #[trigger] visits(start, skips, i, cc) ==> cc <= end && descends(steps, cc)
                && candidate(start, skips, i + 1) is Some,
    ensures
        range_result(start, end, steps, skips, c as u64),
{
    assert(candidate(start, skips, j + 1) is None);
    assert forall|i: nat, cc: nat| #[trigger] visits(start, skips, i, cc) && cc <= c implies descends(
        steps,
        cc,
    ) by {
        if i > j {
            assert(candidate(start, skips, i) is Some);
            lemma_walk_increases(start, skips, j + 1, i);
        }
    }
    assert forall|i: nat, cc: nat|
        #[trigger] visits(start, skips, i, cc) && cc <= end && candidate(start, skips, i + 1)
            is None implies c <= cc by {
        if i > j {
            lemma_walk_increases(start, skips, j, i);
        }
    }
}

proof fn lemma_range_complete(
    start: u64,
    end: u64,
    steps: Seq<ProductSum>,
    skips: Seq<u8>,
    j: nat,
    c: nat,
)
    requires
        steps.len() > 0,
        skips.len() > 0,
        c > end,
        visits(start, skips, j, c),
        forall|i: nat, cc: nat|
            i < j && #[trigger] visits(start, skips, i, cc) ==> cc <= end && descends(steps, cc)
                && candidate(start, skips, i + 1) is Some,
    ensures
        range_result(start, end, steps, skips, end),
{
    assert forall|i: nat, cc: nat| #[trigger] visits(start, skips, i, cc) && cc <= end implies i < j by {
        if i > j {
            lemma_walk_increases(start, skips, j, i);
        }
    }
}

} // verus!
