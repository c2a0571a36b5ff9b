//! A 128-bit unsigned integer held as two 64-bit words, with just the
//! operations that iterating the Collatz map needs.
use vstd::prelude::*;
use vstd::arithmetic::power2::{pow2, lemma_pow2_adds, lemma_pow2_pos};
use vstd::arithmetic::div_mod::{lemma_fundamental_div_mod, lemma_fundamental_div_mod_converse};
use vstd::bits::{lemma_u64_shr_is_div, lemma_u64_shl_is_mul, lemma_u64_pow2_no_overflow};

verus! {

/// 2^64, the weight of the high word.
pub open spec fn word_base() -> nat {
    0x1_0000_0000_0000_0000
}

/// 2^128, one past the largest value a `BigInt` can hold.
pub open spec fn big_limit() -> nat {
    word_base() * word_base()
}

/// A 128-bit unsigned integer: `high * 2^64 + low`.
#[derive(Clone, Copy, Debug, PartialEq, Eq, Structural)]
pub struct BigInt {
    pub low: u64,
    pub high: u64,
}

impl View for BigInt {
    type V = nat;

    open spec fn view(&self) -> nat {
        self.high as nat * word_base() + self.low as nat
    }
}

/// `n` with every factor two divided out (zero stays zero).
pub open spec fn strip_twos(n: nat) -> nat
    decreases n,
{
    if n == 0 || n % 2 == 1 {
        n
    } else {
        strip_twos(n / 2)
    }
}

impl BigInt {
    /// Adds a 32-bit operand; `None` exactly when the sum needs more than 128 bits.
    pub fn checked_add(self, rhs: u32) -> (r: Option<BigInt>)
        ensures
            match r {
                Some(s) => self@ + rhs < big_limit() && s@ == self@ + rhs,
                None => self@ + rhs >= big_limit(),
            },
    {
        let rhs = rhs as u64;
        if self.low <= u64::MAX - rhs {
            Some(BigInt { low: self.low + rhs, high: self.high })
        } else if self.high < u64::MAX {
            Some(BigInt { low: rhs - (u64::MAX - self.low) - 1, high: self.high + 1 })
        } else {
            None
        }
    }

    /// Multiplies by a 32-bit operand; `None` exactly when the product needs
    /// more than 128 bits. The carry out of the low word is formed from the
    /// low word's two 32-bit halves, so no wider multiply is needed.
    pub fn checked_mul(self, rhs: u32) -> (r: Option<BigInt>)
        ensures
            match r {
                Some(s) => self@ * rhs < big_limit() && s@ == self@ * rhs,
                None => self@ * rhs >= big_limit(),
            },
    {
        let rhs = rhs as u64;
        proof {
            lemma_value_mul(self, rhs as nat);
        }
        let high = match self.high.checked_mul(rhs) {
            Some(h) => h,
            None => {
                proof {
                    assert(self.high as nat * rhs as nat * word_base() >= word_base() * word_base())
                        by (nonlinear_arith)
                        requires
                            self.high as nat * rhs as nat >= word_base(),
                    ;
                }
                return None;
            },
        };
        match self.low.checked_mul(rhs) {
            Some(low) => Some(BigInt { low, high }),
            None => {
                let low = self.low.wrapping_mul(rhs);
                let lower = self.low & 0xffff_ffff;
                proof {
                    let low_word = self.low;
                    assert(low_word & 0xffff_ffff <= 0xffff_ffff) by (bit_vector);
                    lemma_mul_carry(self.low, rhs);
                    assert(lower * rhs <= 0xffff_ffff * 0xffff_ffff) by (nonlinear_arith)
                        requires
                            lower <= 0xffff_ffff,
                            rhs <= 0xffff_ffff,
                    ;
                }
                let k = (lower * rhs) >> 32;
                let t = (self.low >> 32) * rhs + k;
                let carry = t >> 32;
                match high.checked_add(carry) {
                    Some(h) => Some(BigInt { low, high: h }),
                    None => None,
                }
            },
        }
    }

    /// Shifts right by `rhs` bits, carrying the high word's low bits into the
    /// low word. A shift by zero is handled apart, since it would move the
    /// high word left by the full width.
    pub fn shr_assign(&mut self, rhs: u32)
        requires
            rhs < 64,
        ensures
            final(self)@ == old(self)@ / pow2(rhs as nat),
    {
        if rhs == 0 {
            proof {
                vstd::arithmetic::power2::lemma2_to64();
                assert(old(self)@ / 1 == old(self)@);
            }
            return;
        }
        let low = self.low;
        let high = self.high;
        proof {
            lemma_shr_value(low, high, rhs);
        }
        self.low = (low >> rhs) | (high << (64 - rhs));
        self.high = high >> rhs;
    }

    /// Divides out every factor two: the result is odd, or zero when the
    /// value is zero. A zero low word is handled first by moving the high word
    /// down, since its trailing zero count would be the full width.
    pub fn remove_trailing_zeros(self) -> (r: BigInt)
        ensures
            r@ == strip_twos(self@),
    {
        let mut r = if self.low == 0 {
            proof {
                lemma_strip_twos_scaled(self.high as nat, 64);
                vstd::arithmetic::power2::lemma2_to64_rest();
            }
            BigInt { low: self.high, high: 0 }
        } else {
            self
        };
        if r.low == 0 {
            return r;
        }
        let shift = r.low.trailing_zeros();
        proof {
            lemma_strip_low_odd(r, shift);
        }
        r.shr_assign(shift);
        r
    }
}

/// Dividing by `2^e` a value with `e` trailing zero bits in its (nonzero) low
/// word leaves an odd value with the same stripped form.
proof fn lemma_strip_low_odd(b: BigInt, e: u32)
    requires
        b.low != 0,
        e == b.low.trailing_zeros(),
    ensures
        e < 64,
        strip_twos(b@) == b@ / pow2(e as nat),
{
    vstd::std_specs::bits::axiom_u64_trailing_zeros(b.low);
    let low = b.low;
    let high = b.high;
    let ee = e as u64;
    assert(ee < 64);
    lemma_u64_shr_is_div(low, ee);
    lemma_pow2_pos(e as nat);
    let p = pow2(e as nat);
    let q = pow2((64 - e) as nat);
    lemma_pow2_adds(e as nat, (64 - e) as nat);
    vstd::arithmetic::power2::lemma2_to64_rest();
    // low is a multiple of 2^e with an odd quotient
    assert((low >> ee) & 1 == 1);
    assert(low << ((64 - ee) as u64) == 0);
    assert(low == (low >> ee) << ee) by (bit_vector)
        requires
            ee < 64,
            low << ((64 - ee) as u64) == 0,
    ;
    lemma_u64_pow2_no_overflow(e as nat);
    assert((low >> ee) * p <= low) by {
        lemma_fundamental_div_mod(low as int, p as int);
    }
    lemma_u64_shl_is_mul(low >> ee, ee);
    let lq = low as nat / p;
    assert(lq % 2 == 1) by {
        assert((low >> ee) & 1 == 1);
        let v = low >> ee;
        assert(v & 1 == v % 2) by (bit_vector);
    }
    assert(low == lq * p);
    // the whole value is (high * 2^(64-e) + lq) * 2^e
    let m = high as nat * q + lq;
    assert(b@ == m * p) by (nonlinear_arith)
        requires
            b@ == high as nat * word_base() + low as nat,
            word_base() == p * q,
            low as nat == lq * p,
            m == high as nat * q + lq,
    ;
    assert(m % 2 == 1) by {
        lemma_pow2_adds(1, (63 - e) as nat);
        vstd::arithmetic::power2::lemma2_to64();
        assert(m == 2 * (high as nat * pow2((63 - e) as nat)) + lq) by (nonlinear_arith)
            requires
                m == high as nat * q + lq,
                q == 2 * pow2((63 - e) as nat),
        ;
    }
    lemma_strip_twos_scaled(m, e as nat);
    assert(b@ / p == m) by {
        lemma_fundamental_div_mod_converse(b@ as int, p as int, m as int, 0);
    }
}

/// Removing trailing zeros a second time changes nothing: the first pass
/// already leaves zero or an odd value.
pub proof fn lemma_strip_twos_idempotent(n: nat)
    ensures
        strip_twos(n) == 0 || strip_twos(n) % 2 == 1,
        strip_twos(strip_twos(n)) == strip_twos(n),
    decreases n,
{
    if n != 0 && n % 2 == 0 {
        lemma_strip_twos_idempotent(n / 2);
    }
}

/// The same law on `BigInt`: `remove_trailing_zeros` applied to its own
/// result gives that result back.
pub proof fn lemma_remove_trailing_zeros_twice(b: BigInt, once: BigInt, twice: BigInt)
    requires
        once@ == strip_twos(b@),
        twice@ == strip_twos(once@),
    ensures
        twice == once,
        once.low == 0 || once.low % 2 == 1,
{
    lemma_strip_twos_idempotent(b@);
    lemma_value_injective(twice, once);
    if once.low != 0 && once.low % 2 == 0 {
        assert((once.high as nat * word_base() + once.low as nat) % 2 == 0);
    }
}

/// Two `BigInt`s with the same value are the same words.
pub proof fn lemma_value_injective(a: BigInt, b: BigInt)
    requires
        a@ == b@,
    ensures
        a == b,
{
    lemma_fundamental_div_mod_converse(a@ as int, word_base() as int, a.high as int, a.low as int);
    lemma_fundamental_div_mod_converse(b@ as int, word_base() as int, b.high as int, b.low as int);
}

/// The full 128-bit product of two 64-bit words, as `(high, low)`, formed
/// from their 32-bit halves.
pub fn bigint_mult(op1: u64, op2: u64) -> (r: (u64, u64))
    ensures
        r.0 as nat * word_base() + r.1 as nat == op1 as nat * op2 as nat,
{
    let u1 = op1 & 0xffff_ffff;
    let v1 = op2 & 0xffff_ffff;
    let a1 = op1 >> 32;
    let a2 = op2 >> 32;
    proof {
        assert(op1 >> 32 == op1 / 0x1_0000_0000 && op1 & 0xffff_ffff == op1 % 0x1_0000_0000)
            by (bit_vector);
        assert(op2 >> 32 == op2 / 0x1_0000_0000 && op2 & 0xffff_ffff == op2 % 0x1_0000_0000)
            by (bit_vector);
        lemma_half_products(u1, v1, a1, a2);
    }
    let t = u1 * v1;
    let w3 = t & 0xffff_ffff;
    let k = t >> 32;
    proof {
        assert(t >> 32 == t / 0x1_0000_0000 && t & 0xffff_ffff == t % 0x1_0000_0000)
            by (bit_vector);
        lemma_half_sum(a1, v1, k);
    }
    let t = a1 * v1 + k;
    let k = t & 0xffff_ffff;
    let w1 = t >> 32;
    proof {
        assert(t >> 32 == t / 0x1_0000_0000 && t & 0xffff_ffff == t % 0x1_0000_0000)
            by (bit_vector);
        lemma_half_sum(u1, a2, k);
    }
    let t = u1 * a2 + k;
    let k = t >> 32;
    proof {
        assert(t >> 32 == t / 0x1_0000_0000 && t & 0xffff_ffff == t % 0x1_0000_0000)
            by (bit_vector);
        assert((t << 32) == (t % 0x1_0000_0000) * 0x1_0000_0000) by (bit_vector);
        lemma_wide_product(
            op1 as nat,
            op2 as nat,
            a1 as nat,
            u1 as nat,
            a2 as nat,
            v1 as nat,
            w3 as nat,
            w1 as nat,
            t as nat,
            k as nat,
        );
    }
    let high = a1 * a2 + w1 + k;
    let low = (t << 32) + w3;
    (high, low)
}

/// Products of 32-bit halves fit in a word.
proof fn lemma_half_products(u1: u64, v1: u64, a1: u64, a2: u64)
    requires
        u1 < 0x1_0000_0000,
        v1 < 0x1_0000_0000,
        a1 < 0x1_0000_0000,
        a2 < 0x1_0000_0000,
    ensures
        u1 * v1 <= 0xffff_fffe_0000_0001,
        a1 * a2 <= 0xffff_fffe_0000_0001,
{
    assert(u1 * v1 <= 0xffff_fffe_0000_0001) by (nonlinear_arith)
        requires
            u1 < 0x1_0000_0000,
            v1 < 0x1_0000_0000,
    ;
    assert(a1 * a2 <= 0xffff_fffe_0000_0001) by (nonlinear_arith)
        requires
            a1 < 0x1_0000_0000,
            a2 < 0x1_0000_0000,
    ;
}

/// A product of 32-bit halves plus a 32-bit carry fits in a word.
proof fn lemma_half_sum(a: u64, b: u64, c: u64)
    requires
        a < 0x1_0000_0000,
        b < 0x1_0000_0000,
        c < 0x1_0000_0000,
    ensures
        a * b + c <= u64::MAX,
{
    assert(a * b + c <= u64::MAX) by (nonlinear_arith)
        requires
            a < 0x1_0000_0000,
            b < 0x1_0000_0000,
            c < 0x1_0000_0000,
    ;
}

/// Recombines the four half products into the high and low words.
proof fn lemma_wide_product(
    x: nat,
    y: nat,
    a1: nat,
    u1: nat,
    a2: nat,
    v1: nat,
    w3: nat,
    w1: nat,
    t2: nat,
    k2: nat,
)
    requires
        a1 == x / 0x1_0000_0000,
        u1 == x % 0x1_0000_0000,
        a2 == y / 0x1_0000_0000,
        v1 == y % 0x1_0000_0000,
        w3 == (u1 * v1) % 0x1_0000_0000,
        w1 == (a1 * v1 + (u1 * v1) / 0x1_0000_0000) / 0x1_0000_0000,
        t2 == u1 * a2 + (a1 * v1 + (u1 * v1) / 0x1_0000_0000) % 0x1_0000_0000,
        k2 == t2 / 0x1_0000_0000,
        x < 0x1_0000_0000_0000_0000,
        y < 0x1_0000_0000_0000_0000,
    ensures
        a1 * a2 + w1 + k2 < 0x1_0000_0000_0000_0000,
        (t2 % 0x1_0000_0000) * 0x1_0000_0000 + w3 < 0x1_0000_0000_0000_0000,
        (a1 * a2 + w1 + k2) * word_base() + ((t2 % 0x1_0000_0000) * 0x1_0000_0000 + w3) == x * y,
{
    let p: int = 0x1_0000_0000;
    lemma_fundamental_div_mod(x as int, p);
    lemma_fundamental_div_mod(y as int, p);
    let k0 = (u1 * v1) / 0x1_0000_0000;
    lemma_fundamental_div_mod((u1 * v1) as int, p);
    let t1 = a1 * v1 + k0;
    let k1 = t1 % 0x1_0000_0000;
    lemma_fundamental_div_mod(t1 as int, p);
    lemma_fundamental_div_mod(t2 as int, p);
    let l2 = t2 % 0x1_0000_0000;
    assert(x * y == (a1 * a2 + w1 + k2) * word_base() + (l2 * 0x1_0000_0000 + w3)) by (nonlinear_arith)
        requires
            x == p * a1 + u1,
            y == p * a2 + v1,
            u1 * v1 == p * k0 + w3,
            t1 == a1 * v1 + k0,
            t1 == p * w1 + k1,
            t2 == u1 * a2 + k1,
            t2 == p * k2 + l2,
            p == 0x1_0000_0000,
            word_base() == p * p,
    ;
    assert(l2 * 0x1_0000_0000 + w3 < 0x1_0000_0000_0000_0000) by (nonlinear_arith)
        requires
            l2 < 0x1_0000_0000,
            w3 < 0x1_0000_0000,
    ;
    assert(x * y < word_base() * word_base()) by (nonlinear_arith)
        requires
            x < word_base(),
            y < word_base(),
    ;
    assert(a1 * a2 + w1 + k2 < word_base()) by (nonlinear_arith)
        requires
            x * y == (a1 * a2 + w1 + k2) * word_base() + (l2 * 0x1_0000_0000 + w3),
            x * y < word_base() * word_base(),
            word_base() > 0,
    ;
}

/// Scaling a value by a power of two leaves its stripped form unchanged.
pub proof fn lemma_strip_twos_scaled(n: nat, e: nat)
    ensures
        strip_twos(n * pow2(e)) == strip_twos(n),
    decreases e,
{
    if e == 0 {
        vstd::arithmetic::power2::lemma2_to64();
    } else {
        vstd::arithmetic::power2::lemma_pow2_unfold(e);
        lemma_pow2_pos((e - 1) as nat);
        let m = n * pow2((e - 1) as nat);
        assert(n * pow2(e) == 2 * m) by (nonlinear_arith)
            requires
                pow2(e) == 2 * pow2((e - 1) as nat),
                m == n * pow2((e - 1) as nat),
        ;
        if n != 0 {
            assert(m != 0) by (nonlinear_arith)
                requires
                    n != 0,
                    pow2((e - 1) as nat) > 0,
                    m == n * pow2((e - 1) as nat),
            ;
        } else {
            assert(m == 0);
        }
        assert((2 * m) / 2 == m);
        lemma_strip_twos_scaled(n, (e - 1) as nat);
    }
}

/// Shifting the two words right by `r` divides the value by `2^r`.
proof fn lemma_shr_value(low: u64, high: u64, r: u32)
    requires
        0 < r < 64,
    ensures
        ((high >> r) as nat) * word_base() + (((low >> r) | (high << ((64 - r) as u32))) as nat)
            == (high as nat * word_base() + low as nat) / pow2(r as nat),
{
    let sh = (64 - r) as u32;
    lemma_u64_pow2_no_overflow(r as nat);
    lemma_u64_shl_is_mul(1, r as u64);
    assert(1u64 << r == 1u64 << (r as u64)) by (bit_vector);
    lemma_pow2_pos(r as nat);
    let mask = ((1u64 << r) - 1) as u64;
    assert((low >> r) | (high << sh) == (low >> r) + ((high & mask) << sh)) by (bit_vector)
        requires
            0 < r < 64,
            sh == 64 - r,
            mask == (1u64 << r) - 1,
    ;
    vstd::bits::lemma_u64_low_bits_mask_is_mod(high, r as nat);
    vstd::bits::lemma_low_bits_mask_unfold(r as nat);
    lemma_pow2_pos(r as nat);
    lemma_pow2_pos((64 - r) as nat);
    assert(mask == vstd::bits::low_bits_mask(r as nat));
    lemma_pow2_adds(r as nat, (64 - r) as nat);
    vstd::arithmetic::power2::lemma2_to64_rest();
    assert(pow2(r as nat) * pow2((64 - r) as nat) == 0x1_0000_0000_0000_0000);
    assert(((high as nat % pow2(r as nat)) * pow2((64 - r) as nat)) <= u64::MAX) by (nonlinear_arith)
        requires
            high as nat % pow2(r as nat) < pow2(r as nat),
            pow2(r as nat) * pow2((64 - r) as nat) == 0x1_0000_0000_0000_0000,
    ;
    lemma_u64_shl_is_mul(high & mask, (64 - r) as u64);
    assert((high & mask) << sh == (high & mask) << ((64 - r) as u64)) by (bit_vector)
        requires
            sh == 64 - r,
    ;
    lemma_u64_pow2_no_overflow(r as nat);
    lemma_u64_pow2_no_overflow((64 - r) as nat);
    lemma_u64_shl_is_mul(1, r as u64);
    lemma_u64_shr_is_div(low, r as u64);
    lemma_u64_shr_is_div(high, r as u64);
    assert(1u64 << r == 1u64 << (r as u64)) by (bit_vector);
    assert(low >> r == low >> (r as u64)) by (bit_vector);
    assert(high >> r == high >> (r as u64)) by (bit_vector);
    let p = pow2(r as nat);
    let q = pow2((64 - r) as nat);
    lemma_pow2_pos(r as nat);
    lemma_pow2_adds(r as nat, (64 - r) as nat);
    vstd::arithmetic::power2::lemma2_to64_rest();
    let hq = high as nat / p;
    let hr = high as nat % p;
    let lq = low as nat / p;
    let lr = low as nat % p;
    lemma_fundamental_div_mod(high as int, p as int);
    lemma_fundamental_div_mod(low as int, p as int);
    let v = high as nat * word_base() + low as nat;
    let m = hq * word_base() + hr * q + lq;
    assert(v == m * p + lr) by (nonlinear_arith)
        requires
            v == high as nat * word_base() + low as nat,
            high as nat == p * hq + hr,
            low as nat == p * lq + lr,
            word_base() == p * q,
            m == hq * word_base() + hr * q + lq,
    ;
    lemma_fundamental_div_mod_converse(v as int, p as int, m as int, lr as int);
}

/// The product of a 128-bit value and a small operand, split by words.
proof fn lemma_value_mul(b: BigInt, m: nat)
    ensures
        b@ * m == (b.high as nat * m) * word_base() + b.low as nat * m,
{
    assert(b@ * m == (b.high as nat * m) * word_base() + b.low as nat * m) by (nonlinear_arith);
}

/// The carry out of `x * y` for a 32-bit `y`, computed from the halves of `x`.
proof fn lemma_mul_carry(x: u64, y: u64)
    requires
        y <= 0xffff_ffff,
    ensures
        (x >> 32) * y + ((((x & 0xffff_ffff) * y) as u64) >> 32) <= u64::MAX,
        x as nat * y as nat == ((((x >> 32) * y + ((((x & 0xffff_ffff) * y) as u64) >> 32)) as u64)
            >> 32) as nat * word_base() + (x as nat * y as nat) % word_base(),
{
    let p: nat = 0x1_0000_0000;
    let a = x >> 32;
    let b = x & 0xffff_ffff;
    assert(x >> 32 == x / 0x1_0000_0000 && x & 0xffff_ffff == x % 0x1_0000_0000) by (bit_vector);
    assert(x == a * p + b) by {
        lemma_fundamental_div_mod(x as int, p as int);
    }
    assert(b * y <= 0xffff_ffff * 0xffff_ffff) by (nonlinear_arith)
        requires
            b < 0x1_0000_0000,
            y <= 0xffff_ffff,
    ;
    let by_ = (b * y) as u64;
    let c = by_ >> 32;
    assert(by_ >> 32 == by_ / 0x1_0000_0000) by (bit_vector);
    let d = by_ % 0x1_0000_0000;
    assert(by_ == c * p + d) by {
        lemma_fundamental_div_mod(by_ as int, p as int);
    }
    assert(a * y + c <= u64::MAX) by (nonlinear_arith)
        requires
            a < 0x1_0000_0000,
            y <= 0xffff_ffff,
            c < 0x1_0000_0000,
    ;
    let t = (a * y + c) as u64;
    let e = t >> 32;
    assert(t >> 32 == t / 0x1_0000_0000) by (bit_vector);
    let f = t % 0x1_0000_0000;
    assert(t == e * p + f) by {
        lemma_fundamental_div_mod(t as int, p as int);
    }
    assert(x as nat * y as nat == e * word_base() + (f * p + d)) by (nonlinear_arith)
        requires
            x == a * p + b,
            b * y == c * p + d,
            t == a * y + c,
            t == e * p + f,
            p == 0x1_0000_0000,
            word_base() == p * p,
    ;
    assert(f * p + d < word_base()) by (nonlinear_arith)
        requires
            f < p,
            d < p,
            p == 0x1_0000_0000,
            word_base() == p * p,
    ;
    lemma_fundamental_div_mod_converse(
        (x as nat * y as nat) as int,
        word_base() as int,
        e as int,
        (f * p + d) as int,
    );
}

} // verus!
