//! Wrapping counter arithmetic.
//!
//! The queues track their fill level with monotone counters that wrap at the
//! width of their integer type.  The difference of two such counters, taken
//! modulo the wrap value, is the number of pushes not yet matched by a pop,
//! as long as that number never exceeds the wrap value.

use vstd::prelude::*;

verus! {

use vstd::arithmetic::div_mod::{
    lemma_small_mod, lemma_mod_add_multiples_vanish, lemma_mod_bound, lemma_mod_equivalence,
    lemma_mod_self_0, lemma_sub_mod_noop, lemma_add_mod_noop, lemma_mod_mod,
    lemma_fundamental_div_mod, lemma_fundamental_div_mod_converse_mod,
};
use vstd::arithmetic::power2::{pow2, lemma_pow2_adds, lemma_pow2_pos, lemma2_to64};

/// The value a `u32` counter wraps at.
pub open spec fn wrap32() -> int {
    0x1_0000_0000
}

/// The value a `u64` counter wraps at.
pub open spec fn wrap64() -> int {
    0x1_0000_0000_0000_0000
}

/// The number a pair of wrapping `u32` counters stands for: `a - b` modulo the wrap value.
pub open spec fn sub_mod32(a: u32, b: u32) -> int {
    (a - b) % wrap32()
}

/// The number a pair of wrapping `u64` counters stands for: `a - b` modulo the wrap value.
pub open spec fn sub_mod64(a: u64, b: u64) -> int {
    (a - b) % wrap64()
}

/// `(x + 1) % m` in terms of `x % m`.
pub proof fn lemma_mod_succ(x: int, m: int)
    requires
        m > 0,
    ensures
        (x + 1) % m == if x % m == m - 1 {
            0int
        } else {
            (x % m) + 1
        },
{
    lemma_mod_bound(x, m);
    lemma_fundamental_div_mod(x, m);
    if x % m == m - 1 {
        assert(x + 1 == (x / m + 1) * m + 0) by (nonlinear_arith)
            requires
                x == m * (x / m) + (x % m) && x % m == m - 1,
        ;
        lemma_fundamental_div_mod_converse_mod(x + 1, m, x / m + 1, 0);
    } else {
        assert(x + 1 == (x / m) * m + ((x % m) + 1)) by (nonlinear_arith)
            requires
                x == m * (x / m) + (x % m),
        ;
        lemma_fundamental_div_mod_converse_mod(x + 1, m, x / m, (x % m) + 1);
    }
}

/// Incrementing the first counter raises the represented number by one,
/// as long as that number stays below the wrap value.
pub proof fn lemma_sub_mod32_succ(a: u32, b: u32)
    requires
        sub_mod32(a, b) < wrap32() - 1,
    ensures
        sub_mod32(wrap_inc32_spec(a), b) == sub_mod32(a, b) + 1,
{
    lemma_small_mod(b as nat, wrap32() as nat);
    lemma_sub_mod_noop(a + 1, b as int, wrap32());
    assert((((a + 1) % wrap32()) - b) % wrap32() == ((a + 1) - b) % wrap32());
    lemma_mod_succ(a - b, wrap32());
}

/// Incrementing the second counter lowers the represented number by one,
/// as long as it was positive.
pub proof fn lemma_sub_mod32_pred(a: u32, b: u32)
    requires
        sub_mod32(a, b) >= 1,
    ensures
        sub_mod32(a, wrap_inc32_spec(b)) == sub_mod32(a, b) - 1,
{
    lemma_small_mod(a as nat, wrap32() as nat);
    lemma_sub_mod_noop(a as int, b + 1, wrap32());
    assert((a - ((b + 1) % wrap32())) % wrap32() == (a - (b + 1)) % wrap32());
    lemma_mod_succ(a - b - 1, wrap32());
}

/// The same two facts for `u64` counters.
pub proof fn lemma_sub_mod64_succ(a: u64, b: u64)
    requires
        sub_mod64(a, b) < wrap64() - 1,
    ensures
        sub_mod64(wrap_inc64_spec(a), b) == sub_mod64(a, b) + 1,
{
    lemma_small_mod(b as nat, wrap64() as nat);
    lemma_sub_mod_noop(a + 1, b as int, wrap64());
    assert((((a + 1) % wrap64()) - b) % wrap64() == ((a + 1) - b) % wrap64());
    lemma_mod_succ(a - b, wrap64());
}

pub proof fn lemma_sub_mod64_pred(a: u64, b: u64)
    requires
        sub_mod64(a, b) >= 1,
    ensures
        sub_mod64(a, wrap_inc64_spec(b)) == sub_mod64(a, b) - 1,
{
    lemma_small_mod(a as nat, wrap64() as nat);
    lemma_sub_mod_noop(a as int, b + 1, wrap64());
    assert((a - ((b + 1) % wrap64())) % wrap64() == (a - (b + 1)) % wrap64());
    lemma_mod_succ(a - b - 1, wrap64());
}

/// Reducing modulo the wrap value and then modulo a power of two that divides
/// it is the same as reducing modulo the power of two directly.
pub proof fn lemma_wrap32_mod_pow2(x: int, k: nat)
    requires
        k <= 32,
    ensures
        pow2(k) > 0,
        (x % wrap32()) % (pow2(k) as int) == x % (pow2(k) as int),
{
    lemma_pow2_pos(k);
    lemma_pow2_pos((32 - k) as nat);
    lemma_pow2_adds(k, (32 - k) as nat);
    lemma2_to64();
    lemma_mod_mod(x, pow2(k) as int, pow2((32 - k) as nat) as int);
}

/// Two distinct offsets below the ring capacity land on distinct slots.
pub proof fn lemma_slot_distinct(base: int, i: int, j: int, c: int)
    requires
        c > 0,
        0 <= i < j < c,
    ensures
        (base + i) % c != (base + j) % c,
{
    if (base + i) % c == (base + j) % c {
        lemma_mod_equivalence(base + j, base + i, c);
        lemma_small_mod((j - i) as nat, c as nat);
        assert(false);
    }
}

/// Congruent bases give the same slot for every offset.
pub proof fn lemma_slot_congruent(b1: int, b2: int, j: int, c: int)
    requires
        c > 0,
        b1 % c == b2 % c,
    ensures
        (b1 + j) % c == (b2 + j) % c,
{
    lemma_add_mod_noop(b1, j, c);
    lemma_add_mod_noop(b2, j, c);
}

/// What `wrap_inc32` returns.
pub open spec fn wrap_inc32_spec(a: u32) -> u32 {
    if a == u32::MAX {
        0u32
    } else {
        (a + 1) as u32
    }
}

/// What `wrap_inc64` returns.
pub open spec fn wrap_inc64_spec(a: u64) -> u64 {
    if a == u64::MAX {
        0u64
    } else {
        (a + 1) as u64
    }
}

/// Advance a wrapping `u32` counter by one.
pub fn wrap_inc32(a: u32) -> (r: u32)
    ensures
        r == wrap_inc32_spec(a),
        r as int == (a + 1) % wrap32(),
{
    proof {
        if a == u32::MAX {
            lemma_mod_self_0(wrap32());
        } else {
            lemma_small_mod((a + 1) as nat, wrap32() as nat);
        }
    }
    if a == u32::MAX {
        0
    } else {
        a + 1
    }
}

/// Advance a wrapping `u64` counter by one.
pub fn wrap_inc64(a: u64) -> (r: u64)
    ensures
        r == wrap_inc64_spec(a),
        r as int == (a + 1) % wrap64(),
{
    proof {
        if a == u64::MAX {
            lemma_mod_self_0(wrap64());
        } else {
            lemma_small_mod((a + 1) as nat, wrap64() as nat);
        }
    }
    if a == u64::MAX {
        0
    } else {
        a + 1
    }
}

/// The number a pair of wrapping `u32` counters stands for.
pub fn wrap_sub32(a: u32, b: u32) -> (r: u32)
    ensures
        r as int == sub_mod32(a, b),
{
    if a >= b {
        proof {
            lemma_small_mod((a - b) as nat, wrap32() as nat);
        }
        a - b
    } else {
        proof {
            lemma_mod_add_multiples_vanish(a - b, wrap32());
            lemma_small_mod((a - b + wrap32()) as nat, wrap32() as nat);
        }
        (u32::MAX - b) + a + 1
    }
}

/// The number a pair of wrapping `u64` counters stands for.
pub fn wrap_sub64(a: u64, b: u64) -> (r: u64)
    ensures
        r as int == sub_mod64(a, b),
{
    if a >= b {
        proof {
            lemma_small_mod((a - b) as nat, wrap64() as nat);
        }
        a - b
    } else {
        proof {
            lemma_mod_add_multiples_vanish(a - b, wrap64());
            lemma_small_mod((a - b + wrap64()) as nat, wrap64() as nat);
        }
        (u64::MAX - b) + a + 1
    }
}

} // verus!
