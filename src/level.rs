//! Random layer assignment.
//!
//! A node's top layer is `floor(-ln(r) / ln(M))` for a uniform `r` in `(0, 1]`,
//! clamped to [`MAX_LEVEL`]. With `r = (u + 1) / 2^32` for a uniform 32-bit
//! word `u`, the layer is at least `k` exactly when `(u + 1) * M^k <= 2^32`, so
//! the level is computed here in integers, without a logarithm.

use vstd::prelude::*;

verus! {

/// Highest layer a node can be assigned.
pub const MAX_LEVEL: usize = 16;

/// `b` raised to the power `e`.
pub open spec fn power(b: nat, e: nat) -> nat
    decreases e,
{
    if e == 0 {
        1
    } else {
        b * power(b, (e - 1) as nat)
    }
}

/// Whether the random word `u` reaches layer `k` for connection budget `m`:
/// `r <= m^-k` with `r = (u + 1) / 2^32`.
pub open spec fn reaches_level(u: u32, m: usize, k: nat) -> bool {
    (u as nat + 1) * power(m as nat, k) <= 0x1_0000_0000
}

/// The layer drawn by the random word `u`: the count of consecutive layers
/// `1, 2, ...` that `u` reaches, at most [`MAX_LEVEL`].
pub open spec fn is_level_of(u: u32, m: usize, r: nat) -> bool {
    &&& r <= MAX_LEVEL
    &&& forall|k: nat| 1 <= k <= r ==> #[trigger] reaches_level(u, m, k)
    &&& r < MAX_LEVEL ==> !reaches_level(u, m, r + 1)
}

/// Computes the layer drawn by the random word `u` for connection budget `m`.
pub fn level_for(u: u32, m: usize) -> (r: usize)
    ensures
        is_level_of(u, m, r as nat),
{
    let base: u128 = u as u128 + 1;
    let mut p: u128 = 1;
    let mut k: usize = 0;
    while k < MAX_LEVEL
        invariant
            k <= MAX_LEVEL,
            base == u as nat + 1,
            p as nat == power(m as nat, k as nat),
            base * p <= 0x1_0000_0000,
            forall|j: nat| 1 <= j <= k ==> #[trigger] reaches_level(u, m, j),
        decreases MAX_LEVEL - k,
    {
        assert(p <= 0x1_0000_0000) by (nonlinear_arith)
            requires
                base * p <= 0x1_0000_0000,
                base >= 1,
        ;
        assert(p * (m as u128) <= 0x1_0000_0000u128 * 0x1_0000_0000_0000_0000u128) by (nonlinear_arith)
            requires
                p <= 0x1_0000_0000,
                m < 0x1_0000_0000_0000_0000u128,
        ;
        let next: u128 = p * (m as u128);
        assert(power(m as nat, (k + 1) as nat) == m * power(m as nat, k as nat));
        if next > 0x1_0000_0000 {
            assert(base * next > 0x1_0000_0000) by (nonlinear_arith)
                requires
                    next > 0x1_0000_0000,
                    base >= 1,
            ;
            return k;
        }
        assert(base * next <= 0x1_0000_0000u128 * 0x1_0000_0000u128) by (nonlinear_arith)
            requires
                next <= 0x1_0000_0000,
                base <= 0x1_0000_0000,
        ;
        if base * next > 0x1_0000_0000 {
            return k;
        }
        p = next;
        k = k + 1;
    }
    k
}

/// Relies on getrandom::getrandom to fill four bytes from the operating
/// system's random source; an error is ignored and the buffer, zeroed
/// beforehand, is read as it is. Nothing is known of the value.
#[verifier::external_body]
fn random_word() -> (r: u32) {
    let mut buf = [0u8; 4];
    getrandom::getrandom(&mut buf).unwrap_or_default();
    u32::from_le_bytes(buf)
}

/// Draws a random layer for a new node.
pub fn random_level(m: usize) -> (r: usize)
    ensures
        r <= MAX_LEVEL,
        exists|u: u32| is_level_of(u, m, r as nat),
{
    level_for(random_word(), m)
}

} // verus!
