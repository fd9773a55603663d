//! Comparing products that do not fit in 128 bits.

use vstd::prelude::*;

verus! {

/// Two to the 64th.
pub const WORD: u128 = 0x1_0000_0000_0000_0000;

/// `a * x` as a high part and a low word.
fn product(a: u64, x: u128) -> (r: (u128, u128))
    ensures
        r.0 * WORD + r.1 == a * x,
        r.1 < WORD,
{
    let low: u128 = x % WORD;
    let high: u128 = x / WORD;
    let factor: u128 = a as u128;
    assert(factor * low <= (WORD - 1) * (WORD - 1)) by (nonlinear_arith)
        requires
            0 <= factor <= WORD - 1,
            0 <= low <= WORD - 1,
    ;
    assert(factor * high <= (WORD - 1) * (WORD - 1)) by (nonlinear_arith)
        requires
            0 <= factor <= WORD - 1,
            0 <= high <= WORD - 1,
    ;
    let p: u128 = factor * low;
    let q: u128 = factor * high;
    let r: (u128, u128) = (q + p / WORD, p % WORD);
    assert(r.0 * WORD + r.1 == a * x) by (nonlinear_arith)
        requires
            r.0 == q + p / WORD,
            r.1 == p % WORD,
            p == a * low,
            q == a * high,
            x == high * WORD + low,
            p == (p / WORD) * WORD + p % WORD,
    ;
    r
}

/// Whether `a * x` is greater than `b * y`.
pub fn product_exceeds(a: u64, x: u128, b: u64, y: u128) -> (r: bool)
    ensures
        r == (a * x > b * y),
{
    let p = product(a, x);
    let q = product(b, y);
    proof {
        let (ph, pl, qh, ql) = (p.0 as int, p.1 as int, q.0 as int, q.1 as int);
        if ph > qh {
            assert(ph * WORD + pl > qh * WORD + ql) by (nonlinear_arith)
                requires
                    ph > qh,
                    0 <= pl,
                    ql < WORD,
            ;
        } else if ph < qh {
            assert(ph * WORD + pl < qh * WORD + ql) by (nonlinear_arith)
                requires
                    ph < qh,
                    pl < WORD,
                    0 <= ql,
            ;
        }
    }
    p.0 > q.0 || (p.0 == q.0 && p.1 > q.1)
}

} // verus!
