//! Arithmetic on a ring of `m` positions: moving a position by a signed offset
//! and landing back inside `[0, m)`.

use vstd::prelude::*;
use vstd::arithmetic::div_mod::lemma_fundamental_div_mod_converse;

verus! {

/// The position reached from `x` after `d` steps on a ring of `m` positions.
///
/// The remainder is the mathematical one: for `m > 0` it lies in `[0, m)`
/// whatever the sign of `x + d`.
pub open spec fn wrap(x: int, d: int, m: int) -> int {
    (x + d) % m
}

/// `wrap` always lands on the ring.
pub proof fn lemma_wrap_in_range(x: int, d: int, m: int)
    requires
        m > 0,
    ensures
        0 <= wrap(x, d, m) < m,
{
    assert(0 <= (x + d) % m < m) by (nonlinear_arith)
        requires
            m > 0,
    ;
}

/// One step back from position 0 is the last position, one step forward
/// from the last position is position 0, and no step at all stays in place.
pub proof fn lemma_wrap_step(x: int, m: int)
    requires
        0 <= x < m,
    ensures
        wrap(x, 0, m) == x,
        x == 0 ==> wrap(x, -1, m) == m - 1,
        x == m - 1 ==> wrap(x, 1, m) == 0,
        x > 0 ==> wrap(x, -1, m) == x - 1,
        x < m - 1 ==> wrap(x, 1, m) == x + 1,
{
    lemma_mod_by_turns(x, m, 0, x);
    if x == 0 {
        lemma_mod_by_turns(-1, m, -1, m - 1);
    } else {
        lemma_mod_by_turns(x - 1, m, 0, x - 1);
    }
    if x == m - 1 {
        lemma_mod_by_turns(m, m, 1, 0);
    } else {
        lemma_mod_by_turns(x + 1, m, 0, x + 1);
    }
}

/// A value `r` on the ring that differs from `v` by a whole number of turns
/// is the remainder of `v`.
proof fn lemma_mod_by_turns(v: int, m: int, q: int, r: int)
    requires
        m > 0,
        0 <= r < m,
        v == q * m + r,
    ensures
        v % m == r,
{
    lemma_fundamental_div_mod_converse(v, m, q, r);
}

/// Adds the signed offset `y` to `x` modulo `m`.
///
/// The offset must be shorter than the ring: `-m < y < m`.
pub fn add_modulo(x: usize, y: isize, m: usize) -> (r: usize)
    requires
        -(m as int) < y < m as int,
    ensures
        r as int == wrap(x as int, y as int, m as int),
        r < m,
{
    let xm: usize = x % m;
    proof {
        // x = (x / m) * m + xm
        assert(x as int == (x as int / m as int) * m as int + xm as int) by (nonlinear_arith)
            requires
                m > 0,
                xm as int == x as int % m as int,
        ;
    }
    let ghost q: int = x as int / m as int;
    if y >= 0 {
        let d: usize = y as usize;
        if xm >= m - d {
            let r: usize = xm - (m - d);
            proof {
                assert(x as int + y as int == (q + 1) * m as int + r as int) by (nonlinear_arith)
                    requires
                        x as int == q * m as int + xm as int,
                        r as int == xm as int - (m as int - y as int),
                ;
                lemma_mod_by_turns(x as int + y as int, m as int, q + 1, r as int);
            }
            r
        } else {
            let r: usize = xm + d;
            proof {
                assert(x as int + y as int == q * m as int + r as int);
                lemma_mod_by_turns(x as int + y as int, m as int, q, r as int);
            }
            r
        }
    } else {
        // |y| without leaving the range of isize: -(y + 1) + 1
        let d: usize = (-(y + 1)) as usize + 1;
        if xm >= d {
            let r: usize = xm - d;
            proof {
                assert(x as int + y as int == q * m as int + r as int);
                lemma_mod_by_turns(x as int + y as int, m as int, q, r as int);
            }
            r
        } else {
            let r: usize = xm + (m - d);
            proof {
                assert(x as int + y as int == (q - 1) * m as int + r as int) by (nonlinear_arith)
                    requires
                        x as int == q * m as int + xm as int,
                        r as int == xm as int + (m as int + y as int),
                ;
                lemma_mod_by_turns(x as int + y as int, m as int, q - 1, r as int);
            }
            r
        }
    }
}

} // verus!
