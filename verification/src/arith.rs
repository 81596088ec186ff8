//! Integer arithmetic shared by the drawing algorithms.

use vstd::prelude::*;

verus! {

/// The product of two bounded integers is bounded by the product of the
/// bounds.
pub proof fn lemma_mul_bound(a: int, b: int, ma: int, mb: int)
    requires
        -ma <= a <= ma,
        -mb <= b <= mb,
    ensures
        -(ma * mb) <= a * b <= ma * mb,
{
    assert(-(ma * mb) <= a * b <= ma * mb) by (nonlinear_arith)
        requires
            -ma <= a <= ma,
            -mb <= b <= mb,
    ;
}

/// Division that rounds towards minus infinity, with its remainder: for a
/// positive divisor the remainder is never negative.
pub fn div_floor(n: i128, d: i128) -> (qr: (i128, i128))
    requires
        0 < d,
        i128::MIN < n,
    ensures
        qr.0 == n as int / d as int,
        qr.1 == n as int % (d as int),
        0 <= qr.1 < d,
        n >= 0 ==> 0 <= qr.0 <= n,
        n < 0 ==> n <= qr.0 < 0,
{
    if n >= 0 {
        proof {
            vstd::arithmetic::div_mod::lemma_mod_bound(n as int, d as int);
            vstd::arithmetic::div_mod::lemma_fundamental_div_mod(n as int, d as int);
            let qi = n as int / d as int;
            assert(0 <= qi <= n) by (nonlinear_arith)
                requires
                    n as int == d * qi + n as int % (d as int),
                    0 <= n as int % (d as int) < d,
                    0 <= n,
            ;
        }
        (n / d, n % d)
    } else {
        let m = -n;
        let q = m / d;
        let k = m % d;
        proof {
            vstd::arithmetic::div_mod::lemma_fundamental_div_mod(m as int, d as int);
            vstd::arithmetic::div_mod::lemma_mod_bound(m as int, d as int);
            let qi = m as int / d as int;
            assert(0 <= qi <= m) by (nonlinear_arith)
                requires
                    m as int == d * qi + k,
                    0 <= k < d,
                    0 <= m,
            ;
            assert(k == 0 ==> qi >= 1) by (nonlinear_arith)
                requires
                    m as int == d * qi + k,
                    0 < m,
                    0 < d,
            ;
            assert(k > 0 ==> qi + 1 <= m) by (nonlinear_arith)
                requires
                    m as int == d * qi + k,
                    0 <= qi,
                    0 < d,
            ;
            if k == 0 {
                assert(n as int == (-qi) * d + 0) by (nonlinear_arith)
                    requires
                        -(n as int) == d * qi + 0,
                ;
                vstd::arithmetic::div_mod::lemma_fundamental_div_mod_converse(n as int, d as int, -qi, 0);
            } else {
                assert(n as int == (-qi - 1) * d + (d - k)) by (nonlinear_arith)
                    requires
                        -(n as int) == d * qi + k,
                ;
                vstd::arithmetic::div_mod::lemma_fundamental_div_mod_converse(
                    n as int,
                    d as int,
                    -qi - 1,
                    d - k,
                );
            }
        }
        if k == 0 {
            (-q, 0)
        } else {
            (-q - 1, d - k)
        }
    }
}

} // verus!
