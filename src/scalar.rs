//! Scalar helpers on 16-bit numbers: integer square root and primality.
use vstd::prelude::*;

use vstd::arithmetic::div_mod::{
    lemma_div_is_ordered_by_denominator, lemma_fundamental_div_mod, lemma_mod_multiples_basic,
};

verus! {

/// `n` is a prime: at least two, and no number from two up to `n` less one divides it.
pub open spec fn is_prime(n: nat) -> bool {
    &&& n >= 2
    &&& forall|d: nat| 2 <= d < n ==> #[trigger] (n % d) != 0
}

/// Half of `n`, plus one, squared, exceeds `n` once `n` is at least two.
proof fn lemma_half_start(n: int)
    requires
        n >= 2,
    ensures
        n < (n / 2 + 1) * (n / 2 + 1),
{
    lemma_fundamental_div_mod(n, 2);
    let h = n / 2;
    assert(n < (h + 1) * (h + 1)) by (nonlinear_arith)
        requires
            n == 2 * h + n % 2,
            0 <= n % 2 < 2,
            h >= 1,
    ;
}

/// A Newton step never falls below the floor of the square root.
proof fn lemma_newton_step(n: int, c: int)
    requires
        n >= 1,
        c >= 1,
    ensures
        n < ((c + n / c) / 2 + 1) * ((c + n / c) / 2 + 1),
{
    lemma_fundamental_div_mod(n, c);
    let q = n / c;
    let s = c + q;
    lemma_fundamental_div_mod(s, 2);
    let y = s / 2 + 1;
    assert(n < c * (q + 1)) by (nonlinear_arith)
        requires
            n == c * q + n % c,
            n % c < c,
    ;
    assert(2 * y >= s + 1);
    assert(4 * (y * y) >= (s + 1) * (s + 1)) by (nonlinear_arith)
        requires
            2 * y >= s + 1,
            s + 1 >= 0,
    ;
    assert((s + 1) * (s + 1) >= 4 * (c * (q + 1))) by (nonlinear_arith)
        requires
            s == c + q,
    ;
}

/// Once the guess squared exceeds `n`, the next step is strictly smaller.
proof fn lemma_newton_descends(n: int, c: int)
    requires
        n >= 0,
        c >= 1,
        c * c > n,
    ensures
        (c + n / c) / 2 < c,
{
    lemma_fundamental_div_mod(n, c);
    let q = n / c;
    assert(q < c) by (nonlinear_arith)
        requires
            n == c * q + n % c,
            n % c >= 0,
            c * c > n,
            c >= 1,
    ;
}

/// Floor of the square root of `num`, by Heron's (Newton's) iteration from `num / 2`.
pub fn herons_sqrt(num: u16) -> (r: u16)
    ensures
        r * r <= num < (r + 1) * (r + 1),
{
    if num == 1 || num == 0 {
        return num;
    }

    let mut cur = num / 2;

    proof {
        lemma_half_start(num as int);
    }

    loop
        invariant
            num >= 2,
            1 <= cur <= num / 2,
            num < (cur + 1) * (cur + 1),
        ensures
            cur * cur <= num < (cur + 1) * (cur + 1),
        decreases cur,
    {
        proof {
            if cur >= 2 {
                assert(num / cur <= num / 2) by {
                    lemma_div_is_ordered_by_denominator(
                        num as int,
                        2,
                        cur as int,
                    );
                }
            } else {
                assert(num < 4) by (nonlinear_arith)
                    requires
                        cur == 1,
                        num < (cur + 1) * (cur + 1),
                ;
            }
            lemma_newton_step(num as int, cur as int);
            if cur * cur > num {
                lemma_newton_descends(num as int, cur as int);
            }
        }

        let nex = (cur + num / cur) / 2;

        if nex >= cur {
            break;
        }

        proof {
            assert(nex >= 1) by (nonlinear_arith)
                requires
                    num < (nex + 1) * (nex + 1),
                    num >= 2,
                    nex >= 0,
            ;
        }

        cur = nex;
    }

    cur
}

/// A divisor above the square root has a cofactor at or below it.
proof fn lemma_cofactor(n: int, d: int, s: int)
    requires
        n >= 2,
        s >= 1,
        s < d < n,
        n % d == 0,
        n < (s + 1) * (s + 1),
    ensures
        2 <= n / d <= s,
        n % (n / d) == 0,
{
    lemma_fundamental_div_mod(n, d);
    let q = n / d;
    assert(n == d * q);
    assert(q >= 2) by (nonlinear_arith)
        requires
            n == d * q,
            d < n,
            d >= 1,
            n >= 2,
    ;
    assert(q <= s) by (nonlinear_arith)
        requires
            n == d * q,
            d >= s + 1,
            n < (s + 1) * (s + 1),
            s >= 1,
    ;
    lemma_mod_multiples_basic(d, q);
    assert(d * q == q * d) by (nonlinear_arith);
}

/// Whether `num` is a prime, by trial division up to its integer square root.
pub fn prime_ck(num: u16) -> (r: bool)
    ensures
        r == is_prime(num as nat),
{
    if num < 2 {
        return false;
    }

    let sqrt = herons_sqrt(num);

    proof {
        assert(sqrt <= 255) by (nonlinear_arith)
            requires
                sqrt * sqrt <= num,
                num <= 65535,
        ;
    }

    let mut i: u16 = 2;
    while i <= sqrt
        invariant
            num >= 2,
            sqrt <= 255,
            sqrt * sqrt <= num < (sqrt + 1) * (sqrt + 1),
            2 <= i <= sqrt + 1,
            forall|d: nat| 2 <= d < i ==> #[trigger] ((num as nat) % d) != 0,
        decreases sqrt + 1 - i,
    {
        if num % i == 0 {
            proof {
                assert(i < num) by (nonlinear_arith)
                    requires
                        i <= sqrt,
                        sqrt * sqrt <= num,
                        num >= 2,
                        i >= 2,
                ;
                assert((num as nat) % (i as nat) == 0);
            }
            return false;
        }
        i += 1;
    }

    proof {
        assert forall|d: nat| 2 <= d < num implies #[trigger] ((num as nat) % d) != 0 by {
            if d > sqrt && (num as nat) % d == 0 {
                lemma_cofactor(num as int, d as int, sqrt as int);
                let q = (num / (d as u16)) as nat;
                assert((num as nat) % q == 0);
            }
        }
    }

    true
}

} // verus!
