//! Conversion between native integers and place buffers.
use vstd::prelude::*;

use crate::digits::{
    digits_of, is_canonical, lemma_digits_of, lemma_pow10_mono,
    lemma_value_canonical_lower, lemma_value_take_le, lemma_value_take_next, pow10, value_of,
};
use crate::places::{Decimals, MAX_DEC_PLACES};

verus! {

/// Every `u128` has at most `MAX_DEC_PLACES` canonical places.
pub proof fn lemma_u128_places(n: nat)
    requires
        n <= u128::MAX,
    ensures
        digits_of(n).len() <= MAX_DEC_PLACES,
{
    lemma_digits_of(n);
    let d = digits_of(n);
    if d.len() > MAX_DEC_PLACES {
        lemma_value_canonical_lower(d);
        lemma_pow10_mono(MAX_DEC_PLACES as nat, (d.len() - 1) as nat);
        reveal_with_fuel(pow10, 40);
        assert(pow10(39) == 1_000_000_000_000_000_000_000_000_000_000_000_000_000);
    }
}

/// Converting a number to its places and reading them back gives the number: the places
/// are canonical, so reading them back is always defined.
pub proof fn lemma_round_trip(v: u128)
    ensures
        is_canonical(digits_of(v as nat)),
        value_of(digits_of(v as nat)) == v,
        digits_of(v as nat).len() <= MAX_DEC_PLACES,
{
    lemma_digits_of(v as nat);
    lemma_u128_places(v as nat);
}

/// Converts a number to its places.
pub fn to_decimals(num: u128) -> (r: Decimals)
    ensures
        r.1 == digits_of(num as nat).len(),
        r.0@.take(r.1 as int) == digits_of(num as nat),
        forall|j: int| r.1 <= j < MAX_DEC_PLACES ==> r.0@[j] == 0,
{
    let mut decimals = [0u8; MAX_DEC_PLACES];
    let mut rest = num;
    let mut ix: usize = 0;

    proof {
        lemma_u128_places(num as nat);
        assert(decimals@.take(0) + digits_of(num as nat) =~= digits_of(num as nat));
    }

    loop
        invariant_except_break
            rest > 0 || ix == 0,
            ix + digits_of(rest as nat).len() == digits_of(num as nat).len(),
            decimals@.take(ix as int) + digits_of(rest as nat) == digits_of(num as nat),
        invariant
            digits_of(num as nat).len() <= MAX_DEC_PLACES,
            forall|j: int| ix <= j < MAX_DEC_PLACES ==> decimals@[j] == 0,
        ensures
            ix == digits_of(num as nat).len(),
            decimals@.take(ix as int) == digits_of(num as nat),
        decreases rest,
    {
        let ghost head = decimals@.take(ix as int);
        let d = rest % 10;
        decimals[ix] = d as u8;
        rest = rest / 10;

        ix += 1;

        proof {
            let prev = (rest * 10 + d) as nat;
            assert(decimals@.take(ix as int) =~= head.push(d as u8));
            if prev < 10 {
                assert(digits_of(prev) == seq![prev as u8]);
                assert(head.push(d as u8) =~= head + digits_of(prev));
            } else {
                assert(digits_of(prev) == seq![(prev % 10) as u8] + digits_of(prev / 10));
                assert(head.push(d as u8) + digits_of(rest as nat) =~= head + (seq![d as u8]
                    + digits_of(rest as nat)));
            }
        }

        if rest == 0 {
            break;
        }
    }

    (decimals, ix)
}

/// Ten to the power `exp`, for an exponent whose power fits.
fn ten_pow(exp: usize) -> (r: u128)
    requires
        pow10(exp as nat) <= u128::MAX,
    ensures
        r == pow10(exp as nat),
{
    let mut r: u128 = 1;
    let mut i: usize = 0;
    while i < exp
        invariant
            i <= exp,
            r == pow10(i as nat),
            pow10(exp as nat) <= u128::MAX,
        decreases exp - i,
    {
        proof {
            lemma_pow10_mono((i + 1) as nat, exp as nat);
        }
        r = r * 10;
        i += 1;
    }
    r
}

/// Converts places to the number they stand for.
pub fn from_decimals(decimals: &[u8]) -> (r: u128)
    requires
        decimals@.len() > 0,
        value_of(decimals@) <= u128::MAX,
    ensures
        r == value_of(decimals@),
{
    let mut num: u128 = 0;
    let len = decimals.len();

    proof {
        assert(decimals@.take(0) =~= Seq::<u8>::empty());
    }

    for ix in 0..len
        invariant
            len == decimals@.len(),
            value_of(decimals@) <= u128::MAX,
            num == value_of(decimals@.take(ix as int)),
    {
        let place = decimals[ix];
        proof {
            lemma_value_take_next(decimals@, ix as int);
            lemma_value_take_le(decimals@, ix + 1);
        }
        if place != 0 {
            proof {
                assert(value_of(decimals@.take(ix + 1)) == num + place * pow10(ix as nat));
                let p = pow10(ix as nat);
                assert(p <= place * p) by (nonlinear_arith)
                    requires
                        place >= 1,
                ;
            }
            num += place as u128 * ten_pow(ix);
        } else {
            assert(decimals@[ix as int] == 0);
            assert(0 * pow10(ix as nat) == 0);
            assert(value_of(decimals@.take(ix + 1)) == num);
        }
    }

    proof {
        assert(decimals@.take(len as int) =~= decimals@);
    }

    num
}

} // verus!
