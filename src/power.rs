//! The power engine: repeated long multiplication into a product buffer.
use vstd::prelude::*;

use crate::carry::muladd;
use crate::digits::{
    all_digits, digits_of, is_canonical, lemma_canonical_prefix, lemma_digits_of,
    lemma_pow10_add, lemma_pow10_mono, lemma_pow10_positive, lemma_value_bound,
    lemma_value_canonical_lower, lemma_value_small_zero_above, lemma_value_take_le,
    lemma_value_take_next, lemma_value_zero_above, pow10, value_of,
};
use crate::places::{Product, MAX_PLACES};

verus! {

/// `b` to the power `e`, with `b` to the power zero being one for every `b`.
pub open spec fn power(b: nat, e: nat) -> nat
    decreases e,
{
    if e == 0 {
        1
    } else {
        power(b, (e - 1) as nat) * b
    }
}

/// Any base to the power one is itself.
pub proof fn lemma_power_one(b: nat)
    ensures
        power(b, 1) == b,
{
    assert(power(b, 0) == 1);
    assert(power(b, 1) == power(b, 0) * b);
}

/// A power of a positive base is positive.
pub proof fn lemma_power_positive(b: nat, e: nat)
    requires
        b >= 1,
    ensures
        power(b, e) >= 1,
    decreases e,
{
    if e > 0 {
        lemma_power_positive(b, (e - 1) as nat);
        let x = power(b, (e - 1) as nat);
        assert(x * b >= 1) by (nonlinear_arith)
            requires
                x >= 1,
                b >= 1,
        ;
    }
}

/// For a positive base, a larger exponent never gives a smaller power.
pub proof fn lemma_power_mono(b: nat, i: nat, j: nat)
    requires
        b >= 1,
        i <= j,
    ensures
        power(b, i) <= power(b, j),
    decreases j,
{
    if i < j {
        lemma_power_mono(b, i, (j - 1) as nat);
        lemma_power_positive(b, (j - 1) as nat);
        let x = power(b, (j - 1) as nat);
        assert(x <= x * b) by (nonlinear_arith)
            requires
                b >= 1,
        ;
    }
}

/// Zero to a positive power is zero; one to any power is one.
pub proof fn lemma_power_of_zero_and_one(e: nat)
    ensures
        e > 0 ==> power(0, e) == 0,
        power(1, e) == 1,
    decreases e,
{
    if e > 0 {
        lemma_power_of_zero_and_one((e - 1) as nat);
    }
}

/// A prefix of a digit sequence is a digit sequence.
proof fn lemma_digits_prefix(s: Seq<u8>, n: int)
    requires
        0 <= n <= s.len(),
        all_digits(s),
    ensures
        all_digits(s.take(n)),
{
    assert forall|i: int| 0 <= i < n implies #[trigger] s.take(n)[i] < 10 by {
        assert(s.take(n)[i] == s[i]);
    }
}

/// The next power still fits, and the canonical lengths of a power and the base bound the
/// length of their product from both sides.
proof fn lemma_product_lengths(base: Seq<u8>, acc: Seq<u8>, k: nat, top: nat)
    requires
        is_canonical(base),
        is_canonical(acc),
        value_of(acc) == power(value_of(base), k),
        1 <= k < top,
        power(value_of(base), top) < pow10(MAX_PLACES as nat),
    ensures
        value_of(acc) * value_of(base) == power(value_of(base), k + 1),
        power(value_of(base), k + 1) < pow10(MAX_PLACES as nat),
        acc.len() + base.len() - 1 <= MAX_PLACES,
        acc.len() + base.len() > 2 ==> value_of(acc) * value_of(base) >= pow10(
            (acc.len() + base.len() - 2) as nat,
        ),
{
    let b = value_of(base);
    let a = value_of(acc);
    let ml = acc.len();
    let bl = base.len();
    assert(power(b, k + 1) == a * b);
    if b == 0 {
        lemma_power_of_zero_and_one(k);
        if bl > 1 {
            lemma_value_canonical_lower(base);
            lemma_pow10_positive((bl - 1) as nat);
        }
        if ml > 1 {
            lemma_value_canonical_lower(acc);
            lemma_pow10_positive((ml - 1) as nat);
        }
        assert(a * b == 0);
    } else {
        lemma_power_mono(b, k + 1, top);
        lemma_power_positive(b, k);
        lemma_value_canonical_lower(acc);
        lemma_value_canonical_lower(base);
        let pa = pow10((ml - 1) as nat);
        let pb = pow10((bl - 1) as nat);
        lemma_pow10_add((ml - 1) as nat, (bl - 1) as nat);
        assert(a * b >= pa * pb) by (nonlinear_arith)
            requires
                a >= pa,
                b >= pb,
                pa >= 0,
                pb >= 0,
        ;
        if ml + bl - 1 > MAX_PLACES {
            lemma_pow10_mono(MAX_PLACES as nat, (ml + bl - 2) as nat);
        }
    }
}

/// Raises the number in `base` to the power `exp` by repeated long multiplication.
pub fn pow(base: &[u8], exp: u8) -> (r: Product)
    requires
        is_canonical(base@),
        power(value_of(base@), exp as nat) < pow10(MAX_PLACES as nat),
    ensures
        r.1 == digits_of(power(value_of(base@), exp as nat)).len(),
        r.0@.take(r.1 as int) == digits_of(power(value_of(base@), exp as nat)),
        exp == 0 ==> r.0@.take(r.1 as int) == seq![1u8],
        exp == 1 ==> r.0@.take(r.1 as int) == base@,
        exp > 0 && value_of(base@) == 0 ==> r.0@.take(r.1 as int) == seq![0u8],
        value_of(base@) == 1 ==> r.0@.take(r.1 as int) == seq![1u8],
{
    let ghost b = value_of(base@);
    proof {
        lemma_power_of_zero_and_one(exp as nat);
        lemma_digits_of(1);
        lemma_digits_of(0);
        assert(digits_of(1) == seq![1u8]);
        assert(digits_of(0) == seq![0u8]);
    }

    let mut mcand = [0u8; MAX_PLACES];
    if exp == 0 {
        mcand[0] = 1;
        proof {
            assert(mcand@.take(1) =~= seq![1u8]);
        }
        return (mcand, 1);
    }

    let base_len = base.len();

    proof {
        lemma_power_one(b);
        if base_len > 1 {
            lemma_value_canonical_lower(base@);
            lemma_pow10_positive((base_len - 1) as nat);
            lemma_power_mono(b, 1, exp as nat);
            assert(b <= power(b, exp as nat));
            assert(b >= pow10((base_len - 1) as nat));
            if base_len > MAX_PLACES {
                lemma_pow10_mono(MAX_PLACES as nat, (base_len - 1) as nat);
                assert(false);
            }
        }
    }

    for ix in 0..base_len
        invariant
            base_len == base@.len() <= MAX_PLACES,
            forall|j: int| 0 <= j < ix ==> mcand@[j] == base@[j],
            forall|j: int| ix <= j < MAX_PLACES ==> mcand@[j] == 0,
    {
        mcand[ix] = base[ix]
    }

    proof {
        assert(mcand@.take(base_len as int) =~= base@);
        lemma_canonical_prefix(base@);
        lemma_power_one(b);
    }

    if exp == 1 {
        return (mcand, base_len);
    }

    let mut sum = [0u8; MAX_PLACES];

    let mut limit = (exp - 1) as usize;
    let mut mcand_len = base_len;

    let mut sum_len: usize = 0;

    loop
        invariant_except_break
            1 <= limit,
            forall|j: int| 0 <= j < MAX_PLACES ==> sum@[j] == 0,
        invariant
            base_len == base@.len() <= MAX_PLACES,
            is_canonical(base@),
            b == value_of(base@),
            power(b, exp as nat) < pow10(MAX_PLACES as nat),
            2 <= exp,
            limit <= exp - 1,
            1 <= mcand_len <= MAX_PLACES,
            is_canonical(mcand@.take(mcand_len as int)),
            value_of(mcand@.take(mcand_len as int)) == power(b, (exp - limit) as nat),
        ensures
            1 <= mcand_len <= MAX_PLACES,
            is_canonical(mcand@.take(mcand_len as int)),
            value_of(mcand@.take(mcand_len as int)) == power(b, exp as nat),
        decreases limit,
    {
        let ghost a = value_of(mcand@.take(mcand_len as int));
        let ghost ml = mcand_len as int;
        let ghost k = (exp - limit) as nat;

        proof {
            lemma_product_lengths(base@, mcand@.take(ml), k, exp as nat);
            assert(sum@.take(0) =~= Seq::<u8>::empty());
            assert(base@.take(0) =~= Seq::<u8>::empty());
            lemma_value_zero_above(sum@, 0);
            assert(value_of(sum@) == 0);
            assert(a * 0 == 0);
        }

        for base_off in 0..base_len
            invariant
                base_len == base@.len(),
                all_digits(base@),
                value_of(base@) == b,
                1 <= ml <= MAX_PLACES,
                mcand_len == ml,
                is_canonical(mcand@.take(ml)),
                a == value_of(mcand@.take(ml)),
                a * b < pow10(MAX_PLACES as nat),
                ml + base_len - 1 <= MAX_PLACES,
                sum@.len() == MAX_PLACES,
                all_digits(sum@),
                value_of(sum@) == a * value_of(base@.take(base_off as int)),
                base_off > 0 ==> (base_off - 1 + ml <= sum_len <= MAX_PLACES && (forall|j: int|
                    sum_len <= j < MAX_PLACES ==> sum@[j] == 0) && (sum_len == base_off - 1 + ml
                    || sum@[sum_len - 1] != 0)),
        {
            let ghost before = sum@;
            proof {
                let o = base_off as int;
                let bt = value_of(base@.take(o));
                let bn = value_of(base@.take(o + 1));
                let d = base@[o] as int;
                let po = pow10(o as nat);
                lemma_value_take_next(base@, o);
                lemma_value_take_le(base@, o + 1);
                assert(a * bt + d * a * po == a * bn) by (nonlinear_arith)
                    requires
                        bn == bt + d * po,
                ;
                assert(a * bn <= a * b) by (nonlinear_arith)
                    requires
                        bn <= b,
                ;
                lemma_value_bound(mcand@.take(ml));
                lemma_value_bound(base@.take(o));
                lemma_pow10_add(ml as nat, o as nat);
                assert(a * bt < pow10(ml as nat) * po) by (nonlinear_arith)
                    requires
                        a < pow10(ml as nat),
                        bt < po,
                ;
                assert forall|j: int| ml + o <= j < MAX_PLACES implies before[j] == 0 by {
                    lemma_value_small_zero_above(before, (ml + o) as nat, j);
                }
            }

            sum_len = muladd(&mcand[0..mcand_len], base[base_off], &mut sum, base_off);
        }

        proof {
            let bl = base_len as int;
            let l = sum_len as int;
            assert(base@.take(bl) =~= base@);
            lemma_product_lengths(base@, mcand@.take(ml), k, exp as nat);
            assert(value_of(sum@) == power(b, k + 1));
            lemma_value_zero_above(sum@, l);
            let t = sum@.take(l);
            assert forall|i: int| 0 <= i < l implies #[trigger] t[i] < 10 by {
                assert(t[i] == sum@[i]);
            }
            if l > 1 && l == bl - 1 + ml {
                lemma_value_take_next(sum@, l - 1);
                lemma_digits_prefix(sum@, l - 1);
                lemma_value_bound(sum@.take(l - 1));
                if sum@[l - 1] == 0 {
                    assert(value_of(t) == value_of(sum@.take(l - 1)));
                }
            }
            assert(t.last() == sum@[l - 1]);
        }

        mcand_len = sum_len;
        limit -= 1;
        if limit == 0 {
            mcand = sum;
            break;
        }

        let ghost full = sum@;

        for ix in 0..sum_len
            invariant
                sum_len <= MAX_PLACES,
                sum@.len() == MAX_PLACES,
                forall|j: int| 0 <= j < ix ==> mcand@[j] == full[j],
                forall|j: int| 0 <= j < ix ==> sum@[j] == 0,
                forall|j: int| ix <= j < MAX_PLACES ==> sum@[j] == full[j],
                forall|j: int| sum_len <= j < MAX_PLACES ==> full[j] == 0,
        {
            mcand[ix] = sum[ix];
            sum[ix] = 0;
        }

        proof {
            assert(mcand@.take(sum_len as int) =~= full.take(sum_len as int));
            assert forall|j: int| 0 <= j < MAX_PLACES implies sum@[j] == 0 by {
                if j >= sum_len {
                    assert(sum@[j] == full[j]);
                }
            }
        }
    }

    proof {
        let t = mcand@.take(mcand_len as int);
        lemma_canonical_prefix(t);
    }

    (mcand, mcand_len)
}

} // verus!
