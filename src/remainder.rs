//! The remainder engine: a dividend reduced in place, place by place, by aligned
//! repeated subtraction of a widened divisor.
use vstd::prelude::*;

use vstd::arithmetic::div_mod::{
    lemma_fundamental_div_mod, lemma_mod_bound, lemma_mod_mod, lemma_mod_multiples_basic,
    lemma_mod_sub_multiples_vanish, lemma_small_mod,
};
use vstd::math::min;

use crate::carry::ones;
use crate::convert::from_decimals;
use crate::digits::{
    all_digits, digits_of, is_canonical, lemma_canonical_prefix, lemma_pow10_add,
    lemma_pow10_mono, lemma_pow10_positive, lemma_value_bound, lemma_value_canonical_lower,
    lemma_value_concat, lemma_value_take_next, lemma_value_zero_above, pow10, value_of,
};
use crate::places::MAX_PLACES;

verus! {

/// A subtraction that went below zero by less than ten to the `m` leaves, in its lowest
/// `m` places, the true difference plus ten to the `m`.
proof fn lemma_borrow_low(b_low: int, b_high: int, e: int, s: int, p: int, q: int)
    requires
        0 <= b_low < p,
        0 <= e < s < p,
        b_low + p * b_high + s == e + p * q,
    ensures
        b_low == e - s + p,
{
    assert(p * (q - b_high) == b_low + s - e) by (nonlinear_arith)
        requires
            b_low + p * b_high + s == e + p * q,
    ;
    let k = q - b_high;
    assert(k == 1) by (nonlinear_arith)
        requires
            p * k == b_low + s - e,
            0 < b_low + s - e < 2 * p,
    ;
}

/// Splits the value of the first `n` places at place `k`.
proof fn lemma_value_split(s: Seq<u8>, k: int, n: int)
    requires
        0 <= k <= n <= s.len(),
    ensures
        value_of(s.take(n)) == value_of(s.take(k)) + pow10(k as nat) * value_of(
            s.subrange(k, n),
        ),
{
    assert(s.take(n) =~= s.take(k) + s.subrange(k, n));
    lemma_value_concat(s.take(k), s.subrange(k, n));
}

/// Facts about digit prefixes that the loops below need.
proof fn lemma_digits_take(s: Seq<u8>, n: int, k: int)
    requires
        0 <= k <= n <= s.len(),
        all_digits(s.take(n)),
    ensures
        all_digits(s.take(k)),
        all_digits(s.subrange(k, n)),
{
    assert forall|i: int| 0 <= i < k implies #[trigger] s.take(k)[i] < 10 by {
        assert(s.take(k)[i] == s.take(n)[i]);
    }
    assert forall|i: int| 0 <= i < n - k implies #[trigger] s.subrange(k, n)[i] < 10 by {
        assert(s.subrange(k, n)[i] == s.take(n)[i + k]);
    }
}

/// Of two digit sequences of one length that agree above place `i`, the one with the
/// smaller digit at `i` is the smaller number.
proof fn lemma_value_compare(a: Seq<u8>, b: Seq<u8>, i: int)
    requires
        a.len() == b.len(),
        0 <= i < a.len(),
        all_digits(a),
        all_digits(b),
        forall|k: int| i < k < a.len() ==> a[k] == b[k],
        a[i] < b[i],
    ensures
        value_of(a) < value_of(b),
{
    let n = a.len() as int;
    lemma_value_split(a, i + 1, n);
    lemma_value_split(b, i + 1, n);
    assert(a.subrange(i + 1, n) =~= b.subrange(i + 1, n));
    assert(a.take(n) =~= a);
    assert(b.take(n) =~= b);
    lemma_value_take_next(a, i);
    lemma_value_take_next(b, i);
    lemma_digits_take(a, n, i);
    lemma_value_bound(a.take(i));
    let p = pow10(i as nat);
    let x = a[i] as int;
    let y = b[i] as int;
    assert(x * p + p <= y * p) by (nonlinear_arith)
        requires
            x < y,
    ;
}

/// A number is at least `s` times ten to the `k` exactly when its places from `k` up
/// stand for at least `s`.
proof fn lemma_value_top_compare(d: Seq<u8>, k: int, s: nat)
    requires
        0 <= k <= d.len(),
        all_digits(d),
    ensures
        value_of(d) >= s * pow10(k as nat) <==> value_of(d.subrange(k, d.len() as int)) >= s,
{
    let n = d.len() as int;
    lemma_value_split(d, k, n);
    assert(d.take(n) =~= d);
    lemma_digits_take(d, n, k);
    lemma_value_bound(d.take(k));
    let p = pow10(k as nat);
    let low = value_of(d.take(k));
    let top = value_of(d.subrange(k, n));
    if top >= s {
        assert(p * top >= s * p) by (nonlinear_arith)
            requires
                top >= s,
        ;
    } else {
        assert(low + p * top < s * p) by (nonlinear_arith)
            requires
                top + 1 <= s,
                low < p,
        ;
    }
}

/// Subtracts the lowest places of `sor` from the lowest `end_len` places of `end` for as
/// long as that stays at or above zero, then trims; returns the count of significant
/// places left. Only the lowest `min(sor_len, end_len)` places of the subtrahend take
/// part, so the buffer ends up holding the old value modulo that part.
pub fn rem_crux(end: &mut [u8], sor: &[u8], end_len: usize, sor_len: usize) -> (r: usize)
    requires
        1 <= end_len <= old(end)@.len(),
        1 <= sor_len <= sor@.len(),
        all_digits(old(end)@.take(end_len as int)),
        all_digits(sor@.take(sor_len as int)),
        value_of(sor@.take(min(sor_len as int, end_len as int))) > 0,
    ensures
        final(end)@.len() == old(end)@.len(),
        1 <= r <= min(sor_len as int, end_len as int),
        is_canonical(final(end)@.take(r as int)),
        value_of(final(end)@.take(r as int)) == value_of(old(end)@.take(end_len as int))
            % value_of(sor@.take(min(sor_len as int, end_len as int))),
        forall|j: int| end_len <= j < old(end)@.len() ==> final(end)@[j] == old(end)@[j],
{
    let ghost m = min(sor_len as int, end_len as int);
    let ghost sm = sor@.take(m);
    let ghost big_s = value_of(sm);
    let ghost d0 = value_of(old(end)@.take(end_len as int));

    let mut takeover: u8;
    let mut ix: usize;

    proof {
        lemma_digits_take(sor@, sor_len as int, m);
        lemma_value_bound(sm);
    }

    loop
        invariant
            m == min(sor_len as int, end_len as int),
            sm == sor@.take(m),
            big_s == value_of(sm),
            0 < big_s < pow10(m as nat),
            1 <= end_len <= end@.len() == old(end)@.len(),
            sor_len <= sor@.len(),
            all_digits(sm),
            all_digits(end@.take(end_len as int)),
            d0 == value_of(old(end)@.take(end_len as int)),
            value_of(end@.take(end_len as int)) % big_s == d0 % big_s,
            forall|j: int| end_len <= j < end@.len() ==> end@[j] == old(end)@[j],
        decreases value_of(end@.take(end_len as int)),
    {
        let ghost start = end@;
        let ghost big_e = value_of(start.take(end_len as int));

        takeover = 0;
        ix = 0;

        proof {
            assert(end@.take(0) =~= Seq::<u8>::empty());
            assert(sm.take(0) =~= Seq::<u8>::empty());
            assert(sm.take(m) =~= sm);
        }

        while ix < end_len
            invariant_except_break
                value_of(end@.take(ix as int)) + value_of(sm.take(min(ix as int, m))) == value_of(
                    start.take(ix as int),
                ) + takeover * pow10(ix as nat),
            invariant
                ix <= end_len,
                takeover <= 1,
                m == min(sor_len as int, end_len as int),
                sm == sor@.take(m),
                sm.take(m) == sm,
                big_s == value_of(sm),
                big_e == value_of(start.take(end_len as int)),
                all_digits(sm),
                sor_len <= sor@.len(),
                end_len <= end@.len() == start.len(),
                all_digits(start.take(end_len as int)),
                all_digits(end@.take(ix as int)),
                forall|j: int| ix <= j < end@.len() ==> end@[j] == start[j],
            ensures
                ix <= end_len,
                takeover <= 1,
                all_digits(end@.take(end_len as int)),
                forall|j: int| end_len <= j < end@.len() ==> end@[j] == start[j],
                value_of(end@.take(end_len as int)) + big_s == big_e + takeover * pow10(
                    end_len as nat,
                ),
            decreases end_len - ix,
        {
            let sor_num: u8;
            if ix < sor_len {
                assert(sor@[ix as int] == sm[ix as int]);
                sor_num = sor[ix];
            } else if takeover == 0 {
                proof {
                    assert(min(ix as int, m) == m);
                    assert(sm.take(m) =~= sm);
                    lemma_value_split(end@, ix as int, end_len as int);
                    lemma_value_split(start, ix as int, end_len as int);
                    assert(end@.subrange(ix as int, end_len as int) =~= start.subrange(
                        ix as int,
                        end_len as int,
                    ));
                    lemma_digits_take(start, end_len as int, ix as int);
                    assert forall|i: int| 0 <= i < end_len implies #[trigger] end@.take(
                        end_len as int,
                    )[i] < 10 by {
                        if i < ix {
                            assert(end@.take(end_len as int)[i] == end@.take(ix as int)[i]);
                        } else {
                            assert(end@.take(end_len as int)[i] == start.take(end_len as int)[i]);
                        }
                    }
                }
                break;
            } else {
                sor_num = 0;
            }

            let mut end_num = end[ix];
            let total = sor_num + takeover;

            let ghost before = end@;
            let ghost carry_in = takeover;
            let ghost e = end_num;
            proof {
                assert(end_num == start.take(end_len as int)[ix as int]);
            }

            takeover = if end_num < total {
                end_num += 10;
                1
            } else {
                0
            };

            end[ix] = end_num - total;
            ix += 1;

            proof {
                let i = (ix - 1) as int;
                let p = pow10(i as nat);
                let nd = end@[i];
                lemma_value_take_next(end@, i);
                lemma_value_take_next(start, i);
                assert(end@.take(i) =~= before.take(i));
                assert(nd + total == e + 10 * takeover);
                if i < m {
                    lemma_value_take_next(sm, i);
                    assert(min(i + 1, m) == i + 1 && min(i, m) == i);
                    assert(sor_num == sm[i]);
                } else {
                    assert(min(i + 1, m) == m && min(i, m) == m);
                    assert(sor_num == 0);
                }
                assert(pow10((i + 1) as nat) == 10 * p);
                assert((nd + sor_num + carry_in) * p == nd * p + sor_num * p + carry_in * p)
                    by (nonlinear_arith);
                assert((e + 10 * takeover) * p == e * p + takeover * (10 * p))
                    by (nonlinear_arith);
                assert forall|k: int| 0 <= k < ix implies #[trigger] end@.take(ix as int)[k] < 10 by {
                    if k < i {
                        assert(end@.take(ix as int)[k] == before.take(i)[k]);
                    }
                }
            }
        }

        if takeover == 1 {
            let ghost low = end@;
            proof {
                lemma_value_bound(low.take(end_len as int));
                lemma_value_split(low, m, end_len as int);
                lemma_digits_take(low, end_len as int, m);
                lemma_value_bound(low.take(m));
                lemma_pow10_add(m as nat, (end_len - m) as nat);
                lemma_pow10_positive(m as nat);
                lemma_borrow_low(
                    value_of(low.take(m)) as int,
                    value_of(low.subrange(m, end_len as int)) as int,
                    big_e as int,
                    big_s as int,
                    pow10(m as nat) as int,
                    pow10((end_len - m) as nat) as int,
                );
                assert(end@.take(0) =~= Seq::<u8>::empty());
                assert(low.take(0) =~= Seq::<u8>::empty());
                assert(sm.take(0) =~= Seq::<u8>::empty());
            }

            ix = 0;
            takeover = 0;

            let mut not_len: usize = 0;

            while ix < sor_len && ix < end_len
                invariant
                    m == min(sor_len as int, end_len as int),
                    sm == sor@.take(m),
                    d0 == value_of(old(end)@.take(end_len as int)),
                    all_digits(sm),
                    sor_len <= sor@.len(),
                    end_len <= end@.len() == low.len(),
                    all_digits(low.take(end_len as int)),
                    0 <= ix <= m,
                    takeover <= 1,
                    value_of(end@.take(ix as int)) + takeover * pow10(ix as nat) == value_of(
                        low.take(ix as int),
                    ) + value_of(sm.take(ix as int)),
                    all_digits(end@.take(ix as int)),
                    forall|j: int| ix <= j < end@.len() ==> end@[j] == low[j],
                    not_len <= ix,
                    forall|j: int| ix - not_len <= j < ix ==> end@[j] == 0,
                    not_len < ix ==> end@[ix - not_len - 1] != 0,
                decreases m - ix,
            {
                let ghost before = end@;
                let ghost carry_in = takeover;
                proof {
                    assert(end@[ix as int] == low.take(end_len as int)[ix as int]);
                    assert(sor[ix as int] == sm[ix as int]);
                }
                let correction = end[ix] + sor[ix];

                let one = ones(correction, &mut takeover);
                end[ix] = one;

                if one == 0 {
                    not_len += 1;
                } else {
                    not_len = 0;
                }

                ix += 1;

                proof {
                    let i = (ix - 1) as int;
                    let p = pow10(i as nat);
                    lemma_value_take_next(end@, i);
                    lemma_value_take_next(low, i);
                    lemma_value_take_next(sm, i);
                    assert(end@.take(i) =~= before.take(i));
                    assert(one + 10 * takeover == low[i] + sm[i] + carry_in);
                    assert(pow10((i + 1) as nat) == 10 * p);
                    assert((one + 10 * takeover) * p == one * p + takeover * (10 * p))
                        by (nonlinear_arith);
                    assert((low[i] + sm[i] + carry_in) * p == low[i] * p + sm[i] * p + carry_in
                        * p) by (nonlinear_arith);
                    assert forall|k: int| 0 <= k < ix implies #[trigger] end@.take(ix as int)[k]
                        < 10 by {
                        if k < i {
                            assert(end@.take(ix as int)[k] == before.take(i)[k]);
                        }
                    }
                }
            }

            proof {
                assert(ix == m);
                assert(sm.take(m) =~= sm);
                lemma_value_bound(end@.take(m));
                lemma_pow10_positive(m as nat);
                if takeover == 0 {
                    assert(false);
                }
                let r = if not_len == ix { 1 } else { ix - not_len };
                let t = end@.take(m);
                assert(forall|j: int| r <= j < m ==> t[j] == 0);
                lemma_value_zero_above(t, r as int);
                assert(t.take(r as int) =~= end@.take(r as int));
                if not_len == ix {
                    lemma_value_zero_above(t, 0);
                    assert(t.take(0) =~= Seq::<u8>::empty());
                }
                assert forall|k: int| 0 <= k < r implies #[trigger] end@.take(r as int)[k] < 10 by {
                    assert(end@.take(r as int)[k] == t[k]);
                }
                lemma_small_mod(big_e, big_s);
            }

            return if not_len == ix {
                1
            } else {
                ix - not_len
            };
        }

        proof {
            lemma_mod_sub_multiples_vanish(big_e as int, big_s as int);
        }
    }
}

/// Reduces `dividend` modulo `divisor` in place and returns the remainder. The divisor is
/// widened by low zero places to line up with the dividend's highest places, so that each
/// pass of repeated subtraction takes off many multiples at once.
pub fn rem(dividend: &mut [u8], divisor: &[u8]) -> (r: u128)
    requires
        1 <= old(dividend)@.len() <= MAX_PLACES,
        all_digits(old(dividend)@),
        is_canonical(divisor@),
        value_of(divisor@) > 0,
        value_of(old(dividend)@) % value_of(divisor@) <= u128::MAX,
    ensures
        r == value_of(old(dividend)@) % value_of(divisor@),
        r < value_of(divisor@),
        (value_of(old(dividend)@) - r) % (value_of(divisor@) as int) == 0,
        final(dividend)@.len() == old(dividend)@.len(),
        final(dividend)@.take(digits_of(r as nat).len() as int) == digits_of(r as nat),
{
    // widened divisor
    let mut wdsor = [0u8; MAX_PLACES];

    let mut end_len = dividend.len();
    let sor_len = divisor.len();

    let sor_hg_ix = sor_len - 1;

    let ghost big_s = value_of(divisor@);
    let ghost d0 = value_of(old(dividend)@);

    proof {
        assert(dividend@.take(end_len as int) =~= dividend@);
    }

    // with `end_len == sor_len + 1` and a divisor that cannot be widened, a pass
    // changes nothing but the length
    while end_len > sor_len
        invariant
            sor_len == divisor@.len(),
            sor_hg_ix == sor_len - 1,
            is_canonical(divisor@),
            big_s == value_of(divisor@),
            big_s > 0,
            d0 == value_of(old(dividend)@),
            1 <= end_len <= dividend@.len(),
            dividend@.len() == old(dividend)@.len(),
            dividend@.len() <= MAX_PLACES,
            all_digits(dividend@.take(end_len as int)),
            value_of(dividend@.take(end_len as int)) % big_s == d0 % big_s,
            forall|j: int| 0 <= j < end_len - sor_len ==> wdsor@[j] == 0,
        decreases 2 * end_len + (if value_of(dividend@.take(end_len as int)) >= big_s * pow10(
            (end_len - sor_len) as nat,
        ) {
            1int
        } else {
            0int
        }),
    {
        let ghost shift_hi = (end_len - sor_len) as int;
        let ghost cur = dividend@.take(end_len as int);
        let ghost top = cur.subrange(shift_hi, end_len as int);

        let mut wr_ix = end_len - 1;

        let mut l_ix = wr_ix;
        let mut r_ix = sor_hg_ix;

        loop
            invariant_except_break
                wr_ix == end_len - 1,
                forall|k: int| r_ix < k < sor_len ==> top[k] == divisor@[k],
            invariant
                sor_len == divisor@.len(),
                sor_hg_ix == sor_len - 1,
                all_digits(divisor@),
                end_len <= dividend@.len(),
                cur == dividend@.take(end_len as int),
                all_digits(cur),
                shift_hi == end_len - sor_len,
                shift_hi >= 1,
                top == cur.subrange(shift_hi, end_len as int),
                r_ix <= sor_hg_ix,
                l_ix == r_ix + shift_hi,
            ensures
                wr_ix == end_len - 1 || wr_ix == end_len - 2,
                wr_ix == end_len - 1 <==> value_of(top) >= value_of(divisor@),
            decreases r_ix,
        {
            let end_num = dividend[l_ix];
            let sor_num = divisor[r_ix];

            proof {
                assert(end_num == top[r_ix as int]);
                lemma_digits_take(cur, end_len as int, shift_hi);
                assert(cur.take(end_len as int) =~= cur);
            }

            // can the divisor be widened up to the dividend's highest place
            if end_num < sor_num {
                proof {
                    lemma_value_compare(top, divisor@, r_ix as int);
                }
                wr_ix -= 1;
                break;
            } else if end_num > sor_num {
                proof {
                    lemma_value_compare(divisor@, top, r_ix as int);
                }
                break;
            }

            if r_ix == 0 {
                proof {
                    assert(top =~= divisor@);
                }
                break;
            }

            l_ix -= 1;
            r_ix -= 1;
        }

        let wdsor_len = wr_ix + 1;
        let mut sor_ix = sor_hg_ix;
        let ghost shift = (wdsor_len - sor_len) as int;
        let ghost zeros_before = wdsor@;

        loop
            invariant_except_break
                forall|j: int| 0 <= j <= wr_ix ==> wdsor@[j] == zeros_before[j],
            invariant
                sor_len == divisor@.len(),
                sor_hg_ix == sor_len - 1,
                sor_ix <= sor_hg_ix,
                wr_ix == sor_ix + shift,
                0 <= shift <= shift_hi,
                wdsor_len == shift + sor_len,
                wdsor_len <= end_len,
                end_len <= MAX_PLACES,
                wdsor@.len() == MAX_PLACES,
                forall|j: int| 0 <= j < shift ==> wdsor@[j] == 0,
                forall|k: int| sor_ix < k < sor_len ==> wdsor@[k + shift] == divisor@[k],
            ensures
                forall|j: int| 0 <= j < shift ==> wdsor@[j] == 0,
                forall|k: int| 0 <= k < sor_len ==> wdsor@[k + shift] == divisor@[k],
            decreases sor_ix,
        {
            let ghost before = wdsor@;
            wdsor[wr_ix] = divisor[sor_ix];

            proof {
                assert forall|k: int| sor_ix <= k < sor_len implies wdsor@[k + shift]
                    == divisor@[k] by {
                    if k > sor_ix {
                        assert(wdsor@[k + shift] == before[k + shift]);
                    }
                }
                assert forall|j: int| 0 <= j < shift implies wdsor@[j] == 0 by {
                    assert(wdsor@[j] == before[j]);
                }
            }

            if sor_ix == 0 {
                break;
            }

            sor_ix -= 1;
            wr_ix -= 1;
        }

        proof {
            let w = wdsor@.take(wdsor_len as int);
            let z = Seq::<u8>::new(shift as nat, |i: int| 0u8);
            assert(w =~= z + divisor@);
            lemma_value_concat(z, divisor@);
            lemma_value_zero_above(z, 0);
            assert(z.take(0) =~= Seq::<u8>::empty());
            assert(value_of(w) == pow10(shift as nat) * big_s);
            lemma_pow10_positive(shift as nat);
            assert(pow10(shift as nat) * big_s > 0) by (nonlinear_arith)
                requires
                    pow10(shift as nat) >= 1,
                    big_s > 0,
            ;
            assert(min(wdsor_len as int, end_len as int) == wdsor_len);
            assert forall|i: int| 0 <= i < wdsor_len implies #[trigger] w[i] < 10 by {
                if i >= shift {
                    assert(w[i] == divisor@[i - shift]);
                }
            }
            lemma_value_top_compare(cur, shift_hi, big_s);
        }

        end_len = rem_crux(dividend, &wdsor, end_len, wdsor_len);

        proof {
            let p = pow10(shift as nat);
            lemma_mod_mod(value_of(cur) as int, big_s as int, p as int);
            assert(big_s * p == p * big_s) by (nonlinear_arith);
            let now = value_of(dividend@.take(end_len as int));
            assert(now < p * big_s) by {
                lemma_mod_bound(value_of(cur) as int, (p * big_s) as int);
            }
            lemma_digits_take(dividend@, end_len as int, end_len as int);
            if end_len as int == shift_hi + sor_len {
                assert(shift == shift_hi);
                assert(!(now >= big_s * pow10((end_len - sor_len) as nat)));
            }
        }
    }

    // one unshifted pass at equal lengths; a shorter dividend is already below the divisor
    if end_len == sor_len {
        proof {
            assert(min(sor_len as int, end_len as int) == sor_len);
            assert(divisor@.take(sor_len as int) =~= divisor@);
        }
        end_len = rem_crux(dividend, divisor, end_len, sor_len);
        proof {
            lemma_mod_bound(d0 as int, big_s as int);
            lemma_digits_take(dividend@, end_len as int, end_len as int);
        }
    } else {
        proof {
            let cur = dividend@.take(end_len as int);
            lemma_value_bound(cur);
            lemma_value_canonical_lower(divisor@);
            lemma_pow10_mono(end_len as nat, (sor_len - 1) as nat);
            lemma_small_mod(value_of(cur), big_s);
        }
    }

    proof {
        let cur = dividend@.take(end_len as int);
        assert(value_of(cur) == d0 % big_s);
        lemma_canonical_prefix(cur);
        lemma_mod_bound(d0 as int, big_s as int);
        assert forall|k: int| 0 <= k < digits_of(value_of(cur)).len() implies dividend@.take(
            digits_of(value_of(cur)).len() as int,
        )[k] == digits_of(value_of(cur))[k] by {
            assert(cur.take(digits_of(value_of(cur)).len() as int)[k] == cur[k]);
        }
        assert(dividend@.take(digits_of(value_of(cur)).len() as int) =~= digits_of(
            value_of(cur),
        ));
        lemma_fundamental_div_mod(d0 as int, big_s as int);
        lemma_mod_multiples_basic(d0 as int / big_s as int, big_s as int);
        assert(d0 - d0 % big_s == big_s * (d0 as int / big_s as int));
    }

    from_decimals(&dividend[0..end_len])
}

} // verus!
