//! Carry primitives: folding a sum into one decimal place, and adding into a
//! place buffer with the carry carried up.
use vstd::prelude::*;

use crate::digits::{
    all_digits, lemma_pow10_add, lemma_pow10_mono, lemma_value_take_le, lemma_value_take_next,
    lemma_value_update, pow10, value_of,
};

verus! {

/// Splits `num` plus the incoming carry into its ones digit, which is returned, and
/// the carry for the next place, which replaces the incoming one.
pub fn ones(num: u8, takeover_ref: &mut u8) -> (r: u8)
    requires
        num + *old(takeover_ref) <= u8::MAX,
    ensures
        r == (num + *old(takeover_ref)) % 10,
        *final(takeover_ref) == (num + *old(takeover_ref)) / 10,
{
    let mut takeover_val = *takeover_ref;
    let total = num + takeover_val;

    takeover_val = total / 10;
    *takeover_ref = takeover_val;

    total - takeover_val * 10
}

/// Adds `addend` into place `off` of `sum` and carries up until no carry is left;
/// returns the highest place written.
pub fn sumadd(addend: u8, sum: &mut [u8], off: usize) -> (r: usize)
    requires
        off < old(sum)@.len(),
        all_digits(old(sum)@),
        old(sum)@[off as int] + addend <= u8::MAX,
        value_of(old(sum)@) + addend * pow10(off as nat) < pow10(old(sum)@.len()),
    ensures
        final(sum)@.len() == old(sum)@.len(),
        all_digits(final(sum)@),
        value_of(final(sum)@) == value_of(old(sum)@) + addend * pow10(off as nat),
        off <= r < final(sum)@.len(),
        forall|j: int|
            0 <= j < old(sum)@.len() && (j < off || j > r) ==> final(sum)@[j] == old(sum)@[j],
        final(sum)@[r as int] >= old(sum)@[r as int],
        r > off ==> final(sum)@[r as int] > old(sum)@[r as int],
{
    let mut takeover: u8 = 0;
    let mut add: u8 = addend;
    let mut ix: usize = off;

    loop
        invariant_except_break
            ix == off ==> add == addend && takeover == 0,
            ix > off ==> add == 0 && 1 <= takeover <= 25,
            forall|j: int| 0 <= j < sum@.len() && (j < off || j >= ix) ==> sum@[j] == old(sum)@[j],
            value_of(sum@) + (add + takeover) * pow10(ix as nat) == value_of(old(sum)@) + addend
                * pow10(off as nat),
        invariant
            off <= ix < sum@.len(),
            sum@.len() == old(sum)@.len(),
            all_digits(sum@),
            value_of(old(sum)@) + addend * pow10(off as nat) < pow10(sum@.len()),
            old(sum)@[off as int] + addend <= u8::MAX,
        ensures
            off <= ix < sum@.len(),
            sum@.len() == old(sum)@.len(),
            all_digits(sum@),
            forall|j: int| 0 <= j < sum@.len() && (j < off || j > ix) ==> sum@[j] == old(sum)@[j],
            value_of(sum@) == value_of(old(sum)@) + addend * pow10(off as nat),
            sum@[ix as int] >= old(sum)@[ix as int],
            ix > off ==> sum@[ix as int] > old(sum)@[ix as int],
        decreases sum@.len() - ix,
    {
        let augend = sum[ix];
        let ghost before = sum@;
        assert(augend == old(sum)@[ix as int] && augend < 10);
        let ghost carry_in = takeover;

        sum[ix] = ones(augend + add, &mut takeover);

        proof {
            let digit = sum@[ix as int];
            let p = pow10(ix as nat);
            lemma_value_update(before, ix as int, digit);
            assert(sum@ == before.update(ix as int, digit));
            assert(digit + 10 * takeover == augend + add + carry_in);
            assert(pow10(ix as nat + 1) == 10 * p);
            assert(takeover * (10 * p) == (10 * takeover) * p) by (nonlinear_arith);
            assert((augend + add + carry_in) * p == augend * p + (add + carry_in) * p)
                by (nonlinear_arith);
            assert((digit + 10 * takeover) * p == digit * p + (10 * takeover) * p)
                by (nonlinear_arith);
            assert forall|i: int| 0 <= i < sum@.len() implies #[trigger] sum@[i] < 10 by {
                if i != ix {
                    assert(sum@[i] == before[i]);
                }
            }
        }

        if takeover == 0 {
            break;
        } else {
            proof {
                let p1 = pow10(ix as nat + 1);
                assert(p1 <= takeover * p1) by (nonlinear_arith)
                    requires
                        takeover >= 1,
                ;
                if ix + 1 >= sum@.len() {
                    lemma_pow10_mono(sum@.len(), ix as nat + 1);
                }
            }
            add = 0;
            ix += 1;
        }
    }

    ix
}

/// Adds `mpler` times the number in `mcand` into `sum`, shifted up by `base_off` places;
/// returns one past the highest place written.
pub fn muladd(mcand: &[u8], mpler: u8, sum: &mut [u8], base_off: usize) -> (r: usize)
    requires
        mcand@.len() >= 1,
        all_digits(mcand@),
        mpler < 10,
        all_digits(old(sum)@),
        base_off + mcand@.len() <= old(sum)@.len(),
        value_of(old(sum)@) + mpler * value_of(mcand@) * pow10(base_off as nat) < pow10(
            old(sum)@.len(),
        ),
    ensures
        final(sum)@.len() == old(sum)@.len(),
        all_digits(final(sum)@),
        value_of(final(sum)@) == value_of(old(sum)@) + mpler * value_of(mcand@) * pow10(
            base_off as nat,
        ),
        base_off + mcand@.len() <= r <= final(sum)@.len(),
        forall|j: int| r <= j < final(sum)@.len() ==> final(sum)@[j] == old(sum)@[j],
        r == base_off + mcand@.len() || final(sum)@[r - 1] != old(sum)@[r - 1],
{
    let mut sum_max_ix: usize = 0;

    let mut ix: usize = 0;
    let mcand_len = mcand.len();

    proof {
        assert(sum@.len() == sum.len());
        assert(mcand@.take(0) =~= Seq::<u8>::empty());
        assert(value_of(mcand@.take(0)) == 0);
        assert(mpler * 0nat * pow10(base_off as nat) == 0) by (nonlinear_arith);
    }

    while ix < mcand_len
        invariant
            0 <= ix <= mcand_len == mcand@.len(),
            sum@.len() <= usize::MAX,
            all_digits(mcand@),
            mpler < 10,
            base_off + mcand_len <= sum@.len(),
            sum@.len() == old(sum)@.len(),
            all_digits(sum@),
            value_of(old(sum)@) + mpler * value_of(mcand@) * pow10(base_off as nat) < pow10(
                sum@.len(),
            ),
            value_of(sum@) == value_of(old(sum)@) + mpler * value_of(mcand@.take(ix as int))
                * pow10(base_off as nat),
            ix == 0 ==> sum_max_ix == 0 && sum@ == old(sum)@,
            ix > 0 ==> base_off + ix - 1 <= sum_max_ix < sum@.len(),
            ix > 0 ==> forall|j: int|
                sum_max_ix < j < sum@.len() ==> sum@[j] == old(sum)@[j],
            ix > 0 ==> (sum_max_ix == base_off + ix - 1 || sum@[sum_max_ix as int] > old(
                sum,
            )@[sum_max_ix as int]),
        decreases mcand_len - ix,
    {
        let digit = mcand[ix];
        assert(mpler * digit <= 81) by (nonlinear_arith)
            requires
                mpler < 10,
                digit < 10,
        ;
        let prod = mpler * digit;
        let ghost before = sum@;
        let off = base_off + ix;

        proof {
            let pb = pow10(base_off as nat);
            let pi = pow10(ix as nat);
            let low = value_of(mcand@.take(ix as int));
            let next = value_of(mcand@.take(ix + 1));
            let m = mpler as int;
            let d = digit as int;
            lemma_value_take_next(mcand@, ix as int);
            lemma_value_take_le(mcand@, ix + 1);
            lemma_pow10_add(base_off as nat, ix as nat);
            assert(m * low * pb + (m * d) * (pb * pi) == m * (low + d * pi) * pb)
                by (nonlinear_arith);
            assert(m * next * pb <= m * value_of(mcand@) * pb) by (nonlinear_arith)
                requires
                    next <= value_of(mcand@),
                    m >= 0,
            ;
            assert(before[off as int] < 10);
        }

        let max_wr_ix = sumadd(prod, sum, off);

        proof {
            let pb = pow10(base_off as nat);
            let pi = pow10(ix as nat);
            let low = value_of(mcand@.take(ix as int));
            let m = mpler as int;
            let d = digit as int;
            assert(m * low * pb + (m * d) * (pb * pi) == m * (low + d * pi) * pb)
                by (nonlinear_arith);
        }

        if max_wr_ix > sum_max_ix {
            sum_max_ix = max_wr_ix
        };

        proof {
            assert forall|j: int| sum_max_ix < j < sum@.len() implies sum@[j] == old(sum)@[j] by {
                assert(sum@[j] == before[j]);
            }
        }

        ix += 1;
    }

    assert(mcand@.take(mcand_len as int) =~= mcand@);

    sum_max_ix + 1
}

} // verus!
