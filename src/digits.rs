//! The mathematical model of a place buffer: its value, its canonical form, and
//! the facts about both that the arithmetic relies on.
use vstd::prelude::*;

verus! {

/// Ten to the power `n`.
pub open spec fn pow10(n: nat) -> nat
    decreases n,
{
    if n == 0 {
        1
    } else {
        10 * pow10((n - 1) as nat)
    }
}

/// The number that a little-endian sequence of places stands for (index 0 is the ones place).
pub open spec fn value_of(s: Seq<u8>) -> nat
    decreases s.len(),
{
    if s.len() == 0 {
        0
    } else {
        value_of(s.drop_last()) + s.last() as nat * pow10((s.len() - 1) as nat)
    }
}

/// Every place holds a single decimal digit.
pub open spec fn all_digits(s: Seq<u8>) -> bool {
    forall|i: int| 0 <= i < s.len() ==> #[trigger] s[i] < 10
}

/// At least one place, all of them digits, and no leading zero except in the single-digit zero.
pub open spec fn is_canonical(s: Seq<u8>) -> bool {
    &&& s.len() >= 1
    &&& all_digits(s)
    &&& (s.len() == 1 || s.last() != 0)
}

/// The canonical places of `n`, least significant first.
pub open spec fn digits_of(n: nat) -> Seq<u8>
    decreases n,
{
    if n < 10 {
        seq![n as u8]
    } else {
        seq![(n % 10) as u8] + digits_of(n / 10)
    }
}

pub proof fn lemma_pow10_positive(n: nat)
    ensures
        pow10(n) >= 1,
    decreases n,
{
    if n > 0 {
        lemma_pow10_positive((n - 1) as nat);
    }
}

pub proof fn lemma_pow10_add(a: nat, b: nat)
    ensures
        pow10(a + b) == pow10(a) * pow10(b),
    decreases b,
{
    if b > 0 {
        let b1 = (b - 1) as nat;
        lemma_pow10_add(a, b1);
        assert(a + b == (a + b1) + 1);
        assert(pow10(a + b) == 10 * pow10(a + b1));
        assert(pow10(b) == 10 * pow10(b1));
        let pa = pow10(a);
        let pb = pow10(b1);
        assert(10 * (pa * pb) == pa * (10 * pb)) by (nonlinear_arith);
    } else {
        assert(pow10(0) == 1);
        assert(a + b == a);
    }
}

/// A larger exponent gives a strictly larger power.
pub proof fn lemma_pow10_strict(a: nat, b: nat)
    requires
        a < b,
    ensures
        pow10(a) < pow10(b),
    decreases b,
{
    lemma_pow10_positive((b - 1) as nat);
    if a < b - 1 {
        lemma_pow10_strict(a, (b - 1) as nat);
    }
}

pub proof fn lemma_pow10_mono(a: nat, b: nat)
    requires
        a <= b,
    ensures
        pow10(a) <= pow10(b),
{
    if a < b {
        lemma_pow10_strict(a, b);
    }
}

/// Appending a place adds it at its own weight.
pub proof fn lemma_value_push(s: Seq<u8>, d: u8)
    ensures
        value_of(s.push(d)) == value_of(s) + d as nat * pow10(s.len()),
{
    assert(s.push(d).drop_last() =~= s);
}

/// The value of a prefix one place longer.
pub proof fn lemma_value_take_next(s: Seq<u8>, i: int)
    requires
        0 <= i < s.len(),
    ensures
        value_of(s.take(i + 1)) == value_of(s.take(i)) + s[i] as nat * pow10(i as nat),
{
    assert(s.take(i + 1) =~= s.take(i).push(s[i]));
    lemma_value_push(s.take(i), s[i]);
}

/// The higher part of a concatenation is weighted by ten to the length of the lower part.
pub proof fn lemma_value_concat(a: Seq<u8>, b: Seq<u8>)
    ensures
        value_of(a + b) == value_of(a) + pow10(a.len()) * value_of(b),
    decreases b.len(),
{
    if b.len() == 0 {
        assert(a + b =~= a);
    } else {
        let bl = b.drop_last();
        let ab = a + b;
        assert(ab.drop_last() =~= a + bl);
        assert(ab.last() == b.last());
        lemma_value_concat(a, bl);
        let k = (b.len() - 1) as nat;
        lemma_pow10_add(a.len(), k);
        assert(ab.len() - 1 == a.len() + k);
        assert(value_of(ab) == value_of(a + bl) + ab.last() as nat * pow10(a.len() + k));
        assert(value_of(b) == value_of(bl) + b.last() as nat * pow10(k));
        let pa = pow10(a.len());
        let pb = pow10(k);
        let x = value_of(bl);
        let d = b.last() as nat;
        assert(pa * x + d * (pa * pb) == pa * (x + d * pb)) by (nonlinear_arith);
    }
}

/// A single place stands for its digit.
pub proof fn lemma_value_single(d: u8)
    ensures
        value_of(seq![d]) == d,
{
    let s = seq![d];
    assert(s.drop_last() =~= Seq::<u8>::empty());
    assert(value_of(Seq::<u8>::empty()) == 0);
    assert(pow10(0) == 1);
    assert(value_of(s) == value_of(s.drop_last()) + s.last() as nat * pow10(0));
}

/// The value seen from the ones place: the lowest digit plus ten times the rest.
pub proof fn lemma_value_front(s: Seq<u8>)
    requires
        s.len() >= 1,
    ensures
        value_of(s) == s[0] as nat + 10 * value_of(s.skip(1)),
{
    assert(s =~= seq![s[0]] + s.skip(1));
    lemma_value_concat(seq![s[0]], s.skip(1));
    lemma_value_single(s[0]);
    assert(pow10(1) == 10 * pow10(0));
}

/// A sequence of `n` digits stands for less than ten to the `n`.
pub proof fn lemma_value_bound(s: Seq<u8>)
    requires
        all_digits(s),
    ensures
        value_of(s) < pow10(s.len()),
    decreases s.len(),
{
    if s.len() > 0 {
        let dl = s.drop_last();
        assert(all_digits(dl)) by {
            assert forall|i: int| 0 <= i < dl.len() implies #[trigger] dl[i] < 10 by {
                assert(dl[i] == s[i]);
            }
        }
        lemma_value_bound(dl);
        let p = pow10((s.len() - 1) as nat);
        let d = s.last() as nat;
        assert(d < 10);
        assert(d * p <= 9 * p) by (nonlinear_arith)
            requires
                d < 10,
        ;
    }
}

/// A prefix never stands for more than the whole.
pub proof fn lemma_value_take_le(s: Seq<u8>, n: int)
    requires
        0 <= n <= s.len(),
    ensures
        value_of(s.take(n)) <= value_of(s),
{
    assert(s =~= s.take(n) + s.skip(n));
    lemma_value_concat(s.take(n), s.skip(n));
    lemma_pow10_positive(n as nat);
    let p = pow10(n as nat);
    let v = value_of(s.skip(n));
    assert(p * v >= 0) by (nonlinear_arith)
        requires
            p >= 1,
    ;
}

/// Places above `n` that are all zero add nothing.
pub proof fn lemma_value_zero_above(s: Seq<u8>, n: int)
    requires
        0 <= n <= s.len(),
        forall|j: int| n <= j < s.len() ==> s[j] == 0,
    ensures
        value_of(s) == value_of(s.take(n)),
    decreases s.len(),
{
    if s.len() > n {
        let dl = s.drop_last();
        assert(dl.take(n) =~= s.take(n));
        assert(s.last() == 0);
        lemma_value_zero_above(dl, n);
    } else {
        assert(s.take(n) =~= s);
    }
}

/// A sequence of digits worth less than ten to the `n` has only zeros from place `n` up.
pub proof fn lemma_value_small_zero_above(s: Seq<u8>, n: nat, j: int)
    requires
        all_digits(s),
        value_of(s) < pow10(n),
        n <= j < s.len(),
    ensures
        s[j] == 0,
{
    assert(s =~= s.take(j) + s.skip(j));
    lemma_value_concat(s.take(j), s.skip(j));
    lemma_value_front(s.skip(j));
    lemma_pow10_mono(n, j as nat);
    let p = pow10(j as nat);
    let v = value_of(s.skip(j));
    if s[j] != 0 {
        assert(p * v >= p) by (nonlinear_arith)
            requires
                v >= 1,
        ;
    }
}

/// A canonical sequence of more than one place is at least ten to its length less one.
pub proof fn lemma_value_canonical_lower(s: Seq<u8>)
    requires
        is_canonical(s),
        s.len() > 1 || value_of(s) > 0,
    ensures
        value_of(s) >= pow10((s.len() - 1) as nat),
{
    if s.len() == 1 {
        assert(s.drop_last() =~= Seq::<u8>::empty());
        assert(pow10(0) == 1);
    } else {
        let p = pow10((s.len() - 1) as nat);
        let d = s.last() as nat;
        assert(d * p >= p) by (nonlinear_arith)
            requires
                d >= 1,
        ;
    }
}

/// Writing `v` into place `i` changes the value by the difference at that place's weight.
pub proof fn lemma_value_update(s: Seq<u8>, i: int, v: u8)
    requires
        0 <= i < s.len(),
    ensures
        value_of(s.update(i, v)) + s[i] as nat * pow10(i as nat) == value_of(s) + v as nat * pow10(
            i as nat,
        ),
{
    let t = s.update(i, v);
    assert(s =~= s.take(i + 1) + s.skip(i + 1));
    assert(t =~= t.take(i + 1) + t.skip(i + 1));
    assert(t.skip(i + 1) =~= s.skip(i + 1));
    assert(t.take(i) =~= s.take(i));
    lemma_value_concat(s.take(i + 1), s.skip(i + 1));
    lemma_value_concat(t.take(i + 1), t.skip(i + 1));
    lemma_value_take_next(s, i);
    lemma_value_take_next(t, i);
}

/// The canonical places of `n` are canonical and stand for `n`.
pub proof fn lemma_digits_of(n: nat)
    ensures
        is_canonical(digits_of(n)),
        value_of(digits_of(n)) == n,
    decreases n,
{
    let d = digits_of(n);
    if n < 10 {
        assert(d == seq![n as u8]);
        lemma_value_single(n as u8);
        assert(d[0] == n);
        assert(d.len() == 1);
    } else {
        let rest = digits_of(n / 10);
        lemma_digits_of(n / 10);
        let low = (n % 10) as u8;
        assert(d == seq![low] + rest);
        lemma_value_concat(seq![low], rest);
        lemma_value_single(low);
        assert(pow10(0) == 1);
        assert(pow10(1) == 10);
        assert(value_of(d) == low + 10 * (n / 10));
        assert(value_of(d) == n);
        if n / 10 < 10 {
            assert(rest == seq![(n / 10) as u8]);
            assert(rest.last() != 0);
        } else {
            let m = n / 10;
            assert(rest == seq![(m % 10) as u8] + digits_of(m / 10));
            assert(rest.len() >= 2);
        }
        assert(d[0] == low);
        assert(d.last() == rest.last());
        assert forall|i: int| 0 <= i < d.len() implies #[trigger] d[i] < 10 by {
            if i > 0 {
                assert(d[i] == rest[i - 1]);
            }
        }
    }
}

/// Any digit sequence starts with the canonical places of its value, followed only by zeros;
/// a canonical sequence is exactly those places.
pub proof fn lemma_canonical_prefix(s: Seq<u8>)
    requires
        s.len() >= 1,
        all_digits(s),
    ensures
        digits_of(value_of(s)).len() <= s.len(),
        s.take(digits_of(value_of(s)).len() as int) == digits_of(value_of(s)),
        forall|j: int| digits_of(value_of(s)).len() <= j < s.len() ==> s[j] == 0,
        is_canonical(s) ==> s == digits_of(value_of(s)),
    decreases s.len(),
{
    let n = value_of(s);
    let d = digits_of(n);
    let t = s.skip(1);
    lemma_value_front(s);
    assert(all_digits(t)) by {
        assert forall|i: int| 0 <= i < t.len() implies #[trigger] t[i] < 10 by {
            assert(t[i] == s[i + 1]);
        }
    }
    if n < 10 {
        assert(value_of(t) == 0);
        assert forall|j: int| 1 <= j < s.len() implies s[j] == 0 by {
            lemma_pow10_positive(0);
            lemma_value_small_zero_above(t, 0, j - 1);
            assert(t[j - 1] == s[j]);
        }
        assert(s.take(1) =~= d);
    } else {
        assert(s.len() >= 2) by {
            if s.len() == 1 {
                assert(t.len() == 0);
            }
        }
        let m = value_of(t);
        assert(n % 10 == s[0] && n / 10 == m) by (nonlinear_arith)
            requires
                n == s[0] as nat + 10 * m,
                s[0] < 10,
        ;
        lemma_canonical_prefix(t);
        let e = digits_of(m);
        assert(d =~= seq![s[0]] + e);
        assert(s.take(d.len() as int) =~= seq![s[0]] + t.take(e.len() as int));
        assert forall|j: int| d.len() <= j < s.len() implies s[j] == 0 by {
            assert(t[j - 1] == s[j]);
        }
    }
    if is_canonical(s) && d.len() < s.len() {
        assert(s.last() == 0);
    }
    if is_canonical(s) {
        assert(s.take(d.len() as int) =~= s);
    }
}

} // verus!
