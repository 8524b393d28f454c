//! Fixed-width numerals in a radix: the value of a digit sequence and the
//! zero-padded digit sequence of a value. Length prefixes of variable fields
//! are such numerals, in base 10 (decimal encodings) or base 256 (binary).

use vstd::prelude::*;
use vstd::arithmetic::div_mod::{lemma_fundamental_div_mod, lemma_fundamental_div_mod_converse};

verus! {

/// `base` to the power `k`.
pub open spec fn pow_of(base: nat, k: nat) -> nat
    decreases k,
{
    if k == 0 {
        1
    } else {
        base * pow_of(base, (k - 1) as nat)
    }
}

/// The value of a digit sequence, most significant digit first.
pub open spec fn radix_value(base: nat, ds: Seq<u8>) -> nat
    decreases ds.len(),
{
    if ds.len() == 0 {
        0
    } else {
        (radix_value(base, ds.drop_last()) * base + ds.last()) as nat
    }
}

/// The `k`-digit, zero-padded digit sequence of `n`, most significant first.
pub open spec fn radix_digits(base: nat, n: nat, k: nat) -> Seq<u8>
    recommends
        2 <= base <= 256,
        n < pow_of(base, k),
    decreases k,
{
    if k == 0 {
        Seq::empty()
    } else {
        radix_digits(base, n / base, (k - 1) as nat).push((n % base) as u8)
    }
}

/// A `k`-digit numeral has `k` digits, each below the base.
pub proof fn lemma_radix_digits_wf(base: nat, n: nat, k: nat)
    requires
        2 <= base <= 256,
    ensures
        radix_digits(base, n, k).len() == k,
        forall|i: int| 0 <= i < k ==> #[trigger] radix_digits(base, n, k)[i] < base,
    decreases k,
{
    if k > 0 {
        lemma_radix_digits_wf(base, n / base, (k - 1) as nat);
        let ds = radix_digits(base, n, k);
        let front = radix_digits(base, n / base, (k - 1) as nat);
        assert(n % base < base) by {
            lemma_fundamental_div_mod(n as int, base as int);
        }
        assert(forall|i: int| 0 <= i < k - 1 ==> ds[i] == #[trigger] front[i]);
    }
}

/// Digits below the base denote a value below `base^len`.
pub proof fn lemma_radix_value_bound(base: nat, ds: Seq<u8>)
    requires
        2 <= base <= 256,
        forall|i: int| 0 <= i < ds.len() ==> #[trigger] ds[i] < base,
    ensures
        radix_value(base, ds) < pow_of(base, ds.len()),
    decreases ds.len(),
{
    if ds.len() > 0 {
        lemma_radix_value_bound(base, ds.drop_last());
        let v = radix_value(base, ds.drop_last());
        let p = pow_of(base, (ds.len() - 1) as nat);
        assert(ds.last() < base);
        assert(v < p);
        assert(v * base + ds.last() < p * base) by (nonlinear_arith)
            requires
                v < p,
                (ds.last() as nat) < base,
                base >= 2,
        ;
        assert(pow_of(base, ds.len()) == base * p);
    }
}

/// Reading the `k`-digit numeral of a value below `base^k` yields the value.
pub proof fn lemma_radix_round_trip(base: nat, n: nat, k: nat)
    requires
        2 <= base <= 256,
        n < pow_of(base, k),
    ensures
        radix_value(base, radix_digits(base, n, k)) == n,
    decreases k,
{
    if k == 0 {
        assert(pow_of(base, 0) == 1);
    } else {
        let q = n / base;
        let r = n % base;
        lemma_fundamental_div_mod(n as int, base as int);
        assert(q < pow_of(base, (k - 1) as nat)) by (nonlinear_arith)
            requires
                base >= 2,
                n >= 0,
                q == n / base,
                n < base * pow_of(base, (k - 1) as nat),
        ;
        lemma_radix_round_trip(base, q, (k - 1) as nat);
        lemma_radix_digits_wf(base, q, (k - 1) as nat);
        let ds = radix_digits(base, n, k);
        assert(ds.drop_last() =~= radix_digits(base, q, (k - 1) as nat));
        assert(radix_value(base, ds) == q * base + r);
    }
}

/// A digit sequence below the base is the numeral of its own value: numerals
/// of a fixed width are unique.
pub proof fn lemma_radix_digits_unique(base: nat, ds: Seq<u8>)
    requires
        2 <= base <= 256,
        forall|i: int| 0 <= i < ds.len() ==> #[trigger] ds[i] < base,
    ensures
        radix_digits(base, radix_value(base, ds), ds.len()) =~= ds,
    decreases ds.len(),
{
    if ds.len() > 0 {
        let front = ds.drop_last();
        assert(forall|i: int| 0 <= i < front.len() ==> #[trigger] front[i] < base);
        lemma_radix_digits_unique(base, front);
        let v = radix_value(base, ds);
        let vf = radix_value(base, front);
        lemma_fundamental_div_mod_converse(v as int, base as int, vf as int, ds.last() as int);
        assert(radix_digits(base, v, ds.len()) == radix_digits(base, v / base, (ds.len() - 1) as nat).push(
            (v % base) as u8,
        ));
    }
}

} // verus!
