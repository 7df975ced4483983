use vstd::arithmetic::power::pow;
use vstd::prelude::*;

verus! {

/// The factorial of `n`.
pub open spec fn fact(n: nat) -> nat
    decreases n,
{
    if n == 0 {
        1
    } else {
        n * fact((n - 1) as nat)
    }
}

/// The magnitude of `x`.
pub open spec fn abs_val(x: int) -> int {
    if x < 0 {
        -x
    } else {
        x
    }
}

/// The largest magnitude among the entries of `s` (0 for an empty sequence).
pub open spec fn max_abs(s: Seq<int>) -> int
    decreases s.len(),
{
    if s.len() == 0 {
        0
    } else {
        let rest = max_abs(s.drop_last());
        let a = abs_val(s.last());
        if a > rest {
            a
        } else {
            rest
        }
    }
}

/// Every entry of `s` lies within `[-b, b]`.
pub open spec fn bounded(s: Seq<int>, b: int) -> bool {
    forall|k: int| 0 <= k < s.len() ==> -b <= #[trigger] s[k] <= b
}

/// The raw entries of `s`, read as mathematical integers.
pub open spec fn to_int(s: Seq<i64>) -> Seq<int> {
    s.map_values(|x: i64| x as int)
}

/// A Laplace expansion over entries bounded by `max_abs(s)` stays within `i64`
/// whenever this holds: `n! * max_abs(s)^n` is the worst-case magnitude of an
/// `n`-order determinant and of every intermediate value of the expansion.
pub open spec fn det_fits(s: Seq<int>, n: nat) -> bool {
    fact(n) * pow(max_abs(s), n) <= i64::MAX as int
}

pub proof fn lemma_fact_pos(n: nat)
    ensures
        fact(n) >= 1,
    decreases n,
{
    if n > 0 {
        lemma_fact_pos((n - 1) as nat);
        assert(n * fact((n - 1) as nat) >= 1) by (nonlinear_arith)
            requires
                n >= 1,
                fact((n - 1) as nat) >= 1,
        ;
    }
}

pub proof fn lemma_pow_nonneg(b: int, e: nat)
    ensures
        b >= 1 ==> pow(b, e) >= 1,
        b >= 0 ==> pow(b, e) >= 0,
    decreases e,
{
    reveal(pow);
    if e > 0 {
        lemma_pow_nonneg(b, (e - 1) as nat);
        assert(b >= 1 && pow(b, (e - 1) as nat) >= 1 ==> b * pow(b, (e - 1) as nat) >= 1)
            by (nonlinear_arith);
        assert(b >= 0 && pow(b, (e - 1) as nat) >= 0 ==> b * pow(b, (e - 1) as nat) >= 0)
            by (nonlinear_arith);
    }
}

pub proof fn lemma_max_abs(s: Seq<int>)
    ensures
        max_abs(s) >= 0,
        bounded(s, max_abs(s)),
    decreases s.len(),
{
    if s.len() > 0 {
        lemma_max_abs(s.drop_last());
        assert forall|k: int| 0 <= k < s.len() implies -max_abs(s) <= #[trigger] s[k] <= max_abs(
            s,
        ) by {
            if k < s.len() - 1 {
                assert(s.drop_last()[k] == s[k]);
            }
        }
    }
}

/// The product of two values is bounded by the product of their bounds.
pub proof fn lemma_mul_abs_bound(x: int, y: int, bx: int, by: int)
    requires
        -bx <= x <= bx,
        -by <= y <= by,
    ensures
        -(bx * by) <= x * y <= bx * by,
{
    assert(-(bx * by) <= x * y <= bx * by) by (nonlinear_arith)
        requires
            -bx <= x <= bx,
            -by <= y <= by,
    ;
}

/// If the full expansion bound fits, so does the bound for one order lower.
pub proof fn lemma_fits_step(b: int, n: nat)
    requires
        b >= 0,
        n >= 1,
        fact(n) * pow(b, n) <= i64::MAX as int,
    ensures
        fact((n - 1) as nat) * pow(b, (n - 1) as nat) <= i64::MAX as int,
        fact((n - 1) as nat) * pow(b, (n - 1) as nat) <= fact(n) * pow(b, n) || b == 0,
{
    let m = (n - 1) as nat;
    reveal(pow);
    lemma_fact_pos(n);
    lemma_fact_pos(m);
    if b == 0 {
        if m == 0 {
            assert(fact(m) * pow(b, m) == 1);
        } else {
            assert(pow(0int, m) == 0) by {
                vstd::arithmetic::power::lemma0_pow(m);
            }
            assert(fact(m) * pow(b, m) == 0) by (nonlinear_arith)
                requires
                    pow(b, m) == 0,
            ;
        }
    } else {
        lemma_pow_nonneg(b, m);
        assert(pow(b, n) == b * pow(b, m));
        assert(fact(n) == n * fact(m));
        assert(fact(m) * pow(b, m) <= (n * fact(m)) * (b * pow(b, m))) by (nonlinear_arith)
            requires
                n >= 1,
                b >= 1,
                fact(m) >= 1,
                pow(b, m) >= 1,
        ;
    }
}

/// `(n-1)! * b^n`, the bound on a single term of the expansion, is at most
/// `n! * b^n`.
pub proof fn lemma_term_le_total(b: int, n: nat)
    requires
        b >= 0,
        n >= 1,
    ensures
        fact((n - 1) as nat) * pow(b, n) <= fact(n) * pow(b, n),
        fact((n - 1) as nat) * pow(b, n) >= 0,
{
    let m = (n - 1) as nat;
    reveal(pow);
    lemma_fact_pos(n);
    lemma_fact_pos(m);
    lemma_pow_nonneg(b, n);
    assert(fact(n) == n * fact(m));
    assert(fact(m) * pow(b, n) <= (n * fact(m)) * pow(b, n) && fact(m) * pow(b, n) >= 0)
        by (nonlinear_arith)
        requires
            n >= 1,
            fact(m) >= 1,
            pow(b, n) >= 0,
    ;
}

/// One term of the expansion: an entry times a minor's determinant stays
/// within `(n-1)! * b^n`.
pub proof fn lemma_term_bound(item: int, minor_det: int, b: int, n: nat)
    requires
        b >= 0,
        n >= 1,
        -b <= item <= b,
        -(fact((n - 1) as nat) * pow(b, (n - 1) as nat)) <= minor_det <= fact((n - 1) as nat)
            * pow(b, (n - 1) as nat),
    ensures
        -(fact((n - 1) as nat) * pow(b, n)) <= item * minor_det <= fact((n - 1) as nat) * pow(
            b,
            n,
        ),
{
    let m = (n - 1) as nat;
    let f = fact(m) as int;
    reveal(pow);
    lemma_fact_pos(m);
    lemma_pow_nonneg(b, m);
    lemma_mul_abs_bound(item, minor_det, b, f * pow(b, m));
    assert(b * (f * pow(b, m)) == f * (b * pow(b, m))) by (nonlinear_arith);
    assert(pow(b, n) == b * pow(b, m));
}

/// For a base of at least 1, `k! * m^k` never decreases as `k` grows.
pub proof fn lemma_fact_pow_monotone(m: int, k1: nat, k2: nat)
    requires
        m >= 1,
        k1 <= k2,
    ensures
        fact(k1) * pow(m, k1) <= fact(k2) * pow(m, k2),
    decreases k2 - k1,
{
    reveal(pow);
    if k1 < k2 {
        lemma_fact_pow_monotone(m, k1, (k2 - 1) as nat);
        let p = (k2 - 1) as nat;
        lemma_fact_pos(p);
        lemma_pow_nonneg(m, p);
        assert(fact(k2) == k2 * fact(p));
        assert(pow(m, k2) == m * pow(m, p));
        assert(fact(p) * pow(m, p) <= (k2 * fact(p)) * (m * pow(m, p))) by (nonlinear_arith)
            requires
                k2 >= 1,
                m >= 1,
                fact(p) >= 1,
                pow(m, p) >= 1,
        ;
    }
}

} // verus!
