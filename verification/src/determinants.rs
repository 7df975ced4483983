use crate::arith::{
    abs_val, bounded, det_fits, fact, lemma_fact_pos, lemma_fact_pow_monotone, lemma_fits_step,
    lemma_max_abs, lemma_mul_abs_bound,
    lemma_pow_nonneg, lemma_term_bound, lemma_term_le_total, max_abs, to_int,
};
use crate::Errors;
use vstd::arithmetic::div_mod::{
    lemma_fundamental_div_mod_converse_div, lemma_fundamental_div_mod_converse_mod,
};
use vstd::arithmetic::power::pow;
use vstd::prelude::*;

verus! {

/// `t * t`, named so that perfect squares can be quantified over.
pub open spec fn sq(t: int) -> int {
    t * t
}

/// `m` is the square of some natural number.
pub open spec fn is_perfect_square(m: nat) -> bool {
    exists|t: int| 0 <= t && #[trigger] sq(t) == m
}

/// The flat, row-major grid obtained from the `n`-order grid `s` by deleting
/// row `r` and column `c` (both 0-based): entry `(mi, mj)` of the minor grid
/// is entry `(mi + 1 if mi >= r, mj + 1 if mj >= c)` of `s`.
pub open spec fn minor_seq(s: Seq<int>, n: nat, r: nat, c: nat) -> Seq<int>
    recommends
        n >= 1,
        s.len() == n * n,
        r < n,
        c < n,
{
    Seq::new(
        ((n - 1) * (n - 1)) as nat,
        |k: int|
            {
                let m = n - 1;
                let mi = k / m;
                let mj = k % m;
                let si = if mi >= r {
                    mi + 1
                } else {
                    mi
                };
                let sj = if mj >= c {
                    mj + 1
                } else {
                    mj
                };
                s[si * n + sj]
            },
    )
}

/// `+1` for an even 0-based row index, `-1` for an odd one.
pub open spec fn row_sign(i: nat) -> int {
    if i % 2 == 0 {
        1
    } else {
        -1
    }
}

/// `(-1)^(i+j)` for 1-based coordinates.
pub open spec fn pos_sign(i: nat, j: nat) -> int {
    if (i + j) % 2 == 0 {
        1
    } else {
        -1
    }
}

/// The determinant of the `n`-order row-major grid `s`, by Laplace expansion
/// along the first column in increasing row order; an empty grid gives 0, and
/// 1- and 2-order grids use their closed forms.
pub open spec fn det(s: Seq<int>, n: nat) -> int
    decreases n, 1nat, 0nat,
{
    if n == 0 {
        0
    } else if n == 1 {
        s[0]
    } else if n == 2 {
        s[0] * s[3] - s[1] * s[2]
    } else {
        det_upto(s, n, n)
    }
}

/// The partial first-column expansion of `det(s, n)`: the sum of the signed
/// terms for rows `0 .. i`.
pub open spec fn det_upto(s: Seq<int>, n: nat, i: nat) -> int
    decreases n, 0nat, i,
{
    if i == 0 || n == 0 {
        0
    } else {
        let r = (i - 1) as nat;
        det_upto(s, n, r) + row_sign(r) * s[(r * n) as int] * det(minor_seq(s, n, r, 0), (n - 1) as nat)
    }
}

/// The cofactor of the entry at 1-based position `(i, j)` of the `n`-order
/// grid `s`: the signed determinant of the minor that deletes row `i` and
/// column `j`.
pub open spec fn cof(s: Seq<int>, n: nat, i: nat, j: nat) -> int
    recommends
        s.len() == n * n,
        1 <= i <= n,
        1 <= j <= n,
{
    pos_sign(i, j) * det(minor_seq(s, n, (i - 1) as nat, (j - 1) as nat), (n - 1) as nat)
}

/// The coordinates read off a flat index within an `n`-wide grid lie within
/// the grid, and a minor's source index lies within its parent grid.
pub proof fn lemma_minor_coords(n: nat, r: nat, c: nat, k: int)
    requires
        n >= 1,
        r < n,
        c < n,
        0 <= k < (n - 1) * (n - 1),
    ensures
        0 <= k / (n - 1) < n - 1,
        0 <= k % (n - 1) < n - 1,
        ({
            let m = n - 1;
            let mi = k / m;
            let mj = k % m;
            let si = if mi >= r {
                mi + 1
            } else {
                mi
            };
            let sj = if mj >= c {
                mj + 1
            } else {
                mj
            };
            0 <= si < n && 0 <= sj < n && 0 <= si * n + sj < n * n
        }),
{
    let m = (n - 1) as int;
    assert(n >= 2) by (nonlinear_arith)
        requires
            n >= 1,
            0 <= k < (n - 1) * (n - 1),
    ;
    assert(m >= 1);
    let mi = k / m;
    let mj = k % m;
    assert(0 <= mj < m) by {
        vstd::arithmetic::div_mod::lemma_mod_bound(k, m);
    }
    assert(mi >= 0) by {
        vstd::arithmetic::div_mod::lemma_div_pos_is_pos(k, m);
    }
    assert(mi < m) by {
        if mi >= m {
            vstd::arithmetic::div_mod::lemma_fundamental_div_mod(k, m);
            assert(k == m * mi + mj);
            assert(m * mi >= m * m) by (nonlinear_arith)
                requires
                    mi >= m,
                    m >= 1,
            ;
        }
    }
    let si = if mi >= r {
        mi + 1
    } else {
        mi
    };
    let sj = if mj >= c {
        mj + 1
    } else {
        mj
    };
    assert(si < n && sj < n);
    assert(si * n + sj < n * n) by (nonlinear_arith)
        requires
            0 <= si < n,
            0 <= sj < n,
    ;
    assert(si * n + sj >= 0) by (nonlinear_arith)
        requires
            si >= 0,
            sj >= 0,
            n >= 1,
    ;
}

/// Every entry of a minor is an entry of its parent grid, so a bound on the
/// parent's entries bounds the minor's.
pub proof fn lemma_minor_bounded(s: Seq<int>, n: nat, r: nat, c: nat, b: int)
    requires
        n >= 1,
        s.len() == n * n,
        r < n,
        c < n,
        bounded(s, b),
    ensures
        bounded(minor_seq(s, n, r, c), b),
{
    let ms = minor_seq(s, n, r, c);
    assert forall|k: int| 0 <= k < ms.len() implies -b <= #[trigger] ms[k] <= b by {
        lemma_minor_coords(n, r, c, k);
    }
}

/// The magnitude of a determinant of an `n`-order grid with entries bounded
/// by `b` is at most `n! * b^n`; a partial expansion over `i` rows is at most
/// `i * (n-1)! * b^n`.
pub proof fn lemma_det_bound(s: Seq<int>, n: nat, b: int)
    requires
        s.len() == n * n,
        bounded(s, b),
        b >= 0,
    ensures
        -(fact(n) * pow(b, n)) <= det(s, n) <= fact(n) * pow(b, n),
    decreases n, 1nat, 0nat,
{
    reveal(pow);
    lemma_fact_pos(n);
    if n == 0 {
    } else if n == 1 {
        assert(s.len() == 1) by (nonlinear_arith)
            requires
                s.len() == n * n,
                n == 1,
        ;
        assert(fact(1) * pow(b, 1) == b * pow(b, 0));
    } else if n == 2 {
        assert(s.len() == 4) by (nonlinear_arith)
            requires
                s.len() == n * n,
                n == 2,
        ;
        lemma_mul_abs_bound(s[0], s[3], b, b);
        lemma_mul_abs_bound(s[1], s[2], b, b);
        assert(fact(2) == 2) by {
            reveal_with_fuel(fact, 3);
        }
        assert(pow(b, 0) == 1 && pow(b, 1) == b * pow(b, 0) && pow(b, 2) == b * pow(b, 1));
        assert(fact(2) * pow(b, 2) == (b * b) + (b * b)) by (nonlinear_arith)
            requires
                fact(2) == 2,
                pow(b, 2) == b * (b * 1),
        ;
    } else {
        lemma_det_upto_bound(s, n, b, n);
        assert(n * (fact((n - 1) as nat) * pow(b, n)) == fact(n) * pow(b, n)) by (nonlinear_arith)
            requires
                fact(n) == n * fact((n - 1) as nat),
        ;
    }
}

pub proof fn lemma_det_upto_bound(s: Seq<int>, n: nat, b: int, i: nat)
    requires
        s.len() == n * n,
        bounded(s, b),
        b >= 0,
        n >= 1,
        i <= n,
    ensures
        -(i * (fact((n - 1) as nat) * pow(b, n))) <= det_upto(s, n, i) <= i * (fact(
            (n - 1) as nat,
        ) * pow(b, n)),
    decreases n, 0nat, i,
{
    let f = fact((n - 1) as nat) * pow(b, n);
    lemma_term_le_total(b, n);
    if i == 0 {
    } else {
        let r = (i - 1) as nat;
        lemma_det_upto_bound(s, n, b, r);
        let ms = minor_seq(s, n, r, 0);
        assert(ms.len() == (n - 1) * (n - 1));
        lemma_minor_bounded(s, n, r, 0, b);
        lemma_det_bound(ms, (n - 1) as nat, b);
        assert(0 <= r * n < n * n) by {
            assert(r * n <= (n - 1) * n && (n - 1) * n + n == n * n && r * n >= 0)
                by (nonlinear_arith)
                requires
                    0 <= r <= n - 1,
                    n >= 1,
            ;
        }
        let item = s[(r * n) as int];
        let md = det(ms, (n - 1) as nat);
        lemma_term_bound(item, md, b, n);
        let p = item * md;
        assert(row_sign(r) * item * md == row_sign(r) * p) by (nonlinear_arith)
            requires
                p == item * md,
        ;
        let term = row_sign(r) * p;
        assert(term == p || term == -p) by (nonlinear_arith)
            requires
                row_sign(r) == 1 || row_sign(r) == -1,
                term == row_sign(r) * p,
        ;
        assert(-f <= term <= f);
        assert((i - 1) * f + f == i * f) by (nonlinear_arith);
    }
}

/// The exact natural square root of `len`, when `len` is a perfect square.
pub(crate) fn exact_root(len: usize) -> (r: Option<usize>)
    ensures
        match r {
            Some(s) => s * s == len && is_perfect_square(len as nat),
            None => !is_perfect_square(len as nat),
        },
{
    let target = len as u128;
    let mut s: u128 = 0;
    let mut sq_v: u128 = 0;
    while sq_v < target
        invariant
            target == len as u128,
            sq_v == s * s,
            0 <= s <= 0x1_0000_0000u128,
            sq_v <= 0x2_0000_0000_0000_0000u128,
            forall|t: int| 0 <= t < s ==> #[trigger] sq(t) < target,
        decreases 0x1_0000_0001u128 - s,
    {
        proof {
            if s == 0x1_0000_0000u128 {
                assert(sq_v == 0x1_0000_0000u128 * 0x1_0000_0000u128);
                assert(false);
            }
            assert((s + 1) * (s + 1) == s * s + 2 * (s + 1) - 1) by (nonlinear_arith);
        }
        s = s + 1;
        sq_v = sq_v + 2 * s - 1;
    }
    if sq_v == target {
        proof {
            assert(s <= usize::MAX as u128) by (nonlinear_arith)
                requires
                    s * s == len as u128,
                    len <= usize::MAX,
                    s >= 0,
            ;
            assert(sq(s as int) == len as nat);
        }
        Some(s as usize)
    } else {
        proof {
            assert forall|t: int| 0 <= t implies #[trigger] sq(t) != len as nat by {
                if t >= s {
                    assert(sq(t) >= sq(s as int)) by (nonlinear_arith)
                        requires
                            t >= s >= 0,
                    ;
                }
            }
        }
        None
    }
}

/// The flat grid of the minor of `items` (an `n`-order grid) that deletes
/// row `r` and column `c` (both 0-based).
fn build_minor(items: &Vec<i64>, n: usize, r: usize, c: usize) -> (m: Vec<i64>)
    requires
        1 <= n,
        items@.len() == n * n,
        r < n,
        c < n,
    ensures
        m@.len() == (n - 1) * (n - 1),
        to_int(m@) == minor_seq(to_int(items@), n as nat, r as nat, c as nat),
{
    let ghost gs = to_int(items@);
    let ghost ms = minor_seq(gs, n as nat, r as nat, c as nat);
    let len = items.len();
    assert(n * n <= usize::MAX);
    let mut m: Vec<i64> = Vec::new();
    let mut mi: usize = 0;
    while mi < n - 1
        invariant
            1 <= n,
            r < n,
            c < n,
            items@.len() == n * n,
            n * n <= usize::MAX,
            gs == to_int(items@),
            ms == minor_seq(gs, n as nat, r as nat, c as nat),
            mi <= n - 1,
            m@.len() == mi * (n - 1),
            forall|k: int| 0 <= k < m@.len() ==> #[trigger] m@[k] as int == ms[k],
        decreases n - 1 - mi,
    {
        let mut mj: usize = 0;
        while mj < n - 1
            invariant
                1 <= n,
                r < n,
                c < n,
                mi < n - 1,
                items@.len() == n * n,
                n * n <= usize::MAX,
                gs == to_int(items@),
                ms == minor_seq(gs, n as nat, r as nat, c as nat),
                mj <= n - 1,
                m@.len() == mi * (n - 1) + mj,
                forall|k: int| 0 <= k < m@.len() ==> #[trigger] m@[k] as int == ms[k],
            decreases n - 1 - mj,
        {
            let si = if mi >= r {
                mi + 1
            } else {
                mi
            };
            let sj = if mj >= c {
                mj + 1
            } else {
                mj
            };
            proof {
                assert(si * n + sj < n * n && si * n + sj >= 0) by (nonlinear_arith)
                    requires
                        0 <= si < n,
                        0 <= sj < n,
                ;
            }
            let v = items[si * n + sj];
            let ghost k0 = (mi * (n - 1) + mj) as int;
            proof {
                assert(k0 < (n - 1) * (n - 1)) by (nonlinear_arith)
                    requires
                        k0 == mi * (n - 1) + mj,
                        0 <= mi < n - 1,
                        0 <= mj < n - 1,
                ;
                lemma_fundamental_div_mod_converse_div(k0, n - 1, mi as int, mj as int);
                lemma_fundamental_div_mod_converse_mod(k0, n - 1, mi as int, mj as int);
                assert(ms[k0] == gs[si as int * n + sj]);
                assert(ms[k0] == v as int);
            }
            m.push(v);
            mj = mj + 1;
        }
        proof {
            assert(mi * (n - 1) + (n - 1) == (mi + 1) * (n - 1)) by (nonlinear_arith);
        }
        mi = mi + 1;
    }
    proof {
        assert(to_int(m@) =~= ms);
    }
    m
}

/// The first-column Laplace expansion of the `n`-order grid `items`, the
/// recursive heart of the engine.
fn value_rec(items: &Vec<i64>, n: usize, Ghost(b): Ghost<int>) -> (r: i64)
    requires
        items@.len() == n * n,
        bounded(to_int(items@), b),
        b >= 0,
        fact(n as nat) * pow(b, n as nat) <= i64::MAX as int,
    ensures
        r as int == det(to_int(items@), n as nat),
    decreases n,
{
    let ghost s = to_int(items@);
    if n == 0 {
        return 0;
    }
    if n == 1 {
        proof {
            assert(items@.len() == 1) by (nonlinear_arith)
                requires
                    items@.len() == n * n,
                    n == 1,
            ;
        }
        return items[0];
    }
    if n == 2 {
        proof {
            reveal(pow);
            assert(items@.len() == 4) by (nonlinear_arith)
                requires
                    items@.len() == n * n,
                    n == 2,
            ;
            lemma_mul_abs_bound(s[0], s[3], b, b);
            lemma_mul_abs_bound(s[1], s[2], b, b);
            assert(fact(2) == 2) by {
                reveal_with_fuel(fact, 3);
            }
            assert(pow(b, 0) == 1 && pow(b, 1) == b * pow(b, 0) && pow(b, 2) == b * pow(b, 1));
            assert(fact(2) * pow(b, 2) == (b * b) + (b * b)) by (nonlinear_arith)
                requires
                    fact(2) == 2,
                    pow(b, 2) == b * (b * 1),
            ;
        }
        let ad = items[0] * items[3];
        let bc = items[1] * items[2];
        return ad - bc;
    }
    let len = items.len();
    assert(n * n <= usize::MAX);
    let mut acc: i64 = 0;
    let mut i: usize = 0;
    while i < n
        invariant
            3 <= n,
            items@.len() == n * n,
            n * n <= usize::MAX,
            s == to_int(items@),
            bounded(s, b),
            b >= 0,
            fact(n as nat) * pow(b, n as nat) <= i64::MAX as int,
            i <= n,
            acc as int == det_upto(s, n as nat, i as nat),
        decreases n - i,
    {
        let m = build_minor(items, n, i, 0);
        proof {
            lemma_minor_bounded(s, n as nat, i as nat, 0, b);
            lemma_fits_step(b, n as nat);
        }
        let md = value_rec(&m, n - 1, Ghost(b));
        proof {
            assert(i * n < n * n && (i + 1) * n <= n * n) by (nonlinear_arith)
                requires
                    0 <= i < n,
            ;
        }
        let item = items[i * n];
        let ghost f_term = fact((n - 1) as nat) * pow(b, n as nat);
        let ghost f_total = fact(n as nat) * pow(b, n as nat);
        proof {
            assert(item as int == s[(i * n) as int]);
            assert(-b <= s[(i * n) as int] <= b);
            lemma_det_bound(to_int(m@), (n - 1) as nat, b);
            lemma_term_bound(item as int, md as int, b, n as nat);
            lemma_term_le_total(b, n as nat);
            lemma_det_upto_bound(s, n as nat, b, i as nat);
            assert((i + 1) * f_term <= n * f_term) by (nonlinear_arith)
                requires
                    i + 1 <= n,
                    f_term >= 0,
            ;
            assert(n * f_term == f_total) by (nonlinear_arith)
                requires
                    f_term == fact((n - 1) as nat) * pow(b, n as nat),
                    f_total == fact(n as nat) * pow(b, n as nat),
                    fact(n as nat) == n * fact((n - 1) as nat),
            ;
            assert(i * f_term + f_term == (i + 1) * f_term) by (nonlinear_arith);
        }
        let prod = item * md;
        proof {
            let r0 = i as nat;
            let term = row_sign(r0) * s[(r0 * n) as int] * det(minor_seq(s, n as nat, r0, 0), (n - 1) as nat);
            assert(s[(r0 * n) as int] == item as int);
            assert(det(minor_seq(s, n as nat, r0, 0), (n - 1) as nat) == md as int);
            if i % 2 == 0 {
                assert(row_sign(r0) == 1);
                assert(term == prod as int) by (nonlinear_arith)
                    requires
                        term == 1 * (item as int) * (md as int),
                        prod == (item as int) * (md as int),
                ;
            } else {
                assert(row_sign(r0) == -1);
                assert(term == -(prod as int)) by (nonlinear_arith)
                    requires
                        term == (-1) * (item as int) * (md as int),
                        prod == (item as int) * (md as int),
                ;
            }
            assert(det_upto(s, n as nat, (i + 1) as nat) == det_upto(s, n as nat, r0) + term);
        }
        if i % 2 == 0 {
            acc = acc + prod;
        } else {
            acc = acc - prod;
        }
        i = i + 1;
    }
    assert(det(s, n as nat) == det_upto(s, n as nat, n as nat));
    acc
}

/// A snapshot of a square grid's values, able to compute its determinant and
/// the cofactors of its entries.
pub struct Determinant {
    items: Vec<i64>,
    size: u32,
}

impl Determinant {
    /// The grid's values, as mathematical integers, in row-major order.
    pub closed spec fn grid(&self) -> Seq<int> {
        to_int(self.items@)
    }

    /// The order of the square grid.
    pub closed spec fn size_nat(&self) -> nat {
        self.size as nat
    }

    /// The grid holds exactly `size * size` values.
    pub open spec fn wf(&self) -> bool {
        self.grid().len() == self.size_nat() * self.size_nat()
    }

    /// The worst-case magnitude of the expansion, `size! * max_abs^size`,
    /// fits `i64`, so `value` and `cofactor` cannot overflow.
    pub open spec fn fits(&self) -> bool {
        det_fits(self.grid(), self.size_nat())
    }

    /// The order of the square grid.
    pub fn size(&self) -> (r: u32)
        ensures
            r as nat == self.size_nat(),
    {
        self.size
    }

    /// Snapshot `items` as a square grid. Succeeds exactly when the number
    /// of items is a perfect square; its root becomes the order.
    pub fn new(items: Vec<i64>) -> (r: Result<Determinant, Errors>)
        ensures
            is_perfect_square(items@.len()) ==> (r matches Ok(d) && d.wf() && d.grid() == to_int(
                items@,
            ) && d.size_nat() * d.size_nat() == items@.len()),
            !is_perfect_square(items@.len()) ==> r == Err::<Determinant, Errors>(
                Errors::InappropriateNumberOfItems,
            ),
    {
        let len = items.len();
        match exact_root(len) {
            Some(s) => {
                proof {
                    assert(s <= u32::MAX) by (nonlinear_arith)
                        requires
                            s * s == len,
                            0 <= s,
                            len <= usize::MAX,
                            usize::MAX <= 0xffff_ffff_ffff_ffff,
                    ;
                }
                Ok(Determinant { items, size: s as u32 })
            },
            None => Err(Errors::InappropriateNumberOfItems),
        }
    }

    /// The determinant of the grid, by first-column Laplace expansion in
    /// increasing row order.
    pub fn value(&self) -> (r: i64)
        requires
            self.wf(),
            self.fits(),
        ensures
            r as int == det(self.grid(), self.size_nat()),
    {
        proof {
            lemma_max_abs(self.grid());
        }
        let ghost b = max_abs(self.grid());
        let n = self.size as usize;
        value_rec(&self.items, n, Ghost(b))
    }

    /// The cofactor of the entry at 1-based position `(i, j)`: the signed
    /// determinant of the minor deleting row `i` and column `j`. Fails with
    /// `IndexOutOfRange` exactly when `(i, j)` lies outside the grid.
    pub fn cofactor(&self, i: u32, j: u32) -> (r: Result<i64, Errors>)
        requires
            self.wf(),
            self.fits(),
        ensures
            1 <= i <= self.size_nat() && 1 <= j <= self.size_nat() ==> (r matches Ok(v) && v
                as int == cof(self.grid(), self.size_nat(), i as nat, j as nat)),
            !(1 <= i <= self.size_nat() && 1 <= j <= self.size_nat()) ==> r == Err::<i64, Errors>(
                Errors::IndexOutOfRange,
            ),
    {
        if i == 0 || i > self.size || j == 0 || j > self.size {
            return Err(Errors::IndexOutOfRange);
        }
        let ghost gs = self.grid();
        let ghost nn = self.size_nat();
        proof {
            lemma_max_abs(gs);
            lemma_minor_bounded(gs, nn, (i - 1) as nat, (j - 1) as nat, max_abs(gs));
            lemma_fits_step(max_abs(gs), nn);
        }
        let ghost b = max_abs(gs);
        let n = self.size as usize;
        let m = build_minor(&self.items, n, i as usize - 1, j as usize - 1);
        let md = value_rec(&m, n - 1, Ghost(b));
        proof {
            lemma_det_bound(to_int(m@), (n - 1) as nat, b);
            let parity = ((i as nat) + (j as nat)) % 2 == 0;
            assert(parity == (i % 2 == j % 2)) by (nonlinear_arith)
                requires
                    parity == (((i as nat) + (j as nat)) % 2 == 0),
                    i >= 1,
                    j >= 1,
            ;
        }
        if i % 2 == j % 2 {
            Ok(md)
        } else {
            Ok(-md)
        }
    }
}

impl Determinant {
    /// Whether the worst-case expansion bound `size! * max_abs^size` fits
    /// `i64`: the condition that `value` and `cofactor` require. Computed
    /// exactly, stopping as soon as the bound is exceeded.
    pub fn value_fits(&self) -> (r: bool)
        requires
            self.wf(),
        ensures
            r == self.fits(),
    {
        let len = self.items.len();
        let ghost gs = self.grid();
        let mut m: u128 = 0;
        let mut k: usize = 0;
        while k < len
            invariant
                k <= len,
                len == self.items@.len(),
                gs == self.grid(),
                m as int == max_abs(to_int(self.items@).take(k as int)),
                m <= 0x8000_0000_0000_0000u128,
            decreases len - k,
        {
            let v = self.items[k];
            let a: u128 = if v < 0 {
                (-(v as i128)) as u128
            } else {
                v as u128
            };
            proof {
                let pre = to_int(self.items@).take(k as int);
                let cur = to_int(self.items@).take(k as int + 1);
                assert(cur.drop_last() =~= pre);
                assert(cur.last() == v as int);
                assert(a as int == abs_val(v as int));
            }
            if a > m {
                m = a;
            }
            k = k + 1;
        }
        proof {
            assert(to_int(self.items@).take(len as int) =~= to_int(self.items@));
            lemma_max_abs(gs);
        }
        let size = self.size;
        if m == 0 {
            proof {
                reveal(pow);
                if size != 0 {
                    vstd::arithmetic::power::lemma0_pow(size as nat);
                    assert(fact(size as nat) * pow(0int, size as nat) == 0) by (nonlinear_arith)
                        requires
                            pow(0int, size as nat) == 0,
                    ;
                }
            }
            return true;
        }
        if size == 0 {
            proof {
                reveal(pow);
            }
            return true;
        }
        let mut acc: u128 = 1;
        let mut t: u32 = 0;
        proof {
            reveal(pow);
        }
        while t < size
            invariant
                t <= size,
                1 <= m <= 0x8000_0000_0000_0000u128,
                m as int == max_abs(gs),
                gs == self.grid(),
                size == self.size,
                acc as int == fact(t as nat) * pow(m as int, t as nat),
                acc <= i64::MAX as u128,
            decreases size - t,
        {
            proof {
                assert((acc as int) * ((t + 1) as int) <= 0x7fff_ffff_ffff_ffff * 0x1_0000_0000)
                    by (nonlinear_arith)
                    requires
                        0 <= acc <= 0x7fff_ffff_ffff_ffff,
                        0 < t + 1 <= 0x1_0000_0000,
                ;
            }
            let t1 = acc * ((t + 1) as u128);
            proof {
                reveal(pow);
                let tn = (t + 1) as nat;
                assert(fact(tn) == tn * fact(t as nat));
                assert(pow(m as int, tn) == (m as int) * pow(m as int, t as nat));
                lemma_fact_pos(t as nat);
                lemma_pow_nonneg(m as int, t as nat);
                assert((t1 as int) * (m as int) == fact(tn) * pow(m as int, tn))
                    by (nonlinear_arith)
                    requires
                        t1 as int == (acc as int) * (tn as int),
                        acc as int == fact(t as nat) * pow(m as int, t as nat),
                        fact(tn) == tn * fact(t as nat),
                        pow(m as int, tn) == (m as int) * pow(m as int, t as nat),
                ;
                assert(t1 as int <= (t1 as int) * (m as int)) by (nonlinear_arith)
                    requires
                        t1 >= 0,
                        m >= 1,
                ;
            }
            proof {
                vstd::arithmetic::div_mod::lemma_fundamental_div_mod(i64::MAX as int, m as int);
                vstd::arithmetic::div_mod::lemma_mod_bound(i64::MAX as int, m as int);
            }
            if t1 > (i64::MAX as u128) / (m as u128) {
                proof {
                    let tn = (t + 1) as nat;
                    assert((t1 as int) * (m as int) > i64::MAX as int) by (nonlinear_arith)
                        requires
                            t1 as int > (i64::MAX as int) / (m as int),
                            m >= 1,
                            (i64::MAX as int) / (m as int) >= 0,
                            i64::MAX as int == (m as int) * ((i64::MAX as int) / (m as int)) + (
                            i64::MAX as int) % (m as int),
                            0 <= (i64::MAX as int) % (m as int) < m as int,
                    ;
                    lemma_fact_pow_monotone(m as int, tn, size as nat);
                }
                return false;
            }
            proof {
                assert((t1 as int) * (m as int) <= i64::MAX as int) by (nonlinear_arith)
                    requires
                        0 <= t1 as int <= (i64::MAX as int) / (m as int),
                        m >= 1,
                        i64::MAX as int == (m as int) * ((i64::MAX as int) / (m as int)) + (
                        i64::MAX as int) % (m as int),
                        0 <= (i64::MAX as int) % (m as int) < m as int,
                ;
            }
            acc = t1 * m;
            t = t + 1;
        }
        true
    }
}

} // verus!
