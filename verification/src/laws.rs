use crate::determinants::{cof, det, det_upto, lemma_minor_coords, minor_seq, pos_sign, row_sign};
use crate::matrices::{
    dot_prefix, identity_seq, lemma_flat_in_range, lemma_grid_coords, transpose_seq, Matrix,
};
use vstd::arithmetic::div_mod::{
    lemma_fundamental_div_mod_converse_div, lemma_fundamental_div_mod_converse_mod,
};
use vstd::prelude::*;

verus! {

/// Transposing twice gives back the original grid: the grid-level statement
/// behind `transpose(transpose(m)) == m`, which lifts to `Matrix::transpose`
/// through its postcondition.
pub proof fn lemma_transpose_involutive(s: Seq<int>, rows: nat, cols: nat)
    requires
        s.len() == rows * cols,
    ensures
        transpose_seq(transpose_seq(s, rows, cols), cols, rows) == s,
{
    let t1 = transpose_seq(s, rows, cols);
    let t2 = transpose_seq(t1, cols, rows);
    assert(cols * rows == rows * cols) by (nonlinear_arith);
    assert forall|k: int| 0 <= k < s.len() implies t2[k] == s[k] by {
        assert(rows >= 1 && cols >= 1) by (nonlinear_arith)
            requires
                0 <= k < rows * cols,
        ;
        lemma_grid_coords(rows as int, cols as int, k);
        let i = k / (cols as int);
        let j = k % (cols as int);
        let m = j * (rows as int) + i;
        assert(0 <= m < cols * rows) by (nonlinear_arith)
            requires
                0 <= i < rows,
                0 <= j < cols,
                m == j * (rows as int) + i,
        ;
        lemma_fundamental_div_mod_converse_div(m, rows as int, j, i);
        lemma_fundamental_div_mod_converse_mod(m, rows as int, j, i);
        assert(t2[k] == t1[m]);
        assert(t1[m] == s[i * (cols as int) + j]);
    }
    assert(t2 =~= s);
}

/// Writing a valid 1-based position and reading it back yields the value
/// just written, and every other position is untouched: the grid-level
/// statement behind a `set` followed by `get`, which lifts through their
/// postconditions. `m2` stands for the matrix after the write.
pub proof fn lemma_set_get_round_trip(m: Matrix, m2: Matrix, i: int, j: int, v: int)
    requires
        m.wf(),
        m.in_range(i, j),
        m2.rows() == m.rows(),
        m2.cols() == m.cols(),
        m2.grid() == m.grid().update((i - 1) * m.cols() + (j - 1), v),
    ensures
        m2.entry(i, j) == v,
        forall|k: int|
            0 <= k < m.grid().len() && k != (i - 1) * m.cols() + (j - 1)
                ==> #[trigger] m2.grid()[k] == m.grid()[k],
{
    lemma_flat_in_range(m.rows() as int, m.cols() as int, i, j);
}

/// The determinant of an identity matrix of any positive order is 1.
pub proof fn lemma_det_identity(n: nat)
    requires
        1 <= n,
    ensures
        det(identity_seq(n), n) == 1,
    decreases n,
{
    let s = identity_seq(n);
    if n == 1 {
        assert(s[0] == 1) by {
            lemma_zero_coords(n as int);
        }
    } else if n == 2 {
        assert(s[0] == 1 && s[3] == 1 && s[1] == 0 && s[2] == 0) by {
            lemma_grid_coords(2, 2, 0);
            lemma_grid_coords(2, 2, 1);
            lemma_grid_coords(2, 2, 2);
            lemma_grid_coords(2, 2, 3);
            lemma_fundamental_div_mod_converse_div(1, 2, 0, 1);
            lemma_fundamental_div_mod_converse_mod(1, 2, 0, 1);
            lemma_fundamental_div_mod_converse_div(2, 2, 1, 0);
            lemma_fundamental_div_mod_converse_mod(2, 2, 1, 0);
            lemma_fundamental_div_mod_converse_div(3, 2, 1, 1);
            lemma_fundamental_div_mod_converse_mod(3, 2, 1, 1);
            lemma_zero_coords(2);
        }
    } else {
        lemma_det_identity((n - 1) as nat);
        lemma_det_upto_identity(n, n);
    }
}

/// `0 / d == 0` and `0 % d == 0` for a positive divisor.
proof fn lemma_zero_coords(d: int)
    requires
        d >= 1,
    ensures
        0int / d == 0,
        0int % d == 0,
{
    vstd::arithmetic::div_mod::lemma_div_of0(d);
    vstd::arithmetic::div_mod::lemma_small_mod(0, d as nat);
}

/// Deleting the first row and column of an identity grid leaves the
/// identity grid one order lower.
proof fn lemma_minor_identity(n: nat)
    requires
        2 <= n,
    ensures
        minor_seq(identity_seq(n), n, 0, 0) == identity_seq((n - 1) as nat),
{
    let s = identity_seq(n);
    let m = minor_seq(s, n, 0, 0);
    let t = identity_seq((n - 1) as nat);
    let w = (n - 1) as int;
    assert forall|k: int| 0 <= k < m.len() implies m[k] == t[k] by {
        lemma_minor_coords(n, 0, 0, k);
        let mi = k / w;
        let mj = k % w;
        let idx = (mi + 1) * (n as int) + (mj + 1);
        assert(0 <= idx < n * n) by (nonlinear_arith)
            requires
                0 <= mi < n - 1,
                0 <= mj < n - 1,
                idx == (mi + 1) * (n as int) + (mj + 1),
        ;
        lemma_fundamental_div_mod_converse_div(idx, n as int, mi + 1, mj + 1);
        lemma_fundamental_div_mod_converse_mod(idx, n as int, mi + 1, mj + 1);
        assert(m[k] == s[idx]);
    }
    assert(m =~= t);
}

/// Every partial first-column expansion of an identity grid that has passed
/// the first row equals the determinant of the identity grid one order
/// lower: later rows contribute nothing, their first-column entry being 0.
proof fn lemma_det_upto_identity(n: nat, i: nat)
    requires
        3 <= n,
        1 <= i <= n,
    ensures
        det_upto(identity_seq(n), n, i) == det(identity_seq((n - 1) as nat), (n - 1) as nat),
    decreases i,
{
    let s = identity_seq(n);
    if i == 1 {
        assert(det_upto(s, n, 0) == 0);
        assert(0 < n * n) by (nonlinear_arith)
            requires
                n >= 1,
        ;
        assert(s[0] == 1) by {
            lemma_zero_coords(n as int);
        }
        lemma_minor_identity(n);
        assert(row_sign(0) == 1);
        let md = det(minor_seq(s, n, 0, 0), (n - 1) as nat);
        assert(md == det(identity_seq((n - 1) as nat), (n - 1) as nat));
        assert(det_upto(s, n, 1) == det_upto(s, n, 0) + row_sign(0) * s[0 * (n as int)] * md);
        assert(s[0 * (n as int)] == s[0]);
        assert(row_sign(0) * s[0 * (n as int)] * md == md) by (nonlinear_arith)
            requires
                row_sign(0) == 1,
                s[0 * (n as int)] == 1,
        ;
        assert(det_upto(s, n, i) == det(identity_seq((n - 1) as nat), (n - 1) as nat));
    } else {
        lemma_det_upto_identity(n, (i - 1) as nat);
        let r = (i - 1) as nat;
        let rn = (r * n) as int;
        assert(0 <= rn < n * n) by (nonlinear_arith)
            requires
                1 <= r < n,
                rn == r * n,
        ;
        lemma_fundamental_div_mod_converse_div(rn, n as int, r as int, 0);
        lemma_fundamental_div_mod_converse_mod(rn, n as int, r as int, 0);
        assert(s[rn] == 0);
        let md = det(minor_seq(s, n, r, 0), (n - 1) as nat);
        assert(det_upto(s, n, i) == det_upto(s, n, r) + row_sign(r) * s[rn] * md);
        assert(row_sign(r) * s[rn] * md == 0) by (nonlinear_arith)
            requires
                s[rn] == 0,
        ;
        assert(det_upto(s, n, i) == det(identity_seq((n - 1) as nat), (n - 1) as nat));
    }
}

/// The entry of the `n`-column grid `s` at 0-based row `row` and column
/// `col`.
pub open spec fn ent(s: Seq<int>, n: nat, row: int, col: int) -> int {
    s[row * n + col]
}

/// Rows `p` and `q` (0-based) of the `n`-order grid `s` hold the same
/// values.
pub open spec fn rows_equal(s: Seq<int>, n: nat, p: nat, q: nat) -> bool {
    forall|c: int| 0 <= c < n ==> #[trigger] ent(s, n, p as int, c) == ent(s, n, q as int, c)
}

/// The entry of a first-column minor, read back in the parent grid: row `a`
/// of the minor is parent row `a` below the deleted row `r` and parent row
/// `a + 1` from `r` on, and minor column `c` is parent column `c + 1`.
proof fn lemma_minor_entry(s: Seq<int>, n: nat, r: nat, a: int, c: int)
    requires
        2 <= n,
        r < n,
        0 <= a < n - 1,
        0 <= c < n - 1,
    ensures
        minor_seq(s, n, r, 0)[a * ((n - 1) as int) + c] == ent(
            s,
            n,
            if a >= r {
                a + 1
            } else {
                a
            },
            c + 1,
        ),
{
    let w = (n - 1) as int;
    let k = a * w + c;
    assert(0 <= k < w * w) by (nonlinear_arith)
        requires
            0 <= a < w,
            0 <= c < w,
            k == a * w + c,
    ;
    lemma_fundamental_div_mod_converse_div(k, w, a, c);
    lemma_fundamental_div_mod_converse_mod(k, w, a, c);
}

/// Deleting a row above two equal adjacent rows keeps them equal and
/// adjacent, one position higher.
proof fn lemma_minor_rows_equal_below(s: Seq<int>, n: nat, p: nat, r: nat)
    requires
        3 <= n,
        s.len() == n * n,
        p + 1 < n,
        r < p,
        rows_equal(s, n, p, (p + 1) as nat),
    ensures
        rows_equal(minor_seq(s, n, r, 0), (n - 1) as nat, (p - 1) as nat, p),
{
    let w = (n - 1) as nat;
    let ms = minor_seq(s, n, r, 0);
    assert forall|c: int| 0 <= c < w implies #[trigger] ent(ms, w, p - 1, c) == ent(
        ms,
        w,
        p as int,
        c,
    ) by {
        lemma_minor_entry(s, n, r, p - 1, c);
        lemma_minor_entry(s, n, r, p as int, c);
        assert(ent(s, n, p as int, c + 1) == ent(s, n, (p + 1) as int, c + 1));
    }
}

/// Deleting a row below two equal adjacent rows keeps them equal, adjacent
/// and in place.
proof fn lemma_minor_rows_equal_above(s: Seq<int>, n: nat, p: nat, r: nat)
    requires
        3 <= n,
        s.len() == n * n,
        p + 1 < r < n,
        rows_equal(s, n, p, (p + 1) as nat),
    ensures
        rows_equal(minor_seq(s, n, r, 0), (n - 1) as nat, p, (p + 1) as nat),
{
    let w = (n - 1) as nat;
    let ms = minor_seq(s, n, r, 0);
    assert forall|c: int| 0 <= c < w implies #[trigger] ent(ms, w, p as int, c) == ent(
        ms,
        w,
        (p + 1) as int,
        c,
    ) by {
        lemma_minor_entry(s, n, r, p as int, c);
        lemma_minor_entry(s, n, r, (p + 1) as int, c);
        assert(ent(s, n, p as int, c + 1) == ent(s, n, (p + 1) as int, c + 1));
    }
}

/// When rows `p` and `p + 1` are equal, the expansion terms for those two
/// rows cancel: same first-column entry, same minor, opposite signs.
proof fn lemma_adjacent_terms_cancel(s: Seq<int>, n: nat, p: nat)
    requires
        3 <= n,
        s.len() == n * n,
        p + 1 < n,
        rows_equal(s, n, p, (p + 1) as nat),
    ensures
        row_sign((p + 1) as nat) * s[(((p + 1) as nat) * n) as int] * det(
            minor_seq(s, n, (p + 1) as nat, 0),
            (n - 1) as nat,
        ) == -(row_sign(p) * s[(p * n) as int] * det(minor_seq(s, n, p, 0), (n - 1) as nat)),
{
    let w = (n - 1) as nat;
    let q = (p + 1) as nat;
    let mp = minor_seq(s, n, p, 0);
    let mq = minor_seq(s, n, q, 0);
    assert(ent(s, n, p as int, 0) == ent(s, n, q as int, 0));
    assert(s[(p * n) as int] == ent(s, n, p as int, 0));
    assert(s[(q * n) as int] == ent(s, n, q as int, 0));
    assert forall|k: int| 0 <= k < mp.len() implies mp[k] == mq[k] by {
        lemma_minor_coords(n, p, 0, k);
        let a = k / ((n - 1) as int);
        let c = k % ((n - 1) as int);
        lemma_minor_entry(s, n, p, a, c);
        lemma_minor_entry(s, n, q, a, c);
        if a == p {
            assert(ent(s, n, p as int, c + 1) == ent(s, n, q as int, c + 1));
        }
    }
    assert(mp =~= mq);
    let sp = row_sign(p);
    let sq = row_sign(q);
    assert(sq == -sp);
    let item = s[(p * n) as int];
    let md = det(mp, w);
    assert((-sp) * item * md == -(sp * item * md)) by (nonlinear_arith);
}

/// The determinant of a grid with two equal adjacent rows is 0.
proof fn lemma_det_equal_adjacent_rows(s: Seq<int>, n: nat, p: nat)
    requires
        s.len() == n * n,
        p + 1 < n,
        rows_equal(s, n, p, (p + 1) as nat),
    ensures
        det(s, n) == 0,
    decreases n, 1nat, 0nat,
{
    if n == 2 {
        assert(ent(s, 2, 0, 0) == ent(s, 2, 1, 0));
        assert(ent(s, 2, 0, 1) == ent(s, 2, 1, 1));
        assert(s[0] == s[2] && s[1] == s[3]);
        assert(s[0] * s[3] - s[1] * s[2] == 0) by (nonlinear_arith)
            requires
                s[0] == s[2],
                s[1] == s[3],
        ;
    } else {
        assert(3 <= n);
        lemma_det_upto_equal_adjacent(s, n, p, n);
    }
}

/// Partial expansions of a grid with equal adjacent rows `p` and `p + 1`:
/// zero until row `p` is taken in, one surviving term while only row `p` is
/// in, and zero again once row `p + 1` has cancelled it.
proof fn lemma_det_upto_equal_adjacent(s: Seq<int>, n: nat, p: nat, i: nat)
    requires
        3 <= n,
        s.len() == n * n,
        p + 1 < n,
        rows_equal(s, n, p, (p + 1) as nat),
        i <= n,
    ensures
        i <= p ==> det_upto(s, n, i) == 0,
        i == p + 1 ==> det_upto(s, n, i) == row_sign(p) * s[(p * n) as int] * det(
            minor_seq(s, n, p, 0),
            (n - 1) as nat,
        ),
        i >= p + 2 ==> det_upto(s, n, i) == 0,
    decreases n, 0nat, i,
{
    if i > 0 {
        let r = (i - 1) as nat;
        lemma_det_upto_equal_adjacent(s, n, p, r);
        let w = (n - 1) as nat;
        let ms = minor_seq(s, n, r, 0);
        assert(det_upto(s, n, i) == det_upto(s, n, r) + row_sign(r) * s[(r * n) as int] * det(
            ms,
            w,
        ));
        if r < p {
            lemma_minor_rows_equal_below(s, n, p, r);
            lemma_det_equal_adjacent_rows(ms, w, (p - 1) as nat);
            assert(row_sign(r) * s[(r * n) as int] * det(ms, w) == 0) by (nonlinear_arith)
                requires
                    det(ms, w) == 0,
            ;
        } else if r == p {
        } else if r == p + 1 {
            lemma_adjacent_terms_cancel(s, n, p);
        } else {
            lemma_minor_rows_equal_above(s, n, p, r);
            lemma_det_equal_adjacent_rows(ms, w, p);
            assert(row_sign(r) * s[(r * n) as int] * det(ms, w) == 0) by (nonlinear_arith)
                requires
                    det(ms, w) == 0,
            ;
        }
    }
}

/// The grid `s` with adjacent rows `a` and `a + 1` exchanged.
pub open spec fn swap_adjacent_rows(s: Seq<int>, n: nat, a: nat) -> Seq<int> {
    Seq::new(
        n * n,
        |k: int|
            {
                let row = k / (n as int);
                let col = k % (n as int);
                if row == a {
                    s[(a + 1) * n + col]
                } else if row == a + 1 {
                    s[a * n + col]
                } else {
                    s[k]
                }
            },
    )
}

/// Reading an entry of the swapped grid reads the exchanged row of the
/// original.
proof fn lemma_swap_entry(s: Seq<int>, n: nat, a: nat, row: int, col: int)
    requires
        a + 1 < n,
        0 <= row < n,
        0 <= col < n,
    ensures
        ent(swap_adjacent_rows(s, n, a), n, row, col) == (if row == a {
            ent(s, n, a as int + 1, col)
        } else if row == a + 1 {
            ent(s, n, a as int, col)
        } else {
            ent(s, n, row, col)
        }),
{
    let k = row * (n as int) + col;
    assert(0 <= k < n * n) by (nonlinear_arith)
        requires
            0 <= row < n,
            0 <= col < n,
            k == row * (n as int) + col,
    ;
    lemma_fundamental_div_mod_converse_div(k, n as int, row, col);
    lemma_fundamental_div_mod_converse_mod(k, n as int, row, col);
}

/// Deleting a row that is not one of the exchanged pair commutes with the
/// exchange: the minor of the swapped grid is the swapped minor, the pair
/// sitting one row higher when the deleted row lay above it.
proof fn lemma_swap_minor_far(s: Seq<int>, n: nat, a: nat, r: nat)
    requires
        3 <= n,
        s.len() == n * n,
        a + 1 < n,
        r < n,
        r != a,
        r != a + 1,
    ensures
        minor_seq(swap_adjacent_rows(s, n, a), n, r, 0) == swap_adjacent_rows(
            minor_seq(s, n, r, 0),
            (n - 1) as nat,
            if r < a {
                (a - 1) as nat
            } else {
                a
            },
        ),
{
    let b = swap_adjacent_rows(s, n, a);
    let w = (n - 1) as nat;
    let ap = if r < a {
        (a - 1) as nat
    } else {
        a
    };
    let mb = minor_seq(b, n, r, 0);
    let ma = minor_seq(s, n, r, 0);
    let c2 = swap_adjacent_rows(ma, w, ap);
    assert forall|k: int| 0 <= k < mb.len() implies mb[k] == c2[k] by {
        lemma_minor_coords(n, r, 0, k);
        let row = k / ((n - 1) as int);
        let col = k % ((n - 1) as int);
        lemma_minor_entry(b, n, r, row, col);
        lemma_swap_entry(s, n, a, if row >= r { row + 1 } else { row }, col + 1);
        lemma_swap_entry(ma, w, ap, row, col);
        let srow: int = if row == ap {
            ap as int + 1
        } else if row == ap + 1 {
            ap as int
        } else {
            row
        };
        assert(ent(ma, w, srow, col) == ma[srow * (w as int) + col]);
        lemma_minor_entry(s, n, r, srow, col);
    }
    assert(mb =~= c2);
}

/// Deleting one of the exchanged rows of the swapped grid gives the same
/// minor as deleting the other row of the original grid.
proof fn lemma_swap_minor_at(s: Seq<int>, n: nat, a: nat)
    requires
        3 <= n,
        s.len() == n * n,
        a + 1 < n,
    ensures
        minor_seq(swap_adjacent_rows(s, n, a), n, a, 0) == minor_seq(s, n, (a + 1) as nat, 0),
        minor_seq(swap_adjacent_rows(s, n, a), n, (a + 1) as nat, 0) == minor_seq(s, n, a, 0),
{
    let b = swap_adjacent_rows(s, n, a);
    let w = (n - 1) as nat;
    let mba = minor_seq(b, n, a, 0);
    let msq = minor_seq(s, n, (a + 1) as nat, 0);
    assert forall|k: int| 0 <= k < mba.len() implies mba[k] == msq[k] by {
        lemma_minor_coords(n, a, 0, k);
        let row = k / ((n - 1) as int);
        let col = k % ((n - 1) as int);
        lemma_minor_entry(b, n, a, row, col);
        lemma_swap_entry(s, n, a, if row >= a { row + 1 } else { row }, col + 1);
        lemma_minor_entry(s, n, (a + 1) as nat, row, col);
    }
    assert(mba =~= msq);
    let mbq = minor_seq(b, n, (a + 1) as nat, 0);
    let msa = minor_seq(s, n, a, 0);
    assert forall|k: int| 0 <= k < mbq.len() implies mbq[k] == msa[k] by {
        lemma_minor_coords(n, (a + 1) as nat, 0, k);
        let row = k / ((n - 1) as int);
        let col = k % ((n - 1) as int);
        lemma_minor_entry(b, n, (a + 1) as nat, row, col);
        lemma_swap_entry(s, n, a, if row >= a + 1 { row + 1 } else { row }, col + 1);
        lemma_minor_entry(s, n, a, row, col);
    }
    assert(mbq =~= msa);
}

/// Adjacent 0-based rows carry opposite expansion signs.
proof fn lemma_row_sign_flip(a: nat)
    ensures
        row_sign((a + 1) as nat) == -row_sign(a),
{
    if a % 2 == 0 {
        assert((a + 1) % 2 == 1) by (nonlinear_arith)
            requires
                a % 2 == 0,
        ;
    } else {
        assert((a + 1) % 2 == 0) by (nonlinear_arith)
            requires
                a % 2 == 1,
        ;
    }
}

/// Exchanging two adjacent rows negates the determinant.
pub proof fn lemma_det_swap_adjacent(s: Seq<int>, n: nat, a: nat)
    requires
        s.len() == n * n,
        a + 1 < n,
    ensures
        det(swap_adjacent_rows(s, n, a), n) == -det(s, n),
    decreases n, 1nat, 0nat,
{
    let b = swap_adjacent_rows(s, n, a);
    if n == 2 {
        assert(ent(b, 2, 0, 0) == ent(s, 2, 1, 0) && ent(b, 2, 0, 1) == ent(s, 2, 1, 1) && ent(
            b,
            2,
            1,
            0,
        ) == ent(s, 2, 0, 0) && ent(b, 2, 1, 1) == ent(s, 2, 0, 1)) by {
            lemma_swap_entry(s, 2, 0, 0, 0);
            lemma_swap_entry(s, 2, 0, 0, 1);
            lemma_swap_entry(s, 2, 0, 1, 0);
            lemma_swap_entry(s, 2, 0, 1, 1);
        }
        assert(b[0] == s[2] && b[1] == s[3] && b[2] == s[0] && b[3] == s[1]);
        assert(b[0] * b[3] - b[1] * b[2] == -(s[0] * s[3] - s[1] * s[2])) by (nonlinear_arith)
            requires
                b[0] == s[2],
                b[1] == s[3],
                b[2] == s[0],
                b[3] == s[1],
        ;
    } else {
        assert(3 <= n);
        lemma_det_upto_swap(s, n, a, n);
    }
}

/// Partial expansions of the swapped grid, negated against the original:
/// already negated before the exchanged pair, carrying one crossed term at
/// `a + 1`, and negated again from `a + 2` on.
proof fn lemma_det_upto_swap(s: Seq<int>, n: nat, a: nat, i: nat)
    requires
        3 <= n,
        s.len() == n * n,
        a + 1 < n,
        i <= n,
    ensures
        i <= a ==> det_upto(swap_adjacent_rows(s, n, a), n, i) == -det_upto(s, n, i),
        i == a + 1 ==> det_upto(swap_adjacent_rows(s, n, a), n, i) == -(det_upto(s, n, a)
            + row_sign((a + 1) as nat) * s[(((a + 1) as nat) * n) as int] * det(
            minor_seq(s, n, (a + 1) as nat, 0),
            (n - 1) as nat,
        )),
        i >= a + 2 ==> det_upto(swap_adjacent_rows(s, n, a), n, i) == -det_upto(s, n, i),
    decreases n, 0nat, i,
{
    let b = swap_adjacent_rows(s, n, a);
    let w = (n - 1) as nat;
    if i > 0 {
        let r = (i - 1) as nat;
        lemma_det_upto_swap(s, n, a, r);
        let mb = minor_seq(b, n, r, 0);
        let ma = minor_seq(s, n, r, 0);
        assert(det_upto(b, n, i) == det_upto(b, n, r) + row_sign(r) * b[(r * n) as int] * det(
            mb,
            w,
        ));
        assert(det_upto(s, n, i) == det_upto(s, n, r) + row_sign(r) * s[(r * n) as int] * det(
            ma,
            w,
        ));
        assert(b[(r * n) as int] == ent(b, n, r as int, 0) && s[(r * n) as int] == ent(
            s,
            n,
            r as int,
            0,
        ));
        if r != a && r != a + 1 {
            lemma_swap_minor_far(s, n, a, r);
            let ap = if r < a {
                (a - 1) as nat
            } else {
                a
            };
            lemma_det_swap_adjacent(ma, w, ap);
            lemma_swap_entry(s, n, a, r as int, 0);
            assert(row_sign(r) * b[(r * n) as int] * det(mb, w) == -(row_sign(r) * s[(r
                * n) as int] * det(ma, w))) by (nonlinear_arith)
                requires
                    b[(r * n) as int] == s[(r * n) as int],
                    det(mb, w) == -det(ma, w),
            ;
        } else if r == a {
            lemma_swap_minor_at(s, n, a);
            lemma_swap_entry(s, n, a, a as int, 0);
            lemma_row_sign_flip(a);
            let q = (a + 1) as nat;
            assert(b[(a * n) as int] == s[(q * n) as int]) by {
                assert(ent(b, n, a as int, 0) == ent(s, n, a as int + 1, 0));
            }
            assert(row_sign(a) * b[(a * n) as int] * det(mb, w) == -(row_sign(q) * s[(q
                * n) as int] * det(minor_seq(s, n, q, 0), w))) by (nonlinear_arith)
                requires
                    b[(a * n) as int] == s[(q * n) as int],
                    mb == minor_seq(s, n, q, 0),
                    row_sign(a) == -row_sign(q),
            ;
        } else {
            let q = (a + 1) as nat;
            lemma_swap_minor_at(s, n, a);
            lemma_swap_entry(s, n, a, q as int, 0);
            lemma_row_sign_flip(a);
            assert(b[(q * n) as int] == s[(a * n) as int]) by {
                assert(ent(b, n, q as int, 0) == ent(s, n, a as int, 0));
            }
            assert(row_sign(q) * b[(q * n) as int] * det(mb, w) == -(row_sign(a) * s[(a
                * n) as int] * det(minor_seq(s, n, a, 0), w))) by (nonlinear_arith)
                requires
                    b[(q * n) as int] == s[(a * n) as int],
                    mb == minor_seq(s, n, a, 0),
                    row_sign(q) == -row_sign(a),
            ;
            assert(det_upto(s, n, (a + 1) as nat) == det_upto(s, n, a) + row_sign(a) * s[(a
                * n) as int] * det(minor_seq(s, n, a, 0), w));
        }
    }
}

/// The determinant of a grid with two equal rows, adjacent or not, is 0:
/// exchanging adjacent rows moves the lower duplicate upward, negating the
/// determinant each time, until the duplicates touch.
pub proof fn lemma_det_equal_rows(s: Seq<int>, n: nat, p: nat, q: nat)
    requires
        s.len() == n * n,
        p < q < n,
        rows_equal(s, n, p, q),
    ensures
        det(s, n) == 0,
    decreases q - p,
{
    if q == p + 1 {
        lemma_det_equal_adjacent_rows(s, n, p);
    } else {
        let a = (q - 1) as nat;
        let b = swap_adjacent_rows(s, n, a);
        assert forall|c: int| 0 <= c < n implies #[trigger] ent(b, n, p as int, c) == ent(
            b,
            n,
            a as int,
            c,
        ) by {
            lemma_swap_entry(s, n, a, p as int, c);
            lemma_swap_entry(s, n, a, a as int, c);
            assert(ent(s, n, p as int, c) == ent(s, n, q as int, c));
        }
        lemma_det_equal_rows(b, n, p, a);
        lemma_det_swap_adjacent(s, n, a);
    }
}

/// A 1-based row index and the 0-based index just below it carry the same
/// expansion sign against column 1.
proof fn lemma_pos_sign_first_column(t: nat)
    requires
        1 <= t,
    ensures
        pos_sign(t, 1) == row_sign((t - 1) as nat),
{
    if t % 2 == 0 {
        assert((t + 1) % 2 == 1 && (t - 1) % 2 == 1) by (nonlinear_arith)
            requires
                t % 2 == 0,
                t >= 1,
        ;
    } else {
        assert((t + 1) % 2 == 0 && (t - 1) % 2 == 0) by (nonlinear_arith)
            requires
                t % 2 == 1,
        ;
    }
}

/// A row of first-column cofactors, dotted with the first column of the
/// grid, accumulates exactly the partial first-column expansion.
proof fn lemma_cofactor_dot_first_column(s: Seq<int>, n: nat, adj: Seq<int>, t: nat)
    requires
        2 <= n,
        s.len() == n * n,
        adj.len() == n * n,
        forall|r: int| 0 <= r < n ==> #[trigger] adj[r] == cof(s, n, (r + 1) as nat, 1),
        t <= n,
    ensures
        dot_prefix(adj, s, n, n, 1, 1, t) == det_upto(s, n, t),
    decreases t,
{
    if t > 0 {
        lemma_cofactor_dot_first_column(s, n, adj, (t - 1) as nat);
        let r = (t - 1) as nat;
        assert(dot_prefix(adj, s, n, n, 1, 1, t) == dot_prefix(adj, s, n, n, 1, 1, r) + adj[(1
            - 1) * n + (t - 1)] * s[(t - 1) * n + (1 - 1)]);
        assert((1 - 1) * (n as int) + (t - 1) == t - 1);
        assert((t - 1) * (n as int) + (1 - 1) == (r * n) as int);
        assert(adj[t - 1] == cof(s, n, t, 1));
        lemma_pos_sign_first_column(t);
        let md = det(minor_seq(s, n, r, 0), (n - 1) as nat);
        assert(cof(s, n, t, 1) == row_sign(r) * md);
        assert(det_upto(s, n, t) == det_upto(s, n, r) + row_sign(r) * s[(r * n) as int] * md);
        assert((row_sign(r) * md) * s[(r * n) as int] == row_sign(r) * s[(r * n) as int] * md)
            by (nonlinear_arith);
    }
}

/// The leading entry of `adjoint(A) * A` is `det(A)`: the first row of the
/// adjugate holds `A`'s first-column cofactors, and its inner product with
/// `A`'s first column is exactly the first-column Laplace expansion. This is
/// the leading-entry case of the adjugate identity
/// `adjoint(A) * A == det(A) * I`, stated for orders of at least 2 — on a
/// 1-order grid the engine's empty minor makes the single cofactor 0.
pub proof fn lemma_adjoint_product_leading_entry(s: Seq<int>, n: nat, adj: Seq<int>)
    requires
        2 <= n,
        s.len() == n * n,
        adj.len() == n * n,
        forall|r: int| 0 <= r < n ==> #[trigger] adj[r] == cof(s, n, (r + 1) as nat, 1),
    ensures
        dot_prefix(adj, s, n, n, 1, 1, n) == det(s, n),
{
    lemma_cofactor_dot_first_column(s, n, adj, n);
    if n == 2 {
        lemma_minor_entry(s, 2, 0, 0, 0);
        lemma_minor_entry(s, 2, 1, 0, 0);
        assert(minor_seq(s, 2, 0, 0)[0] == s[3] && minor_seq(s, 2, 1, 0)[0] == s[1]);
        assert(det_upto(s, 2, 0) == 0);
        assert(det_upto(s, 2, 1) == det_upto(s, 2, 0) + row_sign(0) * s[0int * 2] * det(
            minor_seq(s, 2, 0, 0),
            1,
        ));
        assert(det_upto(s, 2, 2) == det_upto(s, 2, 1) + row_sign(1) * s[1int * 2] * det(
            minor_seq(s, 2, 1, 0),
            1,
        ));
        assert(1 * s[0] * s[3] + (-1) * s[2] * s[1] == s[0] * s[3] - s[1] * s[2])
            by (nonlinear_arith);
    }
}

} // verus!
