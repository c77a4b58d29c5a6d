//! The augmented stoichiometric matrix and its exact-rational solver.
//!
//! `Augmented` holds one row per element and one column per molecule, plus a
//! trailing all-zero augmentation column.  Gaussian elimination, free-variable
//! normalization and common-denominator scaling are all pinned down by
//! specification functions over sequences of numerator/denominator pairs.

use vstd::prelude::*;

verus! {

use crate::rat::Rat;
use crate::rat::frac_fits;
use crate::rat::q_mul_val;
use crate::rat::q_add_val;
use crate::rat::q_neg;
use crate::rat::q_recip;
use crate::rat::gcd_int;
use crate::rat::gcd_u128;
use crate::rat::max_mag;
use crate::rat::lemma_gcd_props;
use crate::equation::EqError;
use vstd::arithmetic::div_mod::lemma_div_nonincreasing;
use vstd::arithmetic::div_mod::lemma_div_by_self;
use vstd::arithmetic::div_mod::lemma_div_is_ordered;

/// A matrix model: rows of numerator/denominator pairs.
pub type MatModel = Seq<Seq<(int, int)>>;

/// The row `row` with every entry multiplied by `k`, entries canonical.
pub open spec fn row_scale_vals(row: Seq<(int, int)>, k: (int, int)) -> Seq<(int, int)> {
    Seq::new(row.len(), |j: int| q_mul_val(row[j], k))
}

/// Whether every scaled entry stays representable.
pub open spec fn row_scale_ok(row: Seq<(int, int)>, k: (int, int)) -> bool {
    forall|j: int| 0 <= j < row.len() ==> frac_fits(#[trigger] q_mul_val(row[j], k))
}

/// The row `d` plus `c` times the row `s`, entries canonical.
pub open spec fn row_addmul_vals(d: Seq<(int, int)>, s: Seq<(int, int)>, c: (int, int)) -> Seq<
    (int, int),
> {
    Seq::new(d.len(), |j: int| q_add_val(d[j], q_mul_val(s[j], c)))
}

/// Whether every entry of the combination stays representable.
pub open spec fn row_addmul_ok(d: Seq<(int, int)>, s: Seq<(int, int)>, c: (int, int)) -> bool {
    forall|j: int|
        0 <= j < d.len() ==> frac_fits(#[trigger] q_mul_val(s[j], c)) && frac_fits(
            q_add_val(d[j], q_mul_val(s[j], c)),
        )
}

/// First row at or below `k` with a nonzero entry in column `col`, or the
/// row count when every one is zero.
pub open spec fn find_pivot_row(m: MatModel, col: int, k: int) -> int
    decreases m.len() - k,
        when 0 <= k <= m.len()
{
    if k >= m.len() {
        k
    } else if m[k][col].0 != 0 {
        k
    } else {
        find_pivot_row(m, col, k + 1)
    }
}

/// The matrix with rows `a` and `b` exchanged.
pub open spec fn swap_rows(m: MatModel, a: int, b: int) -> MatModel {
    m.update(a, m[b]).update(b, m[a])
}

/// Subtracts the right multiple of pivot row `i` from every other row, so
/// that column `i` is zero outside the pivot; `None` on overflow.
pub open spec fn elim_others(m: MatModel, i: int, j: int) -> Option<MatModel>
    decreases m.len() - j,
        when 0 <= j <= m.len()
{
    if j >= m.len() {
        Some(m)
    } else if j == i {
        elim_others(m, i, j + 1)
    } else {
        let c = q_neg(m[j][i]);
        if row_addmul_ok(m[j], m[i], c) {
            elim_others(m.update(j, row_addmul_vals(m[j], m[i], c)), i, j + 1)
        } else {
            None
        }
    }
}

/// One pivot step at a nonzero diagonal entry: scales row `i` so the pivot
/// becomes one, then eliminates column `i` from every other row.
pub open spec fn rref_step(m: MatModel, i: int) -> Option<MatModel>
    recommends
        0 <= i < m.len(),
        m[i][i].0 != 0,
{
    let k = q_recip(m[i][i]);
    if row_scale_ok(m[i], k) {
        elim_others(m.update(i, row_scale_vals(m[i], k)), i, 0)
    } else {
        None
    }
}

/// Gaussian elimination from diagonal position `i` up to `rc`: a zero
/// diagonal entry is first repaired by swapping a lower row in, and a column
/// with no usable pivot is skipped; `None` on overflow.
pub open spec fn spec_rref_from(m: MatModel, i: int, rc: int) -> Option<MatModel>
    decreases rc - i,
        when i <= rc
{
    if i >= rc {
        Some(m)
    } else if m[i][i].0 != 0 {
        match rref_step(m, i) {
            None => None,
            Some(m2) => spec_rref_from(m2, i + 1, rc),
        }
    } else {
        let k = find_pivot_row(m, i, i + 1);
        if k >= m.len() {
            spec_rref_from(m, i + 1, rc)
        } else {
            match rref_step(swap_rows(m, i, k), i) {
                None => None,
                Some(m2) => spec_rref_from(m2, i + 1, rc),
            }
        }
    }
}

/// Full reduction: one pivot per diagonal position, as many as rows and
/// non-augmentation columns allow.
pub open spec fn spec_rref(m: MatModel) -> Option<MatModel>
    recommends
        m.len() >= 1,
        m[0].len() >= 1,
{
    let rc = if m.len() < m[0].len() {
        m.len() as int
    } else {
        m[0].len() - 1
    };
    spec_rref_from(m, 0, rc)
}

/// The pair model of one row of rationals.
pub open spec fn row_model(row: Seq<Rat>) -> Seq<(int, int)> {
    row.map_values(|x: Rat| x@)
}

proof fn lemma_row_model_push(s: Seq<Rat>, x: Rat)
    ensures
        row_model(s.push(x)) == row_model(s).push(x@),
{
    assert forall|j: int| 0 <= j < s.len() + 1 implies row_model(s.push(x))[j] == row_model(
        s,
    ).push(x@)[j] by {
        if j < s.len() {
            assert(s.push(x)[j] == s[j]);
        } else {
            assert(s.push(x)[j] == x);
        }
    }
    assert(row_model(s.push(x)) =~= row_model(s).push(x@));
}

/// An augmented matrix of exact rationals.
pub struct Augmented {
    m: Vec<Vec<Rat>>,
}

impl Augmented {
    /// The matrix as rows of numerator/denominator pairs.
    pub closed spec fn model(&self) -> MatModel {
        Seq::new(self.m@.len(), |r: int| row_model(self.m@[r]@))
    }

    /// Number of rows.
    pub open spec fn rows(&self) -> int {
        self.model().len() as int
    }

    /// Number of entries in every row (that of the first row, when any).
    pub open spec fn width(&self) -> int {
        if self.model().len() == 0 {
            0
        } else {
            self.model()[0].len() as int
        }
    }

    /// Every row has the same width.
    pub open spec fn dims_ok(&self) -> bool {
        forall|r: int| 0 <= r < self.rows() ==> (#[trigger] self.model()[r]).len() == self.width()
    }

    /// Every entry is a representable canonical pair.
    pub open spec fn fits(&self) -> bool {
        forall|r: int, c: int|
            0 <= r < self.rows() && 0 <= c < self.model()[r].len() ==> frac_fits(
                #[trigger] self.model()[r][c],
            )
    }

    /// A matrix of `n` empty rows; columns are pushed one molecule at a time.
    pub fn new(n: usize) -> (r: Augmented)
        ensures
            r.model() == Seq::new(n as nat, |i: int| Seq::<(int, int)>::empty()),
            r.rows() == n as int,
            r.width() == 0,
            r.dims_ok(),
            r.fits(),
    {
        let mut m: Vec<Vec<Rat>> = Vec::new();
        let mut i: usize = 0;
        while i < n
            invariant
                i <= n,
                m@.len() == i as int,
                forall|r: int| 0 <= r < i as int ==> (#[trigger] m@[r])@.len() == 0,
            decreases n - i,
        {
            m.push(Vec::new());
            i = i + 1;
        }
        let r = Augmented { m };
        proof {
            assert(r.model() =~~= Seq::new(n as nat, |i: int| Seq::<(int, int)>::empty()));
        }
        r
    }

    /// Appends one entry of `column` to each row: row `r` gains `column[r]`.
    #[verifier::loop_isolation(false)]
    pub fn add_column(&mut self, column: &Vec<Rat>)
        requires
            old(self).dims_ok(),
            old(self).fits(),
            column@.len() >= old(self).rows(),
            forall|i: int| 0 <= i < column@.len() ==> (#[trigger] column@[i]).wf(),
        ensures
            final(self).model() == Seq::new(
                old(self).rows() as nat,
                |r: int| old(self).model()[r].push(column@[r]@),
            ),
            final(self).rows() == old(self).rows(),
            final(self).rows() > 0 ==> final(self).width() == old(self).width() + 1,
            final(self).dims_ok(),
            final(self).fits(),
    {
        let ghost m0 = self.model();
        let n = self.m.len();
        let mut newm: Vec<Vec<Rat>> = Vec::new();
        let mut i: usize = 0;
        while i < n
            invariant
                i <= n,
                self.m@.len() == n as int,
                newm@.len() == i as int,
                forall|r: int|
                    0 <= r < i as int ==> row_model((#[trigger] newm@[r])@) == m0[r].push(
                        column@[r]@,
                    ),
            decreases n - i,
        {
            let mut row = copy_row(&self.m[i]);
            let ghost rbefore = row@;
            row.push(column[i]);
            proof {
                assert(rbefore =~= self.m@[i as int]@);
                assert(row_model(rbefore) == m0[i as int]);
                lemma_row_model_push(rbefore, column@[i as int]);
            }
            newm.push(row);
            i = i + 1;
        }
        self.m = newm;
        proof {
            assert(self.model() =~~= Seq::new(m0.len(), |r: int| m0[r].push(column@[r]@)));
            assert forall|r: int| 0 <= r < self.rows() implies (#[trigger] self.model()[r]).len()
                == self.width() by {
                assert(self.model()[r].len() == m0[r].len() + 1);
                assert(self.model()[0].len() == m0[0].len() + 1);
            }
        }
    }

    /// Appends the all-zero augmentation column.
    #[verifier::loop_isolation(false)]
    pub fn augment(&mut self)
        requires
            old(self).dims_ok(),
            old(self).fits(),
        ensures
            final(self).model() == Seq::new(
                old(self).rows() as nat,
                |r: int| old(self).model()[r].push((0int, 1int)),
            ),
            final(self).rows() == old(self).rows(),
            final(self).rows() > 0 ==> final(self).width() == old(self).width() + 1,
            final(self).dims_ok(),
            final(self).fits(),
    {
        let ghost m0 = self.model();
        let n = self.m.len();
        let mut newm: Vec<Vec<Rat>> = Vec::new();
        let mut i: usize = 0;
        while i < n
            invariant
                i <= n,
                self.m@.len() == n as int,
                newm@.len() == i as int,
                forall|r: int|
                    0 <= r < i as int ==> row_model((#[trigger] newm@[r])@) == m0[r].push(
                        (0int, 1int),
                    ),
            decreases n - i,
        {
            let mut row = copy_row(&self.m[i]);
            let ghost rbefore = row@;
            let z = Rat::zero();
            row.push(z);
            proof {
                assert(rbefore =~= self.m@[i as int]@);
                assert(row_model(rbefore) == m0[i as int]);
                lemma_row_model_push(rbefore, z);
            }
            newm.push(row);
            i = i + 1;
        }
        self.m = newm;
        proof {
            assert(self.model() =~~= Seq::new(m0.len(), |r: int| m0[r].push((0int, 1int))));
            assert forall|r: int| 0 <= r < self.rows() implies (#[trigger] self.model()[r]).len()
                == self.width() by {
                assert(self.model()[r].len() == m0[r].len() + 1);
                assert(self.model()[0].len() == m0[0].len() + 1);
            }
        }
    }
}

/// One pass of the free-variable scan over one row: after the row's leading
/// one has been seen, every column holding a nonzero entry is recorded (once)
/// as an independent variable, in discovery order.
pub open spec fn row_indep(row: Seq<(int, int)>, j: int, found: bool, acc: Seq<int>) -> Seq<int>
    decreases row.len() - j,
        when 0 <= j <= row.len()
{
    if j >= row.len() {
        acc
    } else {
        let acc2 = if found && row[j].0 != 0 && !acc.contains(j) {
            acc.push(j)
        } else {
            acc
        };
        let found2 = found || row[j] == (1int, 1int);
        row_indep(row, j + 1, found2, acc2)
    }
}

/// The independent-variable columns of the whole matrix, row by row.
pub open spec fn mat_indep(m: MatModel, r: int, acc: Seq<int>) -> Seq<int>
    decreases m.len() - r,
        when 0 <= r <= m.len()
{
    if r >= m.len() {
        acc
    } else {
        mat_indep(m, r + 1, row_indep(m[r], 0, false, acc))
    }
}

/// Whether the row holds an entry that is exactly one.
pub open spec fn row_has_one(row: Seq<(int, int)>, j: int) -> bool
    decreases row.len() - j,
        when 0 <= j <= row.len()
{
    if j >= row.len() {
        false
    } else {
        row[j] == (1int, 1int) || row_has_one(row, j + 1)
    }
}

/// The matrix without its rows that hold no one: a row in which no leading
/// one was found is redundant and removed, the others keep their order.
pub open spec fn keep_rows(m: MatModel, r: int) -> MatModel
    decreases m.len() - r,
        when 0 <= r <= m.len()
{
    if r >= m.len() {
        Seq::empty()
    } else if row_has_one(m[r], 0) {
        seq![m[r]] + keep_rows(m, r + 1)
    } else {
        keep_rows(m, r + 1)
    }
}

/// A normalization row of width `w`: one in column `c` and in the
/// augmentation column, zero elsewhere.  It fixes free variable `c` to one.
pub open spec fn norm_row(w: int, c: int) -> Seq<(int, int)> {
    Seq::new(
        w as nat,
        |j: int|
            if j == c || j == w - 1 {
                (1int, 1int)
            } else {
                (0int, 1int)
            },
    )
}

/// The matrix with one normalization row appended per independent column.
pub open spec fn append_norm_rows(m: MatModel, ind: Seq<int>, w: int, k: int) -> MatModel
    decreases ind.len() - k,
        when 0 <= k <= ind.len()
{
    if k >= ind.len() {
        m
    } else {
        append_norm_rows(m.push(norm_row(w, ind[k])), ind, w, k + 1)
    }
}

/// One step of the common-denominator accumulation: the least common
/// multiple of `lm` and `d`, or `None` when it leaves the `i64` range.
pub open spec fn lcm_step(lm: int, d: int) -> Option<int>
    recommends
        1 <= lm,
        1 <= d,
{
    let g = gcd_int(lm, d);
    let q = lm / g;
    let p = q * d;
    if p > max_mag() {
        None
    } else {
        Some(p)
    }
}

/// The least common multiple of the denominators in the augmentation column.
pub open spec fn fold_lcm(m: MatModel, r: int, lm: int) -> Option<int>
    decreases m.len() - r,
        when 0 <= r <= m.len()
{
    if r >= m.len() {
        Some(lm)
    } else {
        match lcm_step(lm, m[r][m[0].len() - 1].1) {
            None => None,
            Some(l2) => fold_lcm(m, r + 1, l2),
        }
    }
}

/// Whether every scaled augmentation entry stays representable.
pub open spec fn res_ok(m: MatModel, lm: int) -> bool {
    forall|r: int|
        0 <= r < m.len() ==> frac_fits(#[trigger] q_mul_val(m[r][m[0].len() - 1], (lm, 1int)))
}

/// The integer coefficient vector: each augmentation entry times the common
/// denominator multiple, which makes every entry an integer.
pub open spec fn res_vals(m: MatModel, lm: int) -> Seq<int> {
    Seq::new(m.len(), |r: int| q_mul_val(m[r][m[0].len() - 1], (lm, 1int)).0)
}

/// The solution of a row-reduced augmented matrix: free variables are found
/// and fixed to one by normalization rows, the system is reduced again, and
/// the augmentation column is scaled to the integer coefficient vector.  A
/// system with no free variable and as many surviving rows as unknowns has
/// only the zero solution and is reported as such.  On success the final
/// reduced matrix is returned beside the coefficients.
pub open spec fn spec_solve(m: MatModel) -> Result<(Seq<int>, MatModel), EqError>
    recommends
        m.len() >= 1,
{
    let ind = mat_indep(m, 0, Seq::empty());
    let m1 = keep_rows(m, 0);
    if m1.len() == 0 {
        Err(EqError::TrivialSolution)
    } else if m1.len() == m1[0].len() - 1 {
        Err(EqError::TrivialSolution)
    } else {
        let w = m1[0].len() as int;
        let m2 = append_norm_rows(m1, ind, w, 0);
        match spec_rref(m2) {
            None => Err(EqError::Overflow),
            Some(m3) => match fold_lcm(m3, 0, 1) {
                None => Err(EqError::Overflow),
                Some(lm) => if res_ok(m3, lm) {
                    Ok((res_vals(m3, lm), m3))
                } else {
                    Err(EqError::Overflow)
                },
            },
        }
    }
}

/// The integer model of a vector of indices.
pub open spec fn idx_model(v: Seq<usize>) -> Seq<int> {
    v.map_values(|u: usize| u as int)
}

/// The integer model of a vector of coefficients.
pub open spec fn ints_model(v: Seq<i64>) -> Seq<int> {
    v.map_values(|x: i64| x as int)
}

/// The pair model of a vector of rows.
pub open spec fn vec_mat_model(v: Seq<Vec<Rat>>) -> MatModel {
    v.map_values(|row: Vec<Rat>| row_model(row@))
}

/// A fresh vector holding the same rationals as `row`.
fn copy_row(row: &Vec<Rat>) -> (r: Vec<Rat>)
    ensures
        r@ == row@,
{
    let mut r: Vec<Rat> = Vec::new();
    let n = row.len();
    let mut k: usize = 0;
    while k < n
        invariant
            k <= n,
            n == row@.len(),
            r@.len() == k as int,
            forall|j: int| 0 <= j < k as int ==> #[trigger] r@[j] == row@[j],
        decreases n - k,
    {
        r.push(row[k]);
        k = k + 1;
    }
    proof {
        assert(r@ =~= row@);
    }
    r
}

proof fn lemma_idx_model_push(s: Seq<usize>, x: usize)
    ensures
        idx_model(s.push(x)) == idx_model(s).push(x as int),
{
    assert forall|j: int| 0 <= j < s.len() + 1 implies idx_model(s.push(x))[j] == idx_model(
        s,
    ).push(x as int)[j] by {
        if j < s.len() {
            assert(s.push(x)[j] == s[j]);
        } else {
            assert(s.push(x)[j] == x);
        }
    }
    assert(idx_model(s.push(x)) =~= idx_model(s).push(x as int));
}

proof fn lemma_prod_bound_u(x: int, y: int, m: int)
    requires
        0 <= x <= m,
        0 <= y <= m,
        0 <= m,
    ensures
        0 <= x * y <= m * m,
{
    assert(0 <= x * y <= m * m) by (nonlinear_arith)
        requires
            0 <= x <= m,
            0 <= y <= m,
            0 <= m,
    ;
}

/// Whether `v` holds the index `x`.
fn contains_idx(v: &Vec<usize>, x: usize) -> (b: bool)
    ensures
        b == idx_model(v@).contains(x as int),
{
    let n = v.len();
    let mut k: usize = 0;
    while k < n
        invariant
            k <= n,
            n == v@.len(),
            forall|q: int| 0 <= q < k as int ==> v@[q] != x,
        decreases n - k,
    {
        if v[k] == x {
            proof {
                assert(idx_model(v@)[k as int] == x as int);
            }
            return true;
        }
        k = k + 1;
    }
    proof {
        assert forall|q: int| 0 <= q < idx_model(v@).len() implies idx_model(v@)[q] != x as int by {
            assert(v@[q] != x);
        }
        assert(!idx_model(v@).contains(x as int));
    }
    false
}

impl Augmented {
    /// The entry at row `r`, column `c`.
    fn entry(&self, r: usize, c: usize) -> (x: Rat)
        requires
            self.dims_ok(),
            (r as int) < self.rows(),
            (c as int) < self.width(),
        ensures
            x@ == self.model()[r as int][c as int],
            self.fits() ==> x.wf(),
    {
        proof {
            assert(self.model()[r as int] == row_model(self.m@[r as int]@));
        }
        let row = &self.m[r];
        let x = row[c];
        proof {
            assert(x@ == self.model()[r as int][c as int]);
        }
        x
    }

    /// Replaces row `i`, keeping the matrix well-formed.
    fn set_row(&mut self, i: usize, row: Vec<Rat>)
        requires
            old(self).dims_ok(),
            old(self).fits(),
            (i as int) < old(self).rows(),
            row@.len() == old(self).width(),
            forall|j: int| 0 <= j < row@.len() ==> (#[trigger] row@[j]).wf(),
        ensures
            final(self).model() == old(self).model().update(i as int, row_model(row@)),
            final(self).rows() == old(self).rows(),
            final(self).width() == old(self).width(),
            final(self).dims_ok(),
            final(self).fits(),
    {
        let ghost m0 = self.model();
        let ghost ms0 = self.m@;
        let ghost r0 = row@;
        self.m.set(i, row);
        proof {
            assert forall|r: int| 0 <= r < m0.len() implies self.model()[r] == m0.update(
                i as int,
                row_model(r0),
            )[r] by {
                assert(self.model()[r] == row_model(self.m@[r]@));
                if r != i as int {
                    assert(self.m@[r] == ms0[r]);
                    assert(m0[r] == row_model(ms0[r]@));
                } else {
                    assert(self.m@[r]@ == r0);
                }
            }
            assert(self.model() =~= m0.update(i as int, row_model(r0)));
            assert(row_model(r0).len() == old(self).width());
            assert forall|j: int| 0 <= j < row_model(r0).len() implies frac_fits(
                #[trigger] row_model(r0)[j],
            ) by {
                assert(row_model(r0)[j] == r0[j]@);
            }
        }
    }

    /// Appends one row, keeping the matrix well-formed.
    fn push_row(&mut self, row: Vec<Rat>)
        requires
            old(self).dims_ok(),
            old(self).fits(),
            old(self).rows() > 0,
            row@.len() == old(self).width(),
            forall|j: int| 0 <= j < row@.len() ==> (#[trigger] row@[j]).wf(),
        ensures
            final(self).model() == old(self).model().push(row_model(row@)),
            final(self).rows() == old(self).rows() + 1,
            final(self).width() == old(self).width(),
            final(self).dims_ok(),
            final(self).fits(),
    {
        let ghost m0 = self.model();
        let ghost ms0 = self.m@;
        let ghost r0 = row@;
        self.m.push(row);
        proof {
            assert forall|r: int| 0 <= r < m0.len() + 1 implies self.model()[r] == m0.push(
                row_model(r0),
            )[r] by {
                assert(self.model()[r] == row_model(self.m@[r]@));
                if r < m0.len() {
                    assert(self.m@[r] == ms0[r]);
                    assert(m0[r] == row_model(ms0[r]@));
                } else {
                    assert(self.m@[r]@ == r0);
                }
            }
            assert(self.model() =~= m0.push(row_model(r0)));
            assert(row_model(r0).len() == old(self).width());
            assert forall|j: int| 0 <= j < row_model(r0).len() implies frac_fits(
                #[trigger] row_model(r0)[j],
            ) by {
                assert(row_model(r0)[j] == r0[j]@);
            }
        }
    }

    /// First row at or below `k` with a nonzero entry in column `col`.
    fn find_pivot(&self, col: usize, k: usize) -> (r: usize)
        requires
            self.dims_ok(),
            k as int <= self.rows(),
            (col as int) < self.width(),
        ensures
            r as int == find_pivot_row(self.model(), col as int, k as int),
            k <= r,
            r as int <= self.rows(),
            (r as int) < self.rows() ==> self.model()[r as int][col as int].0 != 0,
        decreases self.rows() - k,
    {
        if k == self.m.len() {
            k
        } else {
            let x = self.entry(k, col);
            if !x.is_zero() {
                k
            } else {
                self.find_pivot(col, k + 1)
            }
        }
    }

    /// Exchanges rows `a` and `b`.
    fn swap_with(&mut self, a: usize, b: usize)
        requires
            old(self).dims_ok(),
            old(self).fits(),
            (a as int) < old(self).rows(),
            (b as int) < old(self).rows(),
        ensures
            final(self).model() == swap_rows(old(self).model(), a as int, b as int),
            final(self).rows() == old(self).rows(),
            final(self).width() == old(self).width(),
            final(self).dims_ok(),
            final(self).fits(),
    {
        let ghost m0 = self.model();
        let ra = copy_row(&self.m[a]);
        let rb = copy_row(&self.m[b]);
        proof {
            assert(row_model(ra@) == m0[a as int]);
            assert(row_model(rb@) == m0[b as int]);
            assert(m0[a as int].len() == old(self).width());
            assert(m0[b as int].len() == old(self).width());
            assert forall|j: int| 0 <= j < ra@.len() implies (#[trigger] ra@[j]).wf() by {
                assert(ra@[j]@ == m0[a as int][j]);
            }
            assert forall|j: int| 0 <= j < rb@.len() implies (#[trigger] rb@[j]).wf() by {
                assert(rb@[j]@ == m0[b as int][j]);
            }
        }
        self.set_row(a, rb);
        self.set_row(b, ra);
    }

    /// Multiplies row `i` by `k`; false when an entry overflows, leaving the
    /// matrix unchanged.
    #[verifier::loop_isolation(false)]
    fn scale_row(&mut self, i: usize, k: Rat) -> (ok: bool)
        requires
            old(self).dims_ok(),
            old(self).fits(),
            (i as int) < old(self).rows(),
            k.wf(),
        ensures
            final(self).rows() == old(self).rows(),
            final(self).width() == old(self).width(),
            final(self).dims_ok(),
            final(self).fits(),
            if row_scale_ok(old(self).model()[i as int], k@) {
                ok && final(self).model() == old(self).model().update(
                    i as int,
                    row_scale_vals(old(self).model()[i as int], k@),
                )
            } else {
                !ok && final(self).model() == old(self).model()
            },
    {
        let ghost m0 = self.model();
        let w = self.width_exec();
        let mut newrow: Vec<Rat> = Vec::new();
        let mut j: usize = 0;
        while j < w
            invariant
                j <= w,
                newrow@.len() == j as int,
                forall|q: int|
                    0 <= q < j as int ==> frac_fits(#[trigger] q_mul_val(m0[i as int][q], k@)),
                forall|q: int|
                    0 <= q < j as int ==> (#[trigger] newrow@[q])@ == q_mul_val(m0[i as int][q], k@),
                forall|q: int| 0 <= q < j as int ==> (#[trigger] newrow@[q]).wf(),
            decreases w - j,
        {
            let x = self.entry(i, j);
            match x.mul(k) {
                Some(v) => {
                    newrow.push(v);
                },
                None => {
                    proof {
                        assert(!row_scale_ok(m0[i as int], k@));
                    }
                    return false;
                },
            }
            j = j + 1;
        }
        proof {
            assert(row_model(newrow@) =~= row_scale_vals(m0[i as int], k@));
            assert(row_scale_ok(m0[i as int], k@));
        }
        self.set_row(i, newrow);
        true
    }

    /// Adds `c` times row `src` to row `dst`; false when an entry overflows,
    /// leaving the matrix unchanged.
    #[verifier::loop_isolation(false)]
    fn addmul_row(&mut self, dst: usize, src: usize, c: Rat) -> (ok: bool)
        requires
            old(self).dims_ok(),
            old(self).fits(),
            (dst as int) < old(self).rows(),
            (src as int) < old(self).rows(),
            c.wf(),
        ensures
            final(self).rows() == old(self).rows(),
            final(self).width() == old(self).width(),
            final(self).dims_ok(),
            final(self).fits(),
            if row_addmul_ok(
                old(self).model()[dst as int],
                old(self).model()[src as int],
                c@,
            ) {
                ok && final(self).model() == old(self).model().update(
                    dst as int,
                    row_addmul_vals(
                        old(self).model()[dst as int],
                        old(self).model()[src as int],
                        c@,
                    ),
                )
            } else {
                !ok && final(self).model() == old(self).model()
            },
    {
        let ghost m0 = self.model();
        let w = self.width_exec();
        let mut newrow: Vec<Rat> = Vec::new();
        let mut j: usize = 0;
        while j < w
            invariant
                j <= w,
                newrow@.len() == j as int,
                forall|q: int|
                    0 <= q < j as int ==> frac_fits(
                        #[trigger] q_mul_val(m0[src as int][q], c@),
                    ) && frac_fits(q_add_val(m0[dst as int][q], q_mul_val(m0[src as int][q], c@))),
                forall|q: int|
                    0 <= q < j as int ==> (#[trigger] newrow@[q])@ == q_add_val(
                        m0[dst as int][q],
                        q_mul_val(m0[src as int][q], c@),
                    ),
                forall|q: int| 0 <= q < j as int ==> (#[trigger] newrow@[q]).wf(),
            decreases w - j,
        {
            let s = self.entry(src, j);
            let d = self.entry(dst, j);
            let t = match s.mul(c) {
                Some(t) => t,
                None => {
                    proof {
                        assert(!row_addmul_ok(m0[dst as int], m0[src as int], c@));
                    }
                    return false;
                },
            };
            match d.add(t) {
                Some(v) => {
                    newrow.push(v);
                },
                None => {
                    proof {
                        assert(!row_addmul_ok(m0[dst as int], m0[src as int], c@));
                    }
                    return false;
                },
            }
            j = j + 1;
        }
        proof {
            assert(row_model(newrow@) =~= row_addmul_vals(m0[dst as int], m0[src as int], c@));
            assert(row_addmul_ok(m0[dst as int], m0[src as int], c@));
        }
        self.set_row(dst, newrow);
        true
    }

    /// The common width, as a number.
    fn width_exec(&self) -> (w: usize)
        ensures
            w as int == self.width(),
    {
        if self.m.len() == 0 {
            0
        } else {
            proof {
                assert(self.model()[0] == row_model(self.m@[0]@));
            }
            let row = &self.m[0];
            row.len()
        }
    }

    /// Number of rows, as a number.
    fn rows_exec(&self) -> (n: usize)
        ensures
            n as int == self.rows(),
    {
        self.m.len()
    }

    /// One pivot step at diagonal position `i`: scales the pivot row so the
    /// pivot becomes one, then clears column `i` everywhere else; false on
    /// overflow.
    #[verifier::loop_isolation(false)]
    fn pivot_step(&mut self, i: usize) -> (ok: bool)
        requires
            old(self).dims_ok(),
            old(self).fits(),
            (i as int) < old(self).rows(),
            (i as int) < old(self).width(),
            old(self).model()[i as int][i as int].0 != 0,
        ensures
            final(self).rows() == old(self).rows(),
            final(self).width() == old(self).width(),
            final(self).dims_ok(),
            final(self).fits(),
            match rref_step(old(self).model(), i as int) {
                Some(m2) => ok && final(self).model() == m2,
                None => !ok,
            },
    {
        let ghost m0 = self.model();
        let piv = self.entry(i, i);
        let k = piv.recip();
        if !self.scale_row(i, k) {
            return false;
        }
        let ghost m1 = self.model();
        proof {
            assert(rref_step(m0, i as int) == elim_others(m1, i as int, 0));
        }
        let n = self.rows_exec();
        let mut j: usize = 0;
        while j < n
            invariant
                j <= n,
                n as int == self.rows(),
                self.rows() == m1.len(),
                self.width() == old(self).width(),
                self.dims_ok(),
                self.fits(),
                elim_others(m1, i as int, 0) == elim_others(self.model(), i as int, j as int),
            decreases n - j,
        {
            if j != i {
                let x = self.entry(j, i);
                let c = x.neg();
                let ghost mj = self.model();
                if !self.addmul_row(j, i, c) {
                    proof {
                        assert(elim_others(mj, i as int, j as int) is None);
                    }
                    return false;
                }
            }
            j = j + 1;
        }
        true
    }

    /// Gaussian elimination over the whole matrix, exactly as `spec_rref`
    /// describes; false on overflow, leaving a partially reduced matrix.
    #[verifier::loop_isolation(false)]
    pub fn row_reduce(&mut self) -> (ok: bool)
        requires
            old(self).rows() >= 1,
            old(self).width() >= 1,
            old(self).dims_ok(),
            old(self).fits(),
        ensures
            final(self).rows() == old(self).rows(),
            final(self).width() == old(self).width(),
            final(self).dims_ok(),
            final(self).fits(),
            match spec_rref(old(self).model()) {
                Some(m2) => ok && final(self).model() == m2,
                None => !ok,
            },
    {
        let ghost m0 = self.model();
        let w = self.width_exec();
        let rows = self.rows_exec();
        let rc = if rows < w {
            rows
        } else {
            w - 1
        };
        proof {
            assert(spec_rref(m0) == spec_rref_from(m0, 0, rc as int));
        }
        let mut i: usize = 0;
        while i < rc
            invariant
                i <= rc,
                self.rows() == rows as int,
                self.width() == w as int,
                self.dims_ok(),
                self.fits(),
                spec_rref_from(m0, 0, rc as int) == spec_rref_from(
                    self.model(),
                    i as int,
                    rc as int,
                ),
            decreases rc - i,
        {
            let ghost mh = self.model();
            let piv = self.entry(i, i);
            let mut do_step = true;
            if piv.is_zero() {
                let k = self.find_pivot(i, i + 1);
                if k == self.m.len() {
                    do_step = false;
                } else {
                    self.swap_with(i, k);
                    proof {
                        assert(self.model()[i as int] == mh[k as int]);
                    }
                }
            }
            if do_step {
                if !self.pivot_step(i) {
                    return false;
                }
            }
            i = i + 1;
        }
        true
    }

    /// Whether row `r` holds an entry equal to one, scanning from column `j`.
    fn has_one_from(&self, r: usize, j: usize) -> (b: bool)
        requires
            self.dims_ok(),
            (r as int) < self.rows(),
            j as int <= self.width(),
        ensures
            b == row_has_one(self.model()[r as int], j as int),
        decreases self.width() - j,
    {
        let w = self.width_exec();
        if j == w {
            false
        } else {
            let x = self.entry(r, j);
            if x.is_one() {
                true
            } else {
                self.has_one_from(r, j + 1)
            }
        }
    }

    /// The independent-variable columns, in discovery order: within each row,
    /// every column holding a nonzero entry after the row's leading one.
    #[verifier::loop_isolation(false)]
    fn gather_indep(&self) -> (r: Vec<usize>)
        requires
            self.dims_ok(),
        ensures
            idx_model(r@) == mat_indep(self.model(), 0, Seq::empty()),
    {
        let mut acc: Vec<usize> = Vec::new();
        let n = self.rows_exec();
        let w = self.width_exec();
        let mut rr: usize = 0;
        proof {
            assert(idx_model(acc@) =~= Seq::<int>::empty());
        }
        while rr < n
            invariant
                rr <= n,
                mat_indep(self.model(), 0, Seq::empty()) == mat_indep(
                    self.model(),
                    rr as int,
                    idx_model(acc@),
                ),
            decreases n - rr,
        {
            let ghost acc_enter = idx_model(acc@);
            let mut found = false;
            let mut j: usize = 0;
            while j < w
                invariant
                    j <= w,
                    rr < n,
                    row_indep(self.model()[rr as int], 0, false, acc_enter) == row_indep(
                        self.model()[rr as int],
                        j as int,
                        found,
                        idx_model(acc@),
                    ),
                decreases w - j,
            {
                let x = self.entry(rr, j);
                let ghost accb = acc@;
                if found && !x.is_zero() {
                    if !contains_idx(&acc, j) {
                        acc.push(j);
                        proof {
                            lemma_idx_model_push(accb, j);
                        }
                    }
                }
                if x.is_one() {
                    found = true;
                }
                j = j + 1;
            }
            rr = rr + 1;
        }
        acc
    }

    /// Removes every row that holds no one, keeping the others in order.
    #[verifier::loop_isolation(false)]
    fn drop_zero_rows(&mut self)
        requires
            old(self).dims_ok(),
            old(self).fits(),
        ensures
            final(self).model() == keep_rows(old(self).model(), 0),
            final(self).rows() <= old(self).rows(),
            final(self).rows() > 0 ==> final(self).width() == old(self).width(),
            final(self).dims_ok(),
            final(self).fits(),
    {
        let ghost m0 = self.model();
        let n = self.rows_exec();
        let w = self.width_exec();
        let mut newm: Vec<Vec<Rat>> = Vec::new();
        let mut r: usize = 0;
        proof {
            assert(vec_mat_model(newm@) =~= Seq::<Seq<(int, int)>>::empty());
            assert(vec_mat_model(newm@) + keep_rows(m0, 0) =~= keep_rows(m0, 0));
        }
        while r < n
            invariant
                r <= n,
                newm@.len() <= r as int,
                keep_rows(m0, 0) == vec_mat_model(newm@) + keep_rows(m0, r as int),
                forall|q: int|
                    0 <= q < newm@.len() ==> (#[trigger] newm@[q])@.len() == w as int,
                forall|q: int, e: int|
                    0 <= q < newm@.len() && 0 <= e < newm@[q]@.len() ==> (
                    #[trigger] newm@[q]@[e]).wf(),
            decreases n - r,
        {
            let ghost before = vec_mat_model(newm@);
            if self.has_one_from(r, 0) {
                let rowcopy = copy_row(&self.m[r]);
                proof {
                    assert(row_model(rowcopy@) == m0[r as int]);
                    assert forall|e: int| 0 <= e < rowcopy@.len() implies (
                    #[trigger] rowcopy@[e]).wf() by {
                        assert(rowcopy@[e]@ == m0[r as int][e]);
                    }
                }
                newm.push(rowcopy);
                proof {
                    assert(vec_mat_model(newm@) =~= before.push(m0[r as int]));
                    assert(before.push(m0[r as int]) =~= before + seq![m0[r as int]]);
                    assert((before + seq![m0[r as int]]) + keep_rows(m0, r as int + 1) =~= before
                        + (seq![m0[r as int]] + keep_rows(m0, r as int + 1)));
                }
            }
            r = r + 1;
        }
        let ghost nm = newm@;
        self.m = newm;
        proof {
            assert(keep_rows(m0, n as int) =~= Seq::<Seq<(int, int)>>::empty());
            assert(vec_mat_model(nm) + Seq::<Seq<(int, int)>>::empty() =~= vec_mat_model(nm));
            assert forall|q: int| 0 <= q < nm.len() implies self.model()[q] == vec_mat_model(
                nm,
            )[q] by {
                assert(self.model()[q] == row_model(self.m@[q]@));
                assert(vec_mat_model(nm)[q] == row_model(nm[q]@));
            }
            assert(self.model() =~= vec_mat_model(nm));
            assert forall|q: int, e: int|
                0 <= q < self.rows() && 0 <= e < self.model()[q].len() implies frac_fits(
                #[trigger] self.model()[q][e]) by {
                assert(self.model()[q] == row_model(nm[q]@));
                assert(self.model()[q][e] == nm[q]@[e]@);
            }
        }
    }

    /// Solves the row-reduced system, exactly as `spec_solve` describes:
    /// redundant rows are removed, a system forced to the zero vector is
    /// rejected, each free variable is fixed to one by a normalization row,
    /// the system is reduced again, and the augmentation column, scaled by
    /// the least common multiple of its denominators, gives the integer
    /// coefficients in term order.
    #[verifier::loop_isolation(false)]
    pub fn solve(&mut self) -> (r: Result<Vec<i64>, EqError>)
        requires
            old(self).rows() >= 1,
            old(self).width() >= 1,
            old(self).dims_ok(),
            old(self).fits(),
        ensures
            final(self).dims_ok(),
            final(self).fits(),
            match spec_solve(old(self).model()) {
                Ok(p) => r matches Ok(v) && ints_model(v@) == p.0 && final(self).model() == p.1,
                Err(e) => r == Err::<Vec<i64>, EqError>(e),
            },
    {
        let ghost morig = self.model();
        let ind = self.gather_indep();
        let ghost indm = idx_model(ind@);
        self.drop_zero_rows();
        let ghost m1 = self.model();
        if self.m.len() == 0 {
            return Err(EqError::TrivialSolution);
        }
        let w = self.width_exec();
        let rows1 = self.rows_exec();
        if rows1 == w - 1 {
            return Err(EqError::TrivialSolution);
        }
        let mut k: usize = 0;
        while k < ind.len()
            invariant
                k as int <= indm.len(),
                self.rows() == m1.len() + k as int,
                self.width() == w as int,
                self.dims_ok(),
                self.fits(),
                append_norm_rows(m1, indm, w as int, 0) == append_norm_rows(
                    self.model(),
                    indm,
                    w as int,
                    k as int,
                ),
            decreases ind.len() - k,
        {
            let c = ind[k];
            let mut row: Vec<Rat> = Vec::new();
            let mut jj: usize = 0;
            while jj < w
                invariant
                    jj <= w,
                    row@.len() == jj as int,
                    forall|q: int|
                        0 <= q < jj as int ==> (#[trigger] row@[q])@ == (if q == c as int || q == w
                            as int - 1 {
                            (1int, 1int)
                        } else {
                            (0int, 1int)
                        }),
                    forall|q: int| 0 <= q < jj as int ==> (#[trigger] row@[q]).wf(),
                decreases w - jj,
            {
                if jj == c || jj == w - 1 {
                    row.push(Rat::one());
                } else {
                    row.push(Rat::zero());
                }
                jj = jj + 1;
            }
            proof {
                assert(row_model(row@) =~= norm_row(w as int, indm[k as int]));
            }
            self.push_row(row);
            k = k + 1;
        }
        let ghost m2 = self.model();
        proof {
            assert(m2 == append_norm_rows(m1, indm, w as int, 0));
        }
        if !self.row_reduce() {
            return Err(EqError::Overflow);
        }
        let ghost m3 = self.model();
        let rows = self.rows_exec();
        let mut lm: i64 = 1;
        let mut rr: usize = 0;
        while rr < rows
            invariant
                rr <= rows,
                1 <= lm as int <= max_mag(),
                fold_lcm(m3, 0, 1) == fold_lcm(m3, rr as int, lm as int),
            decreases rows - rr,
        {
            let x = self.entry(rr, w - 1);
            let d = x.denom();
            let g = gcd_u128(lm as u128, d as u128);
            proof {
                lemma_gcd_props(lm as int, d as int);
                lemma_div_by_self(g as int);
                lemma_div_is_ordered(g as int, lm as int, g as int);
                lemma_div_nonincreasing(lm as int, g as int);
            }
            let q = (lm as u128) / g;
            proof {
                lemma_prod_bound_u(q as int, d as int, max_mag());
            }
            let p = q * (d as u128);
            if p > 0x7fff_ffff_ffff_ffff {
                return Err(EqError::Overflow);
            }
            proof {
                assert(1 <= p as int) by (nonlinear_arith)
                    requires
                        1 <= q as int,
                        1 <= d as int,
                        p as int == q as int * d as int,
                ;
            }
            lm = p as i64;
            rr = rr + 1;
        }
        let mut out: Vec<i64> = Vec::new();
        let lmr = Rat::from_int(lm);
        let mut rr2: usize = 0;
        while rr2 < rows
            invariant
                rr2 <= rows,
                out@.len() == rr2 as int,
                forall|q: int|
                    0 <= q < rr2 as int ==> frac_fits(
                        #[trigger] q_mul_val(m3[q][m3[0].len() - 1], (lm as int, 1int)),
                    ),
                forall|q: int|
                    0 <= q < rr2 as int ==> (#[trigger] out@[q]) as int == q_mul_val(
                        m3[q][m3[0].len() - 1],
                        (lm as int, 1int),
                    ).0,
            decreases rows - rr2,
        {
            let x = self.entry(rr2, w - 1);
            match x.mul(lmr) {
                Some(v) => {
                    out.push(v.numer());
                },
                None => {
                    proof {
                        assert(!res_ok(m3, lm as int));
                    }
                    return Err(EqError::Overflow);
                },
            }
            rr2 = rr2 + 1;
        }
        proof {
            assert(res_ok(m3, lm as int));
            assert(ints_model(out@) =~= res_vals(m3, lm as int));
        }
        Ok(out)
    }
}

} // verus!
