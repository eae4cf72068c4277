//! A dense two-dimensional container of scalar words with the usual
//! arithmetic traversals: elementwise combination, conventional
//! multiplication, scalar scaling, transposition and elementwise mapping.
//!
//! The container knows nothing about neural networks and nothing about
//! numbers: an entry is an opaque 32-bit word, and every operation that
//! combines entries takes the scalar operator from the caller as a closure.
//! Each contract fixes the shape of the result and states, entry for entry,
//! that the result is an output of the supplied operator on exactly the
//! operand entries it is meant to combine.

use vstd::prelude::*;

use rand::RngExt;

use crate::error::Error;

verus! {

/// Relies on `rand::RngExt::random`: one 32-bit word drawn uniformly from
/// the thread-local generator. The result is random; nothing is promised
/// of it.
#[verifier::external_body]
fn random_word() -> Scalar {
    rand::rng().random()
}

/// One matrix entry: an opaque 32-bit scalar word. In practice callers use
/// the bit patterns of IEEE single-precision numbers, but nothing in this
/// crate depends on that reading; the all-zero word is the entry of a fresh
/// `zeros` matrix and the seed of every inner-product accumulation.
pub type Scalar = u32;

/// A dense `rows x cols` container of scalar words, stored row by row.
///
/// Every operation requires and preserves `wf()`: the buffer holds exactly
/// `rows` rows of exactly `cols` entries each. Values are never mutated in
/// place; each operation returns a fresh matrix.
#[derive(Clone, Debug)]
pub struct Matrix {
    pub rows: usize,
    pub cols: usize,
    pub data: Vec<Vec<Scalar>>,
}

/// Two matrices of the same shape.
pub open spec fn same_shape(a: Matrix, b: Matrix) -> bool {
    a.rows == b.rows && a.cols == b.cols
}

/// Two matrices of the same shape holding the same word at every position.
pub open spec fn agrees(a: Matrix, b: Matrix) -> bool {
    same_shape(a, b) && forall|i: int, j: int|
        0 <= i < a.rows && 0 <= j < a.cols ==> a.at(i, j) == b.at(i, j)
}

/// `t` is the transpose of `a`: shape swapped, entries mirrored.
pub open spec fn is_transpose(a: Matrix, t: Matrix) -> bool {
    &&& t.rows == a.cols
    &&& t.cols == a.rows
    &&& forall|i: int, j: int|
        0 <= i < t.rows && 0 <= j < t.cols ==> t.at(i, j) == a.at(j, i)
}

impl Matrix {
    /// The buffer really is `rows` rows of `cols` entries each.
    pub open spec fn wf(&self) -> bool {
        &&& self.data@.len() == self.rows
        &&& forall|i: int| 0 <= i < self.rows ==> (#[trigger] self.data@[i])@.len() == self.cols
    }

    /// The entry in row `i`, column `j`.
    pub open spec fn at(&self, i: int, j: int) -> Scalar {
        self.data@[i]@[j]
    }

    /// An all-zero matrix of the given shape. Always succeeds.
    pub fn zeros(rows: usize, cols: usize) -> (m: Matrix)
        ensures
            m.wf(),
            m.rows == rows,
            m.cols == cols,
            forall|i: int, j: int| 0 <= i < rows && 0 <= j < cols ==> m.at(i, j) == 0,
    {
        let mut data: Vec<Vec<Scalar>> = Vec::new();
        for i in 0..rows
            invariant
                data@.len() == i,
                forall|r: int| 0 <= r < i ==> (#[trigger] data@[r])@.len() == cols,
                forall|r: int, c: int|
                    0 <= r < i && 0 <= c < cols ==> data@[r]@[c] == 0,
        {
            let mut row: Vec<Scalar> = Vec::new();
            for j in 0..cols
                invariant
                    row@.len() == j,
                    forall|c: int| 0 <= c < j ==> row@[c] == 0,
            {
                row.push(0);
            }
            data.push(row);
        }
        Matrix { rows, cols, data }
    }

    /// The transpose: result shape `cols x rows`, entries mirrored across the
    /// diagonal. No failure mode.
    pub fn transpose(&self) -> (t: Matrix)
        requires
            self.wf(),
        ensures
            t.wf(),
            is_transpose(*self, t),
    {
        let mut data: Vec<Vec<Scalar>> = Vec::new();
        for i in 0..self.cols
            invariant
                self.wf(),
                data@.len() == i,
                forall|r: int| 0 <= r < i ==> (#[trigger] data@[r])@.len() == self.rows,
                forall|r: int, c: int|
                    0 <= r < i && 0 <= c < self.rows ==> data@[r]@[c] == self.at(c, r),
        {
            let mut row: Vec<Scalar> = Vec::new();
            for j in 0..self.rows
                invariant
                    self.wf(),
                    i < self.cols,
                    row@.len() == j,
                    forall|c: int| 0 <= c < j ==> row@[c] == self.at(c, i as int),
            {
                row.push(self.data[j][i]);
            }
            data.push(row);
        }
        Matrix { rows: self.cols, cols: self.rows, data }
    }
}

/// Transposing twice gives back the original matrix: whatever `transpose`
/// returned for `a` and then for that result agrees with `a` entry for entry.
pub proof fn lemma_transpose_involution(a: Matrix, t: Matrix, tt: Matrix)
    requires
        is_transpose(a, t),
        is_transpose(t, tt),
    ensures
        agrees(tt, a),
{
}

/// Row `i` of `m` as a sequence of `m.cols` words.
pub open spec fn row_seq(m: Matrix, i: int) -> Seq<Scalar> {
    Seq::new(m.cols as nat, |k: int| m.at(i, k))
}

/// Column `j` of `m` as a sequence of `m.rows` words.
pub open spec fn col_seq(m: Matrix, j: int) -> Seq<Scalar> {
    Seq::new(m.rows as nat, |k: int| m.at(k, j))
}

/// The entry of `m` in row `i`, column `j` is a possible output of `init`
/// on some scalar word.
pub open spec fn entry_from<F: Fn(Scalar) -> Scalar>(init: F, m: Matrix, i: int, j: int) -> bool {
    exists|w: Scalar| call_ensures(init, (w,), m.at(i, j))
}

/// Every entry of `m` is a possible output of `init` on some scalar word.
pub open spec fn entries_from<F: Fn(Scalar) -> Scalar>(init: F, m: Matrix) -> bool {
    forall|i: int, j: int|
        0 <= i < m.rows && 0 <= j < m.cols ==> #[trigger] entry_from(init, m, i, j)
}

/// `m` is the column vector holding the sequence `s`.
pub open spec fn is_column_of(m: Matrix, s: Seq<Scalar>) -> bool {
    &&& m.wf()
    &&& m.rows == s.len()
    &&& m.cols == 1
    &&& forall|k: int| 0 <= k < s.len() ==> m.at(k, 0) == s[k]
}

/// `m` combines the same-shaped `a` and `b` entry by entry through `f`.
pub open spec fn entrywise_rel<F: Fn(Scalar, Scalar) -> Scalar>(
    f: F,
    a: Matrix,
    b: Matrix,
    m: Matrix,
) -> bool {
    &&& same_shape(a, b)
    &&& m.wf()
    &&& m.rows == a.rows
    &&& m.cols == a.cols
    &&& forall|i: int, j: int|
        0 <= i < m.rows && 0 <= j < m.cols ==> call_ensures(
            f,
            (a.at(i, j), b.at(i, j)),
            #[trigger] m.at(i, j),
        )
}

/// `m` applies `f` independently to every entry of `a`.
pub open spec fn map_rel<F: Fn(Scalar) -> Scalar>(f: F, a: Matrix, m: Matrix) -> bool {
    &&& m.wf()
    &&& m.rows == a.rows
    &&& m.cols == a.cols
    &&& forall|i: int, j: int|
        0 <= i < m.rows && 0 <= j < m.cols ==> call_ensures(
            f,
            (a.at(i, j),),
            #[trigger] m.at(i, j),
        )
}

/// `m` scales every entry of `a` by the word `k` through `mulf`.
pub open spec fn scale_rel<F: Fn(Scalar, Scalar) -> Scalar>(
    mulf: F,
    k: Scalar,
    a: Matrix,
    m: Matrix,
) -> bool {
    &&& m.wf()
    &&& m.rows == a.rows
    &&& m.cols == a.cols
    &&& forall|i: int, j: int|
        0 <= i < m.rows && 0 <= j < m.cols ==> call_ensures(
            mulf,
            (k, a.at(i, j)),
            #[trigger] m.at(i, j),
        )
}

/// The unary operator `f` is a function of its argument: any two outputs
/// on the same input are equal.
pub open spec fn functional1<F: Fn(Scalar) -> Scalar>(f: F) -> bool {
    forall|x: Scalar, r1: Scalar, r2: Scalar|
        #![trigger call_ensures(f, (x,), r1), call_ensures(f, (x,), r2)]
        call_ensures(f, (x,), r1) && call_ensures(f, (x,), r2) ==> r1 == r2
}

/// The binary operator `f` is a function of its arguments: any two outputs
/// on the same inputs are equal.
pub open spec fn functional2<F: Fn(Scalar, Scalar) -> Scalar>(f: F) -> bool {
    forall|x: Scalar, y: Scalar, r1: Scalar, r2: Scalar|
        #![trigger call_ensures(f, (x, y), r1), call_ensures(f, (x, y), r2)]
        call_ensures(f, (x, y), r1) && call_ensures(f, (x, y), r2) ==> r1 == r2
}

/// Under operators that are functions of their arguments, the
/// inner-product relation determines its result.
pub proof fn lemma_ip_functional<FM: Fn(Scalar, Scalar) -> Scalar, FA: Fn(Scalar, Scalar) -> Scalar>(
    mulf: FM,
    addf: FA,
    xs: Seq<Scalar>,
    ys: Seq<Scalar>,
    o1: Scalar,
    o2: Scalar,
)
    requires
        functional2(mulf),
        functional2(addf),
        ip_rel(mulf, addf, xs, ys, o1),
        ip_rel(mulf, addf, xs, ys, o2),
    ensures
        o1 == o2,
    decreases xs.len(),
{
    if xs.len() > 0 {
        let (mid1, p1) = choose|mid: Scalar, p: Scalar|
            {
                &&& call_ensures(mulf, (xs.last(), ys.last()), p)
                &&& #[trigger] call_ensures(addf, (mid, p), o1)
                &&& ip_rel(mulf, addf, xs.drop_last(), ys.drop_last(), mid)
            };
        let (mid2, p2) = choose|mid: Scalar, p: Scalar|
            {
                &&& call_ensures(mulf, (xs.last(), ys.last()), p)
                &&& #[trigger] call_ensures(addf, (mid, p), o2)
                &&& ip_rel(mulf, addf, xs.drop_last(), ys.drop_last(), mid)
            };
        lemma_ip_functional(mulf, addf, xs.drop_last(), ys.drop_last(), mid1, mid2);
        assert(p1 == p2);
    }
}

/// `new_m` is one gradient-descent step from `old_m`: the gradient `g`,
/// scaled entry by entry with the word `factor` through `mulf`, is
/// subtracted from `old_m` entry by entry through `subf`.
pub open spec fn descend_rel<FM: Fn(Scalar, Scalar) -> Scalar, FS: Fn(Scalar, Scalar) -> Scalar>(
    mulf: FM,
    subf: FS,
    factor: Scalar,
    old_m: Matrix,
    g: Matrix,
    new_m: Matrix,
) -> bool {
    exists|scaled: Matrix|
        {
            &&& #[trigger] scale_rel(mulf, factor, g, scaled)
            &&& entrywise_rel(subf, old_m, scaled, new_m)
        }
}

/// `m` is the conventional matrix product of `a` and `b` under the supplied
/// operators: entry `[i][j]` is an inner product of row `i` of `a` and
/// column `j` of `b`.
pub open spec fn product_rel<FM: Fn(Scalar, Scalar) -> Scalar, FA: Fn(Scalar, Scalar) -> Scalar>(
    mulf: FM,
    addf: FA,
    a: Matrix,
    b: Matrix,
    m: Matrix,
) -> bool {
    &&& a.cols == b.rows
    &&& m.wf()
    &&& m.rows == a.rows
    &&& m.cols == b.cols
    &&& forall|i: int, j: int|
        0 <= i < m.rows && 0 <= j < m.cols ==> ip_rel(
            mulf,
            addf,
            row_seq(a, i),
            col_seq(b, j),
            #[trigger] m.at(i, j),
        )
}

/// `out` is an inner product of `xs` and `ys` under the supplied operators:
/// the result of seeding an accumulator with the zero word and then, for each
/// position in turn, multiplying the paired entries with `mulf` and adding
/// the product into the accumulator with `addf`.
pub open spec fn ip_rel<FM: Fn(Scalar, Scalar) -> Scalar, FA: Fn(Scalar, Scalar) -> Scalar>(
    mulf: FM,
    addf: FA,
    xs: Seq<Scalar>,
    ys: Seq<Scalar>,
    out: Scalar,
) -> bool
    decreases xs.len(),
{
    if xs.len() == 0 {
        out == 0
    } else {
        exists|mid: Scalar, p: Scalar|
            {
                &&& call_ensures(mulf, (xs.last(), ys.last()), p)
                &&& #[trigger] call_ensures(addf, (mid, p), out)
                &&& ip_rel(mulf, addf, xs.drop_last(), ys.drop_last(), mid)
            }
    }
}

impl Matrix {
    /// Combine two same-shaped matrices entry by entry with `f`. The shared
    /// traversal behind `add`, `subtract` and `dot`.
    fn combine<F: Fn(Scalar, Scalar) -> Scalar + Copy>(&self, rhs: &Matrix, f: F) -> (m: Matrix)
        requires
            self.wf(),
            rhs.wf(),
            same_shape(*self, *rhs),
            forall|x: Scalar, y: Scalar| #[trigger] call_requires(f, (x, y)),
        ensures
            entrywise_rel(f, *self, *rhs, m),
    {
        let mut data: Vec<Vec<Scalar>> = Vec::new();
        for i in 0..self.rows
            invariant
                self.wf(),
                rhs.wf(),
                same_shape(*self, *rhs),
                forall|x: Scalar, y: Scalar| #[trigger] call_requires(f, (x, y)),
                data@.len() == i,
                forall|r: int| 0 <= r < i ==> (#[trigger] data@[r])@.len() == self.cols,
                forall|r: int, c: int|
                    0 <= r < i && 0 <= c < self.cols ==> call_ensures(
                        f,
                        (self.at(r, c), rhs.at(r, c)),
                        #[trigger] data@[r]@[c],
                    ),
        {
            let mut row: Vec<Scalar> = Vec::new();
            for j in 0..self.cols
                invariant
                    self.wf(),
                    rhs.wf(),
                    same_shape(*self, *rhs),
                    forall|x: Scalar, y: Scalar| #[trigger] call_requires(f, (x, y)),
                    i < self.rows,
                    row@.len() == j,
                    forall|c: int|
                        0 <= c < j ==> call_ensures(
                            f,
                            (self.at(i as int, c), rhs.at(i as int, c)),
                            #[trigger] row@[c],
                        ),
            {
                row.push(f(self.data[i][j], rhs.data[i][j]));
            }
            data.push(row);
        }
        Matrix { rows: self.rows, cols: self.cols, data }
    }

    /// Entrywise sum under `addf`. Fails with `ShapeMismatch`, and only with
    /// it, exactly when the two shapes differ.
    pub fn add<F: Fn(Scalar, Scalar) -> Scalar + Copy>(&self, rhs: &Matrix, addf: F) -> (r: Result<
        Matrix,
        Error,
    >)
        requires
            self.wf(),
            rhs.wf(),
            forall|x: Scalar, y: Scalar| #[trigger] call_requires(addf, (x, y)),
        ensures
            match r {
                Ok(m) => entrywise_rel(addf, *self, *rhs, m),
                Err(e) => {
                    &&& !same_shape(*self, *rhs)
                    &&& e == (Error::ShapeMismatch {
                        left_rows: self.rows,
                        left_cols: self.cols,
                        right_rows: rhs.rows,
                        right_cols: rhs.cols,
                    })
                },
            },
    {
        if self.rows != rhs.rows || self.cols != rhs.cols {
            return Err(
                Error::ShapeMismatch {
                    left_rows: self.rows,
                    left_cols: self.cols,
                    right_rows: rhs.rows,
                    right_cols: rhs.cols,
                },
            );
        }
        Ok(self.combine(rhs, addf))
    }

    /// Entrywise difference under `subf`. Fails with `ShapeMismatch`, and
    /// only with it, exactly when the two shapes differ.
    pub fn subtract<F: Fn(Scalar, Scalar) -> Scalar + Copy>(&self, rhs: &Matrix, subf: F) -> (r:
        Result<Matrix, Error>)
        requires
            self.wf(),
            rhs.wf(),
            forall|x: Scalar, y: Scalar| #[trigger] call_requires(subf, (x, y)),
        ensures
            match r {
                Ok(m) => entrywise_rel(subf, *self, *rhs, m),
                Err(e) => {
                    &&& !same_shape(*self, *rhs)
                    &&& e == (Error::ShapeMismatch {
                        left_rows: self.rows,
                        left_cols: self.cols,
                        right_rows: rhs.rows,
                        right_cols: rhs.cols,
                    })
                },
            },
    {
        if self.rows != rhs.rows || self.cols != rhs.cols {
            return Err(
                Error::ShapeMismatch {
                    left_rows: self.rows,
                    left_cols: self.cols,
                    right_rows: rhs.rows,
                    right_cols: rhs.cols,
                },
            );
        }
        Ok(self.combine(rhs, subf))
    }

    /// Entrywise product under `mulf` — not the conventional matrix product.
    /// Fails with `ShapeMismatch`, and only with it, exactly when the two
    /// shapes differ.
    pub fn dot<F: Fn(Scalar, Scalar) -> Scalar + Copy>(&self, rhs: &Matrix, mulf: F) -> (r: Result<
        Matrix,
        Error,
    >)
        requires
            self.wf(),
            rhs.wf(),
            forall|x: Scalar, y: Scalar| #[trigger] call_requires(mulf, (x, y)),
        ensures
            match r {
                Ok(m) => entrywise_rel(mulf, *self, *rhs, m),
                Err(e) => {
                    &&& !same_shape(*self, *rhs)
                    &&& e == (Error::ShapeMismatch {
                        left_rows: self.rows,
                        left_cols: self.cols,
                        right_rows: rhs.rows,
                        right_cols: rhs.cols,
                    })
                },
            },
    {
        if self.rows != rhs.rows || self.cols != rhs.cols {
            return Err(
                Error::ShapeMismatch {
                    left_rows: self.rows,
                    left_cols: self.cols,
                    right_rows: rhs.rows,
                    right_cols: rhs.cols,
                },
            );
        }
        Ok(self.combine(rhs, mulf))
    }

    /// Apply `f` independently to every entry; shape preserved, no failure
    /// mode. Every result entry is an output of `f` on exactly the entry at
    /// the same position, whatever order the entries are visited in.
    pub fn map<F: Fn(Scalar) -> Scalar + Copy>(&self, f: F) -> (m: Matrix)
        requires
            self.wf(),
            forall|x: Scalar| #[trigger] call_requires(f, (x,)),
        ensures
            map_rel(f, *self, m),
    {
        let mut data: Vec<Vec<Scalar>> = Vec::new();
        for i in 0..self.rows
            invariant
                self.wf(),
                forall|x: Scalar| #[trigger] call_requires(f, (x,)),
                data@.len() == i,
                forall|r: int| 0 <= r < i ==> (#[trigger] data@[r])@.len() == self.cols,
                forall|r: int, c: int|
                    0 <= r < i && 0 <= c < self.cols ==> call_ensures(
                        f,
                        (self.at(r, c),),
                        #[trigger] data@[r]@[c],
                    ),
        {
            let mut row: Vec<Scalar> = Vec::new();
            for j in 0..self.cols
                invariant
                    self.wf(),
                    forall|x: Scalar| #[trigger] call_requires(f, (x,)),
                    i < self.rows,
                    row@.len() == j,
                    forall|c: int|
                        0 <= c < j ==> call_ensures(
                            f,
                            (self.at(i as int, c),),
                            #[trigger] row@[c],
                        ),
            {
                row.push(f(self.data[i][j]));
            }
            data.push(row);
        }
        Matrix { rows: self.rows, cols: self.cols, data }
    }

    /// Scale every entry by the word `k`: each result entry is an output of
    /// `mulf` on `k` and the entry. Shape preserved, no failure mode.
    pub fn scalar_multiply<F: Fn(Scalar, Scalar) -> Scalar + Copy>(&self, k: Scalar, mulf: F) -> (m:
        Matrix)
        requires
            self.wf(),
            forall|x: Scalar, y: Scalar| #[trigger] call_requires(mulf, (x, y)),
        ensures
            scale_rel(mulf, k, *self, m),
    {
        let mut data: Vec<Vec<Scalar>> = Vec::new();
        for i in 0..self.rows
            invariant
                self.wf(),
                forall|x: Scalar, y: Scalar| #[trigger] call_requires(mulf, (x, y)),
                data@.len() == i,
                forall|r: int| 0 <= r < i ==> (#[trigger] data@[r])@.len() == self.cols,
                forall|r: int, c: int|
                    0 <= r < i && 0 <= c < self.cols ==> call_ensures(
                        mulf,
                        (k, self.at(r, c)),
                        #[trigger] data@[r]@[c],
                    ),
        {
            let mut row: Vec<Scalar> = Vec::new();
            for j in 0..self.cols
                invariant
                    self.wf(),
                    forall|x: Scalar, y: Scalar| #[trigger] call_requires(mulf, (x, y)),
                    i < self.rows,
                    row@.len() == j,
                    forall|c: int|
                        0 <= c < j ==> call_ensures(
                            mulf,
                            (k, self.at(i as int, c)),
                            #[trigger] row@[c],
                        ),
            {
                row.push(mulf(k, self.data[i][j]));
            }
            data.push(row);
        }
        Matrix { rows: self.rows, cols: self.cols, data }
    }

    /// The conventional matrix product. Fails with `ShapeMismatch`, and only
    /// with it, exactly when `self.cols != rhs.rows`; otherwise each result
    /// entry `[i][j]` is an inner product, under the supplied operators, of
    /// row `i` of `self` and column `j` of `rhs`.
    pub fn multiply<
        FM: Fn(Scalar, Scalar) -> Scalar + Copy,
        FA: Fn(Scalar, Scalar) -> Scalar + Copy,
    >(&self, rhs: &Matrix, mulf: FM, addf: FA) -> (r: Result<Matrix, Error>)
        requires
            self.wf(),
            rhs.wf(),
            forall|x: Scalar, y: Scalar| #[trigger] call_requires(mulf, (x, y)),
            forall|x: Scalar, y: Scalar| #[trigger] call_requires(addf, (x, y)),
        ensures
            match r {
                Ok(m) => product_rel(mulf, addf, *self, *rhs, m),
                Err(e) => {
                    &&& self.cols != rhs.rows
                    &&& e == (Error::ShapeMismatch {
                        left_rows: self.rows,
                        left_cols: self.cols,
                        right_rows: rhs.rows,
                        right_cols: rhs.cols,
                    })
                },
            },
    {
        if self.cols != rhs.rows {
            return Err(
                Error::ShapeMismatch {
                    left_rows: self.rows,
                    left_cols: self.cols,
                    right_rows: rhs.rows,
                    right_cols: rhs.cols,
                },
            );
        }
        let mut data: Vec<Vec<Scalar>> = Vec::new();
        for i in 0..self.rows
            invariant
                self.wf(),
                rhs.wf(),
                self.cols == rhs.rows,
                forall|x: Scalar, y: Scalar| #[trigger] call_requires(mulf, (x, y)),
                forall|x: Scalar, y: Scalar| #[trigger] call_requires(addf, (x, y)),
                data@.len() == i,
                forall|r: int| 0 <= r < i ==> (#[trigger] data@[r])@.len() == rhs.cols,
                forall|r: int, c: int|
                    0 <= r < i && 0 <= c < rhs.cols ==> ip_rel(
                        mulf,
                        addf,
                        row_seq(*self, r),
                        col_seq(*rhs, c),
                        #[trigger] data@[r]@[c],
                    ),
        {
            let mut row: Vec<Scalar> = Vec::new();
            for j in 0..rhs.cols
                invariant
                    self.wf(),
                    rhs.wf(),
                    self.cols == rhs.rows,
                    forall|x: Scalar, y: Scalar| #[trigger] call_requires(mulf, (x, y)),
                    forall|x: Scalar, y: Scalar| #[trigger] call_requires(addf, (x, y)),
                    i < self.rows,
                    row@.len() == j,
                    forall|c: int|
                        0 <= c < j ==> ip_rel(
                            mulf,
                            addf,
                            row_seq(*self, i as int),
                            col_seq(*rhs, c),
                            #[trigger] row@[c],
                        ),
            {
                let mut sum: Scalar = 0;
                let mut k: usize = 0;
                proof {
                    assert(row_seq(*self, i as int).take(0) =~= Seq::<Scalar>::empty());
                    assert(col_seq(*rhs, j as int).take(0) =~= Seq::<Scalar>::empty());
                }
                while k < self.cols
                    invariant
                        self.wf(),
                        rhs.wf(),
                        self.cols == rhs.rows,
                        forall|x: Scalar, y: Scalar| #[trigger] call_requires(mulf, (x, y)),
                        forall|x: Scalar, y: Scalar| #[trigger] call_requires(addf, (x, y)),
                        i < self.rows,
                        j < rhs.cols,
                        k <= self.cols,
                        ip_rel(
                            mulf,
                            addf,
                            row_seq(*self, i as int).take(k as int),
                            col_seq(*rhs, j as int).take(k as int),
                            sum,
                        ),
                    decreases self.cols - k,
                {
                    let p = mulf(self.data[i][k], rhs.data[k][j]);
                    let s = addf(sum, p);
                    proof {
                        let xs = row_seq(*self, i as int);
                        let ys = col_seq(*rhs, j as int);
                        let k1 = k as int + 1;
                        assert(xs.take(k1).drop_last() =~= xs.take(k as int));
                        assert(ys.take(k1).drop_last() =~= ys.take(k as int));
                        assert(xs.take(k1).last() == self.at(i as int, k as int));
                        assert(ys.take(k1).last() == rhs.at(k as int, j as int));
                        assert(ip_rel(mulf, addf, xs.take(k1), ys.take(k1), s));
                    }
                    sum = s;
                    k += 1;
                }
                proof {
                    assert(row_seq(*self, i as int).take(self.cols as int) =~= row_seq(
                        *self,
                        i as int,
                    ));
                    assert(col_seq(*rhs, j as int).take(self.cols as int) =~= col_seq(
                        *rhs,
                        j as int,
                    ));
                }
                row.push(sum);
            }
            data.push(row);
        }
        Ok(Matrix { rows: self.rows, cols: rhs.cols, data })
    }

    /// Wrap a flat sequence of words as a single-row matrix.
    pub fn from_flat(data: Vec<Scalar>) -> (m: Matrix)
        ensures
            m.wf(),
            m.rows == 1,
            m.cols == data@.len(),
            forall|j: int| 0 <= j < data@.len() ==> m.at(0, j) == data@[j],
    {
        let cols = data.len();
        let mut rows_data: Vec<Vec<Scalar>> = Vec::new();
        rows_data.push(data);
        Matrix { rows: 1, cols, data: rows_data }
    }

    /// Build a matrix from a sequence of rows. Fails with `ShapeMismatch`,
    /// and only with it, exactly when some row is shorter or longer than the
    /// first; an empty sequence gives the empty `0 x 0` matrix.
    pub fn from_rows(data: Vec<Vec<Scalar>>) -> (r: Result<Matrix, Error>)
        ensures
            match r {
                Ok(m) => {
                    &&& m.wf()
                    &&& m.rows == data@.len()
                    &&& (data@.len() == 0 ==> m.cols == 0)
                    &&& (data@.len() > 0 ==> m.cols == data@[0]@.len())
                    &&& forall|i: int, j: int|
                        0 <= i < m.rows && 0 <= j < m.cols ==> m.at(i, j) == data@[i]@[j]
                },
                Err(e) => {
                    &&& exists|i: int|
                        0 <= i < data@.len() && (#[trigger] data@[i])@.len() != data@[0]@.len()
                    &&& exists|i: int|
                        {
                            &&& 0 <= i < data@.len()
                            &&& (#[trigger] data@[i])@.len() != data@[0]@.len()
                            &&& forall|k: int|
                                0 <= k < i ==> (#[trigger] data@[k])@.len() == data@[0]@.len()
                            &&& e == (Error::ShapeMismatch {
                                left_rows: data@.len() as usize,
                                left_cols: data@[0]@.len() as usize,
                                right_rows: data@.len() as usize,
                                right_cols: data@[i]@.len() as usize,
                            })
                        }
                },
            },
    {
        if data.len() == 0 {
            return Ok(Matrix { rows: 0, cols: 0, data });
        }
        let rows = data.len();
        let cols = data[0].len();
        for i in 0..rows
            invariant
                rows == data@.len(),
                cols == data@[0]@.len(),
                forall|r: int| 0 <= r < i ==> (#[trigger] data@[r])@.len() == cols,
        {
            if data[i].len() != cols {
                return Err(
                    Error::ShapeMismatch {
                        left_rows: rows,
                        left_cols: cols,
                        right_rows: rows,
                        right_cols: data[i].len(),
                    },
                );
            }
        }
        Ok(Matrix { rows, cols, data })
    }

    /// Decide at run time whether the buffer matches the declared shape.
    pub fn check_wf(&self) -> (b: bool)
        ensures
            b == self.wf(),
    {
        if self.data.len() != self.rows {
            return false;
        }
        for i in 0..self.rows
            invariant
                self.data@.len() == self.rows,
                forall|r: int| 0 <= r < i ==> (#[trigger] self.data@[r])@.len() == self.cols,
        {
            if self.data[i].len() != self.cols {
                return false;
            }
        }
        true
    }

    /// A copy of row `i` as a flat vector of words.
    pub fn row(&self, i: usize) -> (r: Vec<Scalar>)
        requires
            self.wf(),
            i < self.rows,
        ensures
            r@ == row_seq(*self, i as int),
    {
        let mut r: Vec<Scalar> = Vec::new();
        for j in 0..self.cols
            invariant
                self.wf(),
                i < self.rows,
                r@.len() == j,
                forall|c: int| 0 <= c < j ==> r@[c] == self.at(i as int, c),
        {
            r.push(self.data[i][j]);
        }
        proof {
            assert(r@ =~= row_seq(*self, i as int));
        }
        r
    }

    /// A copy of column `j` as a flat vector of words.
    pub fn col(&self, j: usize) -> (r: Vec<Scalar>)
        requires
            self.wf(),
            j < self.cols,
        ensures
            r@ == col_seq(*self, j as int),
    {
        let mut r: Vec<Scalar> = Vec::new();
        for i in 0..self.rows
            invariant
                self.wf(),
                j < self.cols,
                r@.len() == i,
                forall|k: int| 0 <= k < i ==> r@[k] == self.at(k, j as int),
        {
            r.push(self.data[i][j]);
        }
        proof {
            assert(r@ =~= col_seq(*self, j as int));
        }
        r
    }

    /// A matrix of the given shape whose every entry is the image under
    /// `init` of a freshly drawn random word. Used for initialization only.
    pub fn random<F: Fn(Scalar) -> Scalar + Copy>(rows: usize, cols: usize, init: F) -> (m: Matrix)
        requires
            forall|x: Scalar| #[trigger] call_requires(init, (x,)),
        ensures
            m.wf(),
            m.rows == rows,
            m.cols == cols,
            forall|i: int, j: int|
                0 <= i < rows && 0 <= j < cols ==> #[trigger] entry_from(init, m, i, j),
    {
        let mut data: Vec<Vec<Scalar>> = Vec::new();
        let ghost mut wss: Seq<Seq<Scalar>> = Seq::empty();
        for i in 0..rows
            invariant
                forall|x: Scalar| #[trigger] call_requires(init, (x,)),
                data@.len() == i,
                wss.len() == i,
                forall|r: int| 0 <= r < i ==> (#[trigger] data@[r])@.len() == cols,
                forall|r: int| 0 <= r < i ==> (#[trigger] wss[r]).len() == cols,
                forall|r: int, c: int|
                    0 <= r < i && 0 <= c < cols ==> call_ensures(
                        init,
                        (wss[r][c],),
                        #[trigger] data@[r]@[c],
                    ),
        {
            let mut row: Vec<Scalar> = Vec::new();
            let ghost mut ws: Seq<Scalar> = Seq::empty();
            for j in 0..cols
                invariant
                    forall|x: Scalar| #[trigger] call_requires(init, (x,)),
                    row@.len() == j,
                    ws.len() == j,
                    forall|c: int|
                        0 <= c < j ==> call_ensures(init, (ws[c],), #[trigger] row@[c]),
            {
                let w = random_word();
                row.push(init(w));
                proof {
                    ws = ws.push(w);
                }
            }
            data.push(row);
            proof {
                wss = wss.push(ws);
            }
        }
        let m = Matrix { rows, cols, data };
        proof {
            assert forall|i: int, j: int| 0 <= i < rows && 0 <= j < cols implies #[trigger] entry_from(
                init,
                m,
                i,
                j,
            ) by {
                assert(call_ensures(init, (wss[i][j],), m.at(i, j)));
            }
        }
        m
    }
}

} // verus!
