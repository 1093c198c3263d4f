use vstd::prelude::*;

verus! {

/// A square matrix of `i32` entries, stored row by row.
#[derive(Debug, Clone, PartialEq)]
pub struct SquareMatrix {
    pub size: usize,
    pub data: Vec<Vec<i32>>,
}

impl View for SquareMatrix {
    type V = Seq<Seq<i32>>;

    open spec fn view(&self) -> Seq<Seq<i32>> {
        self.data@.map_values(|r: Vec<i32>| r@)
    }
}

/// `x` fits in an `i32`.
pub open spec fn fits(x: int) -> bool {
    i32::MIN <= x <= i32::MAX
}

/// Position `x` within its half, for halves of `h`.
pub open spec fn local(x: int, h: int) -> int {
    if x < h { x } else { x - h }
}

/// Entry `(i, j)` of the matrix whose quadrants of size `h` are `c11`, `c12`,
/// `c21` and `c22`.
pub open spec fn quadrant(c11: Seq<Seq<i32>>, c12: Seq<Seq<i32>>, c21: Seq<Seq<i32>>, c22: Seq<Seq<i32>>, h: int, i: int, j: int) -> int {
    if i < h && j < h {
        c11[i][j] as int
    } else if i < h {
        c12[i][j - h] as int
    } else if j < h {
        c21[i - h][j] as int
    } else {
        c22[i - h][j - h] as int
    }
}

/// The sum of `a[i][m] * b[m][j]` over `m` in `lo..hi`.
pub open spec fn dot_range(a: Seq<Seq<i32>>, b: Seq<Seq<i32>>, i: int, j: int, lo: int, hi: int) -> int
    decreases hi - lo,
{
    if hi <= lo {
        0
    } else {
        dot_range(a, b, i, j, lo, hi - 1) + a[i][hi - 1] * b[hi - 1][j]
    }
}

impl SquareMatrix {
    /// `size` rows of `size` entries each.
    pub open spec fn wf(&self) -> bool {
        &&& self.data@.len() == self.size
        &&& forall|i: int| 0 <= i < self.size ==> (#[trigger] self.data@[i])@.len() == self.size
    }

    /// A matrix of the given size holding the given rows.
    pub fn new(size: usize, data: Vec<Vec<i32>>) -> (r: Self)
        requires
            data@.len() == size,
            forall|i: int| 0 <= i < size ==> (#[trigger] data@[i])@.len() == size,
        ensures
            r.wf(),
            r.size == size,
            r.data == data,
    {
        Self { size, data }
    }

    /// The matrix of the given size whose entries are all zero.
    pub fn zero(size: usize) -> (r: Self)
        ensures
            r.wf(),
            r.size == size,
            forall|i: int, j: int| 0 <= i < size && 0 <= j < size ==> r@[i][j] == 0,
    {
        let mut data: Vec<Vec<i32>> = Vec::new();
        let mut i: usize = 0;
        while i < size
            invariant
                i <= size,
                data@.len() == i,
                forall|k: int| 0 <= k < i ==> (#[trigger] data@[k])@ == Seq::new(size as nat, |j: int| 0i32),
            decreases size - i,
        {
            let mut row: Vec<i32> = Vec::new();
            let mut j: usize = 0;
            while j < size
                invariant
                    j <= size,
                    row@ == Seq::new(j as nat, |x: int| 0i32),
                decreases size - j,
            {
                row.push(0);
                j += 1;
                assert(row@ =~= Seq::new(j as nat, |x: int| 0i32));
            }
            data.push(row);
            i += 1;
        }
        Self { size, data }
    }

    /// The four `size / 2` quadrants: top left, top right, bottom left,
    /// bottom right. With an odd size the last row and column belong to none.
    pub fn split(&self) -> (r: (Self, Self, Self, Self))
        requires
            self.wf(),
        ensures
            r.0.wf() && r.1.wf() && r.2.wf() && r.3.wf(),
            r.0.size == self.size / 2 && r.1.size == self.size / 2,
            r.2.size == self.size / 2 && r.3.size == self.size / 2,
            forall|i: int, j: int|
                #![trigger r.0@[i][j]]
                #![trigger r.1@[i][j]]
                #![trigger r.2@[i][j]]
                #![trigger r.3@[i][j]]
                0 <= i < self.size / 2 && 0 <= j < self.size / 2 ==> {
                let h = self.size / 2;
                &&& r.0@[i][j] == self@[i][j]
                &&& r.1@[i][j] == self@[i][j + h]
                &&& r.2@[i][j] == self@[i + h][j]
                &&& r.3@[i][j] == self@[i + h][j + h]
            },
    {
        let half = self.size / 2;
        let mut a11: Vec<Vec<i32>> = Vec::new();
        let mut a12: Vec<Vec<i32>> = Vec::new();
        let mut a21: Vec<Vec<i32>> = Vec::new();
        let mut a22: Vec<Vec<i32>> = Vec::new();
        let mut i: usize = 0;
        while i < half
            invariant
                self.wf(),
                half == self.size / 2,
                i <= half,
                a11@.len() == i && a12@.len() == i && a21@.len() == i && a22@.len() == i,
                forall|k: int|
                    #![trigger a11@[k]]
                    #![trigger a12@[k]]
                    #![trigger a21@[k]]
                    #![trigger a22@[k]]
                    0 <= k < i ==> a11@[k]@.len() == half && a12@[k]@.len() == half
                    && a21@[k]@.len() == half && a22@[k]@.len() == half,
                forall|k: int, j: int|
                    #![trigger a11@[k]@[j]]
                    #![trigger a12@[k]@[j]]
                    #![trigger a21@[k]@[j]]
                    #![trigger a22@[k]@[j]]
                    0 <= k < i && 0 <= j < half ==> {
                    &&& a11@[k]@[j] == self@[k][j]
                    &&& a12@[k]@[j] == self@[k][j + half]
                    &&& a21@[k]@[j] == self@[k + half][j]
                    &&& a22@[k]@[j] == self@[k + half][j + half]
                },
            decreases half - i,
        {
            let mut r11: Vec<i32> = Vec::new();
            let mut r12: Vec<i32> = Vec::new();
            let mut r21: Vec<i32> = Vec::new();
            let mut r22: Vec<i32> = Vec::new();
            let mut j: usize = 0;
            while j < half
                invariant
                    self.wf(),
                    half == self.size / 2,
                    i < half,
                    j <= half,
                    r11@.len() == j && r12@.len() == j && r21@.len() == j && r22@.len() == j,
                    forall|x: int|
                        #![trigger r11@[x]]
                        #![trigger r12@[x]]
                        #![trigger r21@[x]]
                        #![trigger r22@[x]]
                        0 <= x < j ==> {
                        &&& r11@[x] == self@[i as int][x]
                        &&& r12@[x] == self@[i as int][x + half]
                        &&& r21@[x] == self@[i + half][x]
                        &&& r22@[x] == self@[i + half][x + half]
                    },
                decreases half - j,
            {
                assert(self.data@[i as int]@.len() == self.size);
                assert(self.data@[i + half]@.len() == self.size);
                r11.push(self.data[i][j]);
                r12.push(self.data[i][j + half]);
                r21.push(self.data[i + half][j]);
                r22.push(self.data[i + half][j + half]);
                j += 1;
            }
            a11.push(r11);
            a12.push(r12);
            a21.push(r21);
            a22.push(r22);
            i += 1;
        }
        (Self::new(half, a11), Self::new(half, a12), Self::new(half, a21), Self::new(half, a22))
    }

    /// Adds the four `size / 2` quadrants `c11`, `c12`, `c21`, `c22` into the
    /// matching quadrants of `self`.
    pub fn merge(&mut self, c11: &Self, c12: &Self, c21: &Self, c22: &Self)
        requires
            old(self).wf(),
            c11.wf() && c12.wf() && c21.wf() && c22.wf(),
            c11.size == old(self).size / 2 && c12.size == old(self).size / 2,
            c21.size == old(self).size / 2 && c22.size == old(self).size / 2,
            forall|i: int, j: int|
                0 <= i < 2 * (old(self).size / 2) && 0 <= j < 2 * (old(self).size / 2) ==> fits(
                    old(self)@[i][j] + #[trigger] quadrant(c11@, c12@, c21@, c22@, (old(self).size / 2) as int, i, j),
                ),
        ensures
            final(self).wf(),
            final(self).size == old(self).size,
            forall|i: int, j: int| 0 <= i < old(self).size && 0 <= j < old(self).size ==>
                #[trigger] final(self)@[i][j] == old(self)@[i][j] + if i < 2 * (old(self).size / 2) && j < 2 * (old(self).size / 2) {
                    quadrant(c11@, c12@, c21@, c22@, (old(self).size / 2) as int, i, j)
                } else {
                    0
                },
    {
        let half = self.size / 2;
        let ghost m = self@;
        let ghost h = half as int;
        let mut i: usize = 0;
        while i < half
            invariant
                self.wf(),
                self.size == m.len(),
                half == self.size / 2,
                h == half,
                c11.wf() && c12.wf() && c21.wf() && c22.wf(),
                c11.size == half && c12.size == half && c21.size == half && c22.size == half,
                i <= half,
                forall|x: int, y: int|
                    0 <= x < 2 * h && 0 <= y < 2 * h ==> fits(m[x][y] + #[trigger] quadrant(c11@, c12@, c21@, c22@, h, x, y)),
                forall|x: int, y: int| 0 <= x < self.size && 0 <= y < self.size ==>
                    #[trigger] self@[x][y] == m[x][y] + if x < 2 * h && y < 2 * h && local(x, h) < i {
                        quadrant(c11@, c12@, c21@, c22@, h, x, y)
                    } else {
                        0
                    },
            decreases half - i,
        {
            let mut j: usize = 0;
            while j < half
                invariant
                    self.wf(),
                    self.size == m.len(),
                    half == self.size / 2,
                    h == half,
                    c11.wf() && c12.wf() && c21.wf() && c22.wf(),
                    c11.size == half && c12.size == half && c21.size == half && c22.size == half,
                    i < half,
                    j <= half,
                    forall|x: int, y: int|
                        0 <= x < 2 * h && 0 <= y < 2 * h ==> fits(m[x][y] + #[trigger] quadrant(c11@, c12@, c21@, c22@, h, x, y)),
                    forall|x: int, y: int| 0 <= x < self.size && 0 <= y < self.size ==>
                        #[trigger] self@[x][y] == m[x][y] + if x < 2 * h && y < 2 * h && (local(x, h) < i || (local(x, h) == i && local(y, h) < j)) {
                            quadrant(c11@, c12@, c21@, c22@, h, x, y)
                        } else {
                            0
                        },
                decreases half - j,
            {
                let ghost (ii, jj) = (i as int, j as int);
                assert(self@[ii][jj] == m[ii][jj]);
                assert(fits(m[ii][jj] + quadrant(c11@, c12@, c21@, c22@, h, ii, jj)));
                let v = self.data[i][j] + c11.data[i][j];
                self.set_entry(i, j, v);
                assert(self@[ii][jj + h] == m[ii][jj + h]);
                assert(fits(m[ii][jj + h] + quadrant(c11@, c12@, c21@, c22@, h, ii, jj + h)));
                let v = self.data[i][j + half] + c12.data[i][j];
                self.set_entry(i, j + half, v);
                assert(self@[ii + h][jj] == m[ii + h][jj]);
                assert(fits(m[ii + h][jj] + quadrant(c11@, c12@, c21@, c22@, h, ii + h, jj)));
                let v = self.data[i + half][j] + c21.data[i][j];
                self.set_entry(i + half, j, v);
                assert(self@[ii + h][jj + h] == m[ii + h][jj + h]);
                assert(fits(m[ii + h][jj + h] + quadrant(c11@, c12@, c21@, c22@, h, ii + h, jj + h)));
                let v = self.data[i + half][j + half] + c22.data[i][j];
                self.set_entry(i + half, j + half, v);
                j += 1;
            }
            i += 1;
        }
    }

    /// The entrywise sum of two matrices of one size.
    pub fn add(self, other: Self) -> (r: Self)
        requires
            self.wf(),
            other.wf(),
            self.size == other.size,
            forall|i: int, j: int| 0 <= i < self.size && 0 <= j < self.size ==> fits(self@[i][j] + #[trigger] other@[i][j]),
        ensures
            r.wf(),
            r.size == self.size,
            forall|i: int, j: int| 0 <= i < self.size && 0 <= j < self.size ==> #[trigger] r@[i][j] == self@[i][j] + other@[i][j],
    {
        let mut result = Self::zero(self.size);
        let mut i: usize = 0;
        while i < self.size
            invariant
                self.wf(),
                other.wf(),
                result.wf(),
                self.size == other.size == result.size,
                i <= self.size,
                forall|x: int, y: int| 0 <= x < self.size && 0 <= y < self.size ==> fits(self@[x][y] + #[trigger] other@[x][y]),
                forall|x: int, y: int| 0 <= x < self.size && 0 <= y < self.size ==> #[trigger] result@[x][y] == if x < i {
                    self@[x][y] + other@[x][y]
                } else {
                    0
                },
            decreases self.size - i,
        {
            let mut j: usize = 0;
            while j < self.size
                invariant
                    self.wf(),
                    other.wf(),
                    result.wf(),
                    self.size == other.size == result.size,
                    i < self.size,
                    j <= self.size,
                    forall|x: int, y: int| 0 <= x < self.size && 0 <= y < self.size ==> fits(self@[x][y] + #[trigger] other@[x][y]),
                    forall|x: int, y: int| 0 <= x < self.size && 0 <= y < self.size ==> #[trigger] result@[x][y] == if x < i || (x == i && y < j) {
                        self@[x][y] + other@[x][y]
                    } else {
                        0
                    },
                decreases self.size - j,
            {
                assert(fits(self@[i as int][j as int] + other@[i as int][j as int]));
                let v = self.data[i][j] + other.data[i][j];
                result.set_entry(i, j, v);
                j += 1;
            }
            i += 1;
        }
        result
    }

    fn set_entry(&mut self, i: usize, j: usize, v: i32)
        requires
            old(self).wf(),
            i < old(self).size,
            j < old(self).size,
        ensures
            final(self).wf(),
            final(self).size == old(self).size,
            final(self)@ == old(self)@.update(i as int, old(self)@[i as int].update(j as int, v)),
    {
        self.data[i].set(j, v);
        assert(self@ =~= old(self)@.update(i as int, old(self)@[i as int].update(j as int, v)));
    }
}

/// Every product `a[i][m] * b[m][j]` and every running sum
/// `dot_range(a, b, i, j, 0, k)` of an `n` by `n` product fits in an `i32`.
pub open spec fn prefix_dots_fit(a: Seq<Seq<i32>>, b: Seq<Seq<i32>>, n: int) -> bool {
    forall|i: int, j: int, k: int| 0 <= i < n && 0 <= j < n && 0 <= k < n ==>
        fits(#[trigger] dot_range(a, b, i, j, 0, k + 1)) && fits(a[i][k] * b[k][j])
}

/// The product of two matrices of one size, entry by entry as the sum of
/// `a[i][k] * b[k][j]` over `k`.
pub fn naive_matrix_multiply(matrix_a: &SquareMatrix, matrix_b: &SquareMatrix) -> (r: SquareMatrix)
    requires
        matrix_a.wf(),
        matrix_b.wf(),
        matrix_a.size == matrix_b.size,
        prefix_dots_fit(matrix_a@, matrix_b@, matrix_a.size as int),
    ensures
        r.wf(),
        r.size == matrix_a.size,
        forall|i: int, j: int| 0 <= i < r.size && 0 <= j < r.size ==>
            #[trigger] r@[i][j] == dot_range(matrix_a@, matrix_b@, i, j, 0, r.size as int),
{
    let size = matrix_a.size;
    let ghost (a, b) = (matrix_a@, matrix_b@);
    let mut result = SquareMatrix::zero(size);
    let mut i: usize = 0;
    while i < size
        invariant
            matrix_a.wf() && matrix_b.wf() && result.wf(),
            a == matrix_a@ && b == matrix_b@,
            matrix_a.size == size && matrix_b.size == size && result.size == size,
            prefix_dots_fit(a, b, size as int),
            i <= size,
            forall|x: int, y: int| 0 <= x < size && 0 <= y < size ==> #[trigger] result@[x][y] == if x < i {
                dot_range(a, b, x, y, 0, size as int)
            } else {
                0
            },
        decreases size - i,
    {
        let mut j: usize = 0;
        while j < size
            invariant
                matrix_a.wf() && matrix_b.wf() && result.wf(),
                a == matrix_a@ && b == matrix_b@,
                matrix_a.size == size && matrix_b.size == size && result.size == size,
                prefix_dots_fit(a, b, size as int),
                i < size,
                j <= size,
                forall|x: int, y: int| 0 <= x < size && 0 <= y < size ==> #[trigger] result@[x][y] == if x < i || (x == i && y < j) {
                    dot_range(a, b, x, y, 0, size as int)
                } else {
                    0
                },
            decreases size - j,
        {
            let mut k: usize = 0;
            while k < size
                invariant
                    matrix_a.wf() && matrix_b.wf() && result.wf(),
                    a == matrix_a@ && b == matrix_b@,
                    matrix_a.size == size && matrix_b.size == size && result.size == size,
                    prefix_dots_fit(a, b, size as int),
                    i < size,
                    j < size,
                    k <= size,
                    forall|x: int, y: int| 0 <= x < size && 0 <= y < size ==> #[trigger] result@[x][y] == if x < i || (x == i && y < j) {
                        dot_range(a, b, x, y, 0, size as int)
                    } else if x == i && y == j {
                        dot_range(a, b, x, y, 0, k as int)
                    } else {
                        0
                    },
                decreases size - k,
            {
                let ghost (ii, jj, kk) = (i as int, j as int, k as int);
                assert(fits(dot_range(a, b, ii, jj, 0, kk + 1)) && fits(a[ii][kk] * b[kk][jj]));
                assert(result@[ii][jj] == dot_range(a, b, ii, jj, 0, kk));
                let p = matrix_a.data[i][k] * matrix_b.data[k][j];
                let v = result.data[i][j] + p;
                result.set_entry(i, j, v);
                k += 1;
            }
            j += 1;
        }
        i += 1;
    }
    result
}

/// `n` is a power of two.
pub open spec fn is_pow2(n: int) -> bool
    decreases n,
{
    if n <= 1 {
        n == 1
    } else {
        n % 2 == 0 && is_pow2(n / 2)
    }
}

/// Every sum `dot_range(a, b, i, j, lo, hi)` of an `n` by `n` product over a
/// contiguous range fits in an `i32`.
pub open spec fn dots_fit(a: Seq<Seq<i32>>, b: Seq<Seq<i32>>, n: int) -> bool {
    forall|i: int, j: int, lo: int, hi: int| 0 <= i < n && 0 <= j < n && 0 <= lo <= hi <= n ==>
        fits(#[trigger] dot_range(a, b, i, j, lo, hi))
}

proof fn lemma_dot_split(a: Seq<Seq<i32>>, b: Seq<Seq<i32>>, i: int, j: int, lo: int, mid: int, hi: int)
    requires
        lo <= mid <= hi,
    ensures
        dot_range(a, b, i, j, lo, hi) == dot_range(a, b, i, j, lo, mid) + dot_range(a, b, i, j, mid, hi),
    decreases hi - mid,
{
    if hi > mid {
        lemma_dot_split(a, b, i, j, lo, mid, hi - 1);
    }
}

proof fn lemma_dot_shift(a: Seq<Seq<i32>>, b: Seq<Seq<i32>>, i: int, j: int, a2: Seq<Seq<i32>>, b2: Seq<Seq<i32>>, i2: int, j2: int, o: int, lo: int, hi: int)
    requires
        forall|m: int| lo <= m < hi ==> #[trigger] a2[i2][m] == a[i][m + o] && b2[m][j2] == b[m + o][j],
    ensures
        dot_range(a2, b2, i2, j2, lo, hi) == dot_range(a, b, i, j, lo + o, hi + o),
    decreases hi - lo,
{
    if hi > lo {
        lemma_dot_shift(a, b, i, j, a2, b2, i2, j2, o, lo, hi - 1);
        assert(a2[i2][hi - 1] == a[i][hi - 1 + o]);
    }
}

proof fn lemma_block(a: Seq<Seq<i32>>, b: Seq<Seq<i32>>, a2: Seq<Seq<i32>>, b2: Seq<Seq<i32>>, h: int, oi: int, oj: int, o: int)
    requires
        0 <= oi <= h && 0 <= oj <= h && 0 <= o <= h,
        dots_fit(a, b, 2 * h),
        forall|x: int, m: int| 0 <= x < h && 0 <= m < h ==> #[trigger] a2[x][m] == a[x + oi][m + o],
        forall|m: int, y: int| 0 <= m < h && 0 <= y < h ==> #[trigger] b2[m][y] == b[m + o][y + oj],
    ensures
        dots_fit(a2, b2, h),
        forall|x: int, y: int| 0 <= x < h && 0 <= y < h ==>
            #[trigger] dot_range(a2, b2, x, y, 0, h) == dot_range(a, b, x + oi, y + oj, o, o + h),
{
    assert forall|x: int, y: int, lo: int, hi: int| 0 <= x < h && 0 <= y < h && 0 <= lo <= hi <= h implies
        fits(#[trigger] dot_range(a2, b2, x, y, lo, hi)) by {
        assert forall|m: int| lo <= m < hi implies #[trigger] a2[x][m] == a[x + oi][m + o] && b2[m][y] == b[m + o][y + oj] by {
            assert(a2[x][m] == a[x + oi][m + o]);
            assert(b2[m][y] == b[m + o][y + oj]);
        }
        lemma_dot_shift(a, b, x + oi, y + oj, a2, b2, x, y, o, lo, hi);
        assert(fits(dot_range(a, b, x + oi, y + oj, lo + o, hi + o)));
    }
    assert forall|x: int, y: int| 0 <= x < h && 0 <= y < h implies
        #[trigger] dot_range(a2, b2, x, y, 0, h) == dot_range(a, b, x + oi, y + oj, o, o + h) by {
        assert forall|m: int| 0 <= m < h implies #[trigger] a2[x][m] == a[x + oi][m + o] && b2[m][y] == b[m + o][y + oj] by {
            assert(a2[x][m] == a[x + oi][m + o]);
            assert(b2[m][y] == b[m + o][y + oj]);
        }
        lemma_dot_shift(a, b, x + oi, y + oj, a2, b2, x, y, o, 0, h);
    }
}

/// Adds the product of `matrix_a` and `matrix_b` into `result`, splitting
/// each matrix into quadrants and multiplying those recursively.
pub fn matrix_multiply_recursive(matrix_a: &SquareMatrix, matrix_b: &SquareMatrix, result: &mut SquareMatrix, n: usize)
    requires
        matrix_a.wf() && matrix_b.wf() && old(result).wf(),
        matrix_a.size == n && matrix_b.size == n && old(result).size == n,
        is_pow2(n as int),
        dots_fit(matrix_a@, matrix_b@, n as int),
        forall|i: int, j: int| 0 <= i < n && 0 <= j < n ==>
            fits(#[trigger] old(result)@[i][j] + dot_range(matrix_a@, matrix_b@, i, j, 0, n as int)),
    ensures
        final(result).wf(),
        final(result).size == n,
        forall|i: int, j: int| 0 <= i < n && 0 <= j < n ==>
            #[trigger] final(result)@[i][j] == old(result)@[i][j] + dot_range(matrix_a@, matrix_b@, i, j, 0, n as int),
    decreases n,
{
    let ghost (a, b) = (matrix_a@, matrix_b@);
    if n == 1 {
        assert(dot_range(a, b, 0, 0, 0, 0) == 0);
        assert(dot_range(a, b, 0, 0, 0, 1) == a[0][0] * b[0][0]);
        assert(fits(dot_range(a, b, 0, 0, 0, 1)));
        assert(fits(result@[0][0] + dot_range(a, b, 0, 0, 0, 1)));
        let v = result.data[0][0] + matrix_a.data[0][0] * matrix_b.data[0][0];
        result.set_entry(0, 0, v);
        return;
    }
    let (a11, a12, a21, a22) = matrix_a.split();
    let (b11, b12, b21, b22) = matrix_b.split();
    let half = n / 2;
    let ghost h = half as int;
    assert(2 * h == n);
    let mut c11 = SquareMatrix::zero(half);
    let mut c12 = SquareMatrix::zero(half);
    let mut c21 = SquareMatrix::zero(half);
    let mut c22 = SquareMatrix::zero(half);
    proof {
        lemma_block(a, b, a11@, b11@, h, 0, 0, 0);
        lemma_block(a, b, a12@, b21@, h, 0, 0, h);
        lemma_block(a, b, a11@, b12@, h, 0, h, 0);
        lemma_block(a, b, a12@, b22@, h, 0, h, h);
        lemma_block(a, b, a21@, b11@, h, h, 0, 0);
        lemma_block(a, b, a22@, b21@, h, h, 0, h);
        lemma_block(a, b, a21@, b12@, h, h, h, 0);
        lemma_block(a, b, a22@, b22@, h, h, h, h);
        assert forall|x: int, y: int| 0 <= x < n && 0 <= y < n implies
            dot_range(a, b, x, y, 0, n as int) == dot_range(a, b, x, y, 0, h) + dot_range(a, b, x, y, h, n as int)
            && fits(#[trigger] dot_range(a, b, x, y, 0, h)) by {
            lemma_dot_split(a, b, x, y, 0, h, n as int);
        }
    }
    matrix_multiply_recursive(&a11, &b11, &mut c11, half);
    matrix_multiply_recursive(&a12, &b21, &mut c11, half);
    matrix_multiply_recursive(&a11, &b12, &mut c12, half);
    matrix_multiply_recursive(&a12, &b22, &mut c12, half);
    matrix_multiply_recursive(&a21, &b11, &mut c21, half);
    matrix_multiply_recursive(&a22, &b21, &mut c21, half);
    matrix_multiply_recursive(&a21, &b12, &mut c22, half);
    matrix_multiply_recursive(&a22, &b22, &mut c22, half);
    proof {
        assert forall|x: int, y: int| 0 <= x < n && 0 <= y < n implies
            #[trigger] quadrant(c11@, c12@, c21@, c22@, h, x, y) == dot_range(a, b, x, y, 0, n as int) by {
            lemma_dot_split(a, b, x, y, 0, h, n as int);
        }
    }
    result.merge(&c11, &c12, &c21, &c22);
}

/// Relies on rand's `Rng::gen_range` over an inclusive range, drawn from the
/// thread-local generator: a value in `min..=max`. It panics on an empty
/// range, which `requires` rules out.
#[verifier::external_body]
fn random_in(min: i32, max: i32) -> (r: i32)
    requires
        min <= max,
    ensures
        min <= r <= max,
{
    rand::Rng::gen_range(&mut rand::thread_rng(), min..=max)
}

/// A matrix of the given size with entries drawn at random from `min..=max`.
pub fn generate_random_matrix(size: usize, min: i32, max: i32) -> (r: SquareMatrix)
    requires
        min <= max,
    ensures
        r.wf(),
        r.size == size,
        forall|i: int, j: int| 0 <= i < size && 0 <= j < size ==> min <= #[trigger] r@[i][j] <= max,
{
    let mut data: Vec<Vec<i32>> = Vec::new();
    let mut i: usize = 0;
    while i < size
        invariant
            i <= size,
            min <= max,
            data@.len() == i,
            forall|k: int| 0 <= k < i ==> (#[trigger] data@[k])@.len() == size,
            forall|k: int, j: int| 0 <= k < i && 0 <= j < size ==> min <= #[trigger] data@[k]@[j] <= max,
        decreases size - i,
    {
        let mut row: Vec<i32> = Vec::new();
        let mut j: usize = 0;
        while j < size
            invariant
                j <= size,
                min <= max,
                row@.len() == j,
                forall|x: int| 0 <= x < j ==> min <= #[trigger] row@[x] <= max,
            decreases size - j,
        {
            row.push(random_in(min, max));
            j += 1;
        }
        data.push(row);
        i += 1;
    }
    SquareMatrix::new(size, data)
}

} // verus!
