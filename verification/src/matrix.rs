//! Dense matrices of binary64 values, stored row by row.

use crate::binary64::addition::{difference, minus, plus, sum};
use crate::binary64::conversion::{from_count, from_integer};
use crate::binary64::division::{divide, quotient};
use crate::binary64::multiplication::{product, times};
use crate::binary64::root::{sqrt, square_root};
use crate::binary64::{at_least_zero, check_at_least_zero, check_zero, is_finite, is_zero, ZERO};
use crate::error::Error;
use vstd::prelude::*;

verus! {

/// The leak coefficient of the activation, `0.25`.
pub const LEAK: u64 = 0x3fd0_0000_0000_0000;

/// A `rows × columns` matrix. Each entry is the bit pattern of a binary64.
#[derive(Clone, Debug)]
pub struct Matrix {
    pub value: Vec<Vec<u64>>,
    pub rows: usize,
    pub columns: usize,
}

/// Whether `grid` has `rows` rows of `columns` entries each.
pub open spec fn has_shape(grid: Seq<Seq<u64>>, rows: nat, columns: nat) -> bool {
    &&& grid.len() == rows
    &&& forall|i: int| 0 <= i < rows ==> (#[trigger] grid[i]).len() == columns
}

/// The entries that a vector of rows holds, row by row.
pub open spec fn grid_view(rows: Seq<Vec<u64>>) -> Seq<Seq<u64>> {
    Seq::new(rows.len(), |i: int| rows[i]@)
}

impl View for Matrix {
    type V = Seq<Seq<u64>>;

    /// The entries, row by row.
    open spec fn view(&self) -> Seq<Seq<u64>> {
        grid_view(self.value@)
    }
}

impl Matrix {
    /// The stored rows agree with the declared shape.
    pub open spec fn wf(&self) -> bool {
        has_shape(self@, self.rows as nat, self.columns as nat)
    }

    /// Same shape and same entries.
    pub open spec fn same_as(&self, other: &Matrix) -> bool {
        &&& self.rows == other.rows
        &&& self.columns == other.columns
        &&& self@ == other@
    }
}

/// The grid of `rows × columns` entries that `cell` gives.
pub open spec fn grid_of(rows: nat, columns: nat, cell: spec_fn(int, int) -> u64) -> Seq<Seq<u64>> {
    Seq::new(rows, |i: int| Seq::new(columns, |j: int| cell(i, j)))
}

/// The grid of `rows × columns` entries `+0.0`.
pub open spec fn zero_grid(rows: nat, columns: nat) -> Seq<Seq<u64>> {
    grid_of(rows, columns, |i: int, j: int| ZERO)
}

/// Entry by entry, `a + b`.
pub open spec fn sum_grid(a: Seq<Seq<u64>>, b: Seq<Seq<u64>>) -> Seq<Seq<u64>> {
    Seq::new(a.len(), |i: int| Seq::new(a[i].len(), |j: int| sum(a[i][j], b[i][j])))
}

/// Entry by entry, `a - b`.
pub open spec fn difference_grid(a: Seq<Seq<u64>>, b: Seq<Seq<u64>>) -> Seq<Seq<u64>> {
    Seq::new(a.len(), |i: int| Seq::new(a[i].len(), |j: int| difference(a[i][j], b[i][j])))
}

/// Every entry of `a` times `s`.
pub open spec fn scaled_grid(a: Seq<Seq<u64>>, s: u64) -> Seq<Seq<u64>> {
    Seq::new(a.len(), |i: int| Seq::new(a[i].len(), |j: int| product(a[i][j], s)))
}

/// The leaky rectifier: a value that is at least zero passes unchanged, any
/// other is multiplied by the leak coefficient.
pub open spec fn leaky_with(v: u64, leak: u64) -> u64 {
    if at_least_zero(v) {
        v
    } else {
        product(leak, v)
    }
}

/// The leaky rectifier with the coefficient `LEAK`.
pub open spec fn leaky(v: u64) -> u64 {
    leaky_with(v, LEAK)
}

/// Every entry of `a` through the leaky rectifier of the given coefficient.
pub open spec fn activated_grid_with(a: Seq<Seq<u64>>, leak: u64) -> Seq<Seq<u64>> {
    Seq::new(a.len(), |i: int| Seq::new(a[i].len(), |j: int| leaky_with(a[i][j], leak)))
}

/// Every entry of `a` through the leaky rectifier.
pub open spec fn activated_grid(a: Seq<Seq<u64>>) -> Seq<Seq<u64>> {
    activated_grid_with(a, LEAK)
}

/// The first `k` terms of the dot product of a row of `a` with column `j`
/// of `b`, added from the left onto `+0.0`.
pub open spec fn dot(row: Seq<u64>, b: Seq<Seq<u64>>, j: int, k: nat) -> u64
    decreases k,
{
    if k == 0 {
        ZERO
    } else {
        sum(dot(row, b, j, (k - 1) as nat), product(row[k - 1], b[k - 1][j]))
    }
}

/// The matrix product of `a` with a `b` of `columns` columns.
pub open spec fn product_grid(a: Seq<Seq<u64>>, b: Seq<Seq<u64>>, columns: nat) -> Seq<Seq<u64>> {
    Seq::new(a.len(), |i: int| Seq::new(columns, |j: int| dot(a[i], b, j, b.len())))
}

/// `acc` with the first `n` entries of `row` added to it from the left.
pub open spec fn row_total(acc: u64, row: Seq<u64>, n: nat) -> u64
    decreases n,
{
    if n == 0 {
        acc
    } else {
        sum(row_total(acc, row, (n - 1) as nat), row[n - 1])
    }
}

/// The running total of the entries of the first `rows` rows, taken row by
/// row from `+0.0`.
pub open spec fn grid_total(grid: Seq<Seq<u64>>, rows: nat) -> u64
    decreases rows,
{
    if rows == 0 {
        ZERO
    } else {
        row_total(grid_total(grid, (rows - 1) as nat), grid[rows - 1], grid[rows - 1].len())
    }
}

/// The number of entries of a grid whose rows all have the length of the
/// first.
pub open spec fn entry_count(grid: Seq<Seq<u64>>) -> nat {
    if grid.len() == 0 {
        0
    } else {
        grid.len() * grid[0].len()
    }
}

/// The arithmetic mean of all entries.
pub open spec fn mean_of(grid: Seq<Seq<u64>>) -> u64 {
    quotient(grid_total(grid, grid.len()), from_integer(entry_count(grid)))
}

/// The square of the distance of `v` from `center`.
pub open spec fn squared_deviation(v: u64, center: u64) -> u64 {
    product(difference(v, center), difference(v, center))
}

/// `acc` with the squared deviations of the first `n` entries of `row` added
/// to it from the left.
pub open spec fn row_deviation(acc: u64, row: Seq<u64>, n: nat, center: u64) -> u64
    decreases n,
{
    if n == 0 {
        acc
    } else {
        sum(row_deviation(acc, row, (n - 1) as nat, center), squared_deviation(row[n - 1], center))
    }
}

/// The running total of the squared deviations in the first `rows` rows.
pub open spec fn grid_deviation(grid: Seq<Seq<u64>>, rows: nat, center: u64) -> u64
    decreases rows,
{
    if rows == 0 {
        ZERO
    } else {
        row_deviation(
            grid_deviation(grid, (rows - 1) as nat, center),
            grid[rows - 1],
            grid[rows - 1].len(),
            center,
        )
    }
}

/// The population variance about `center`: the mean squared deviation,
/// divided by the number of entries.
pub open spec fn variance_of(grid: Seq<Seq<u64>>, center: u64) -> u64 {
    quotient(grid_deviation(grid, grid.len(), center), from_integer(entry_count(grid)))
}

/// One entry shifted by the mean and, unless the deviation is a zero,
/// divided by it.
pub open spec fn standardized(v: u64, center: u64, deviation: u64) -> u64 {
    if is_zero(deviation) {
        sum(v, difference(ZERO, center))
    } else {
        quotient(sum(v, difference(ZERO, center)), deviation)
    }
}

/// The standard deviation of the entries about their mean.
pub open spec fn deviation_of(grid: Seq<Seq<u64>>) -> u64 {
    square_root(variance_of(grid, mean_of(grid)))
}

/// Every entry standardized by the mean and standard deviation of the grid.
pub open spec fn normalized_grid(a: Seq<Seq<u64>>) -> Seq<Seq<u64>> {
    Seq::new(
        a.len(),
        |i: int| Seq::new(a[i].len(), |j: int| standardized(a[i][j], mean_of(a), deviation_of(a))),
    )
}

/// The grid that holds `draws`, from position `start` on, row by row.
pub open spec fn drawn_grid(rows: nat, columns: nat, draws: Seq<u64>, start: int) -> Seq<Seq<u64>> {
    Seq::new(rows, |i: int| Seq::new(columns, |j: int| draws[start + i * columns + j]))
}

/// A matrix of the given shape filled with `+0.0`.
pub fn new(rows: usize, columns: usize) -> (m: Matrix)
    ensures
        m.wf(),
        m.rows == rows,
        m.columns == columns,
        m@ == zero_grid(rows as nat, columns as nat),
{
    let mut value: Vec<Vec<u64>> = Vec::new();
    let mut i: usize = 0;
    while i < rows
        invariant
            i <= rows,
            value@.len() == i,
            forall|k: int| 0 <= k < i ==> (#[trigger] value@[k])@ == Seq::new(
                columns as nat,
                |j: int| ZERO,
            ),
        decreases rows - i,
    {
        let mut row: Vec<u64> = Vec::new();
        let mut j: usize = 0;
        while j < columns
            invariant
                j <= columns,
                row@.len() == j,
                forall|c: int| 0 <= c < j ==> #[trigger] row@[c] == ZERO,
            decreases columns - j,
        {
            row.push(ZERO);
            j = j + 1;
        }
        assert(row@ =~= Seq::new(columns as nat, |j: int| ZERO));
        value.push(row);
        i = i + 1;
    }
    let m = Matrix { value, rows, columns };
    assert(m@ =~~= zero_grid(rows as nat, columns as nat));
    m
}

/// Replaces every entry of `m` by the given grid of values, which must have
/// the shape of `m`; otherwise `m` is left as it was.
pub fn set_value(m: &mut Matrix, value: Vec<Vec<u64>>) -> (r: Result<(), Error>)
    ensures
        final(m).rows == old(m).rows,
        final(m).columns == old(m).columns,
        has_shape(grid_view(value@), old(m).rows as nat, old(m).columns as nat) ==> r is Ok
            && final(m).wf() && final(m)@ == grid_view(value@),
        !has_shape(grid_view(value@), old(m).rows as nat, old(m).columns as nat) ==> r == Err::<
            (),
            Error,
        >(Error::ShapeMismatch) && *final(m) == *old(m),
{
    if value.len() != m.rows {
        return Err(Error::ShapeMismatch);
    }
    let mut i: usize = 0;
    while i < m.rows
        invariant
            *m == *old(m),
            value@.len() == m.rows,
            i <= m.rows,
            forall|k: int| 0 <= k < i ==> (#[trigger] grid_view(value@)[k]).len() == m.columns,
        decreases m.rows - i,
    {
        if value[i].len() != m.columns {
            assert(grid_view(value@)[i as int].len() != m.columns);
            return Err(Error::ShapeMismatch);
        }
        i = i + 1;
    }
    m.value = value;
    Ok(())
}

/// Whether the stored rows agree with the declared shape.
pub fn is_well_formed(m: &Matrix) -> (r: bool)
    ensures
        r == m.wf(),
{
    if m.value.len() != m.rows {
        return false;
    }
    let mut i: usize = 0;
    while i < m.rows
        invariant
            m.value@.len() == m.rows,
            i <= m.rows,
            forall|k: int| 0 <= k < i ==> (#[trigger] m@[k]).len() == m.columns,
        decreases m.rows - i,
    {
        if m.value[i].len() != m.columns {
            assert(m@[i as int].len() != m.columns);
            return false;
        }
        i = i + 1;
    }
    true
}

/// The entry in row `i` and column `j`.
pub fn entry(m: &Matrix, i: usize, j: usize) -> (v: u64)
    requires
        m.wf(),
        i < m.rows,
        j < m.columns,
    ensures
        v == m@[i as int][j as int],
{
    assert(m@[i as int] == m.value@[i as int]@);
    m.value[i][j]
}

/// The entry-by-entry sum of two matrices of one shape.
pub fn add(a: &Matrix, b: &Matrix) -> (r: Result<Matrix, Error>)
    requires
        a.wf(),
        b.wf(),
    ensures
        a.rows == b.rows && a.columns == b.columns ==> r is Ok && r.unwrap().wf() && r.unwrap().rows
            == a.rows && r.unwrap().columns == a.columns && r.unwrap()@ == sum_grid(a@, b@),
        a.rows != b.rows || a.columns != b.columns ==> r == Err::<Matrix, Error>(
            Error::ShapeMismatch,
        ),
{
    if a.rows != b.rows || a.columns != b.columns {
        return Err(Error::ShapeMismatch);
    }
    let mut value: Vec<Vec<u64>> = Vec::new();
    let mut i: usize = 0;
    while i < a.rows
        invariant
            a.wf(),
            b.wf(),
            a.rows == b.rows,
            a.columns == b.columns,
            i <= a.rows,
            value@.len() == i,
            forall|k: int| 0 <= k < i ==> (#[trigger] value@[k])@ == sum_grid(a@, b@)[k],
        decreases a.rows - i,
    {
        let mut row: Vec<u64> = Vec::new();
        let mut j: usize = 0;
        while j < a.columns
            invariant
                a.wf(),
                b.wf(),
                a.rows == b.rows,
                a.columns == b.columns,
                i < a.rows,
                j <= a.columns,
                row@.len() == j,
                forall|c: int| 0 <= c < j ==> #[trigger] row@[c] == sum(a@[i as int][c], b@[i as int][c]),
            decreases a.columns - j,
        {
            row.push(plus(entry(a, i, j), entry(b, i, j)));
            j = j + 1;
        }
        assert(row@ =~= sum_grid(a@, b@)[i as int]);
        value.push(row);
        i = i + 1;
    }
    let m = Matrix { value, rows: a.rows, columns: a.columns };
    assert(m@ =~= sum_grid(a@, b@));
    Ok(m)
}

/// The entry-by-entry difference of two matrices of one shape.
pub fn subtract(a: &Matrix, b: &Matrix) -> (r: Result<Matrix, Error>)
    requires
        a.wf(),
        b.wf(),
    ensures
        a.rows == b.rows && a.columns == b.columns ==> r is Ok && r.unwrap().wf() && r.unwrap().rows
            == a.rows && r.unwrap().columns == a.columns && r.unwrap()@ == difference_grid(
            a@,
            b@,
        ),
        a.rows != b.rows || a.columns != b.columns ==> r == Err::<Matrix, Error>(
            Error::ShapeMismatch,
        ),
{
    if a.rows != b.rows || a.columns != b.columns {
        return Err(Error::ShapeMismatch);
    }
    let mut value: Vec<Vec<u64>> = Vec::new();
    let mut i: usize = 0;
    while i < a.rows
        invariant
            a.wf(),
            b.wf(),
            a.rows == b.rows,
            a.columns == b.columns,
            i <= a.rows,
            value@.len() == i,
            forall|k: int| 0 <= k < i ==> (#[trigger] value@[k])@ == difference_grid(a@, b@)[k],
        decreases a.rows - i,
    {
        let mut row: Vec<u64> = Vec::new();
        let mut j: usize = 0;
        while j < a.columns
            invariant
                a.wf(),
                b.wf(),
                a.rows == b.rows,
                a.columns == b.columns,
                i < a.rows,
                j <= a.columns,
                row@.len() == j,
                forall|c: int| 0 <= c < j ==> #[trigger] row@[c] == difference(
                    a@[i as int][c],
                    b@[i as int][c],
                ),
            decreases a.columns - j,
        {
            row.push(minus(entry(a, i, j), entry(b, i, j)));
            j = j + 1;
        }
        assert(row@ =~= difference_grid(a@, b@)[i as int]);
        value.push(row);
        i = i + 1;
    }
    let m = Matrix { value, rows: a.rows, columns: a.columns };
    assert(m@ =~= difference_grid(a@, b@));
    Ok(m)
}

/// Every entry of `a` multiplied by `s`.
pub fn scalar(a: &Matrix, s: u64) -> (m: Matrix)
    requires
        a.wf(),
    ensures
        m.wf(),
        m.rows == a.rows,
        m.columns == a.columns,
        m@ == scaled_grid(a@, s),
{
    let mut value: Vec<Vec<u64>> = Vec::new();
    let mut i: usize = 0;
    while i < a.rows
        invariant
            a.wf(),
            i <= a.rows,
            value@.len() == i,
            forall|k: int| 0 <= k < i ==> (#[trigger] value@[k])@ == scaled_grid(a@, s)[k],
        decreases a.rows - i,
    {
        let mut row: Vec<u64> = Vec::new();
        let mut j: usize = 0;
        while j < a.columns
            invariant
                a.wf(),
                i < a.rows,
                j <= a.columns,
                row@.len() == j,
                forall|c: int| 0 <= c < j ==> #[trigger] row@[c] == product(a@[i as int][c], s),
            decreases a.columns - j,
        {
            row.push(times(entry(a, i, j), s));
            j = j + 1;
        }
        assert(row@ =~= scaled_grid(a@, s)[i as int]);
        value.push(row);
        i = i + 1;
    }
    let m = Matrix { value, rows: a.rows, columns: a.columns };
    assert(m@ =~= scaled_grid(a@, s));
    m
}

/// Every entry of `a` through the leaky rectifier of the given coefficient.
pub fn activate_with(a: &Matrix, leak: u64) -> (m: Matrix)
    requires
        a.wf(),
    ensures
        m.wf(),
        m.rows == a.rows,
        m.columns == a.columns,
        m@ == activated_grid_with(a@, leak),
{
    let mut value: Vec<Vec<u64>> = Vec::new();
    let mut i: usize = 0;
    while i < a.rows
        invariant
            a.wf(),
            i <= a.rows,
            value@.len() == i,
            forall|k: int|
                0 <= k < i ==> (#[trigger] value@[k])@ == activated_grid_with(a@, leak)[k],
        decreases a.rows - i,
    {
        let mut row: Vec<u64> = Vec::new();
        let mut j: usize = 0;
        while j < a.columns
            invariant
                a.wf(),
                i < a.rows,
                j <= a.columns,
                row@.len() == j,
                forall|c: int|
                    0 <= c < j ==> #[trigger] row@[c] == leaky_with(a@[i as int][c], leak),
            decreases a.columns - j,
        {
            row.push(leaky_relu_with(entry(a, i, j), leak));
            j = j + 1;
        }
        assert(row@ =~= activated_grid_with(a@, leak)[i as int]);
        value.push(row);
        i = i + 1;
    }
    let m = Matrix { value, rows: a.rows, columns: a.columns };
    assert(m@ =~= activated_grid_with(a@, leak));
    m
}

/// Every entry of `a` through the leaky rectifier.
pub fn activate(a: &Matrix) -> (m: Matrix)
    requires
        a.wf(),
    ensures
        m.wf(),
        m.rows == a.rows,
        m.columns == a.columns,
        m@ == activated_grid(a@),
{
    activate_with(a, LEAK)
}

/// The matrix product `a · b`; the number of columns of `a` must be the
/// number of rows of `b`.
pub fn multiply(a: &Matrix, b: &Matrix) -> (r: Result<Matrix, Error>)
    requires
        a.wf(),
        b.wf(),
    ensures
        a.columns == b.rows ==> r is Ok && r.unwrap().wf() && r.unwrap().rows == a.rows
            && r.unwrap().columns == b.columns && r.unwrap()@ == product_grid(
            a@,
            b@,
            b.columns as nat,
        ),
        a.columns != b.rows ==> r == Err::<Matrix, Error>(Error::ShapeMismatch),
{
    if a.columns != b.rows {
        return Err(Error::ShapeMismatch);
    }
    let mut value: Vec<Vec<u64>> = Vec::new();
    let mut i: usize = 0;
    while i < a.rows
        invariant
            a.wf(),
            b.wf(),
            a.columns == b.rows,
            i <= a.rows,
            value@.len() == i,
            forall|k: int|
                0 <= k < i ==> (#[trigger] value@[k])@ == product_grid(a@, b@, b.columns as nat)[k],
        decreases a.rows - i,
    {
        let mut row: Vec<u64> = Vec::new();
        let mut j: usize = 0;
        while j < b.columns
            invariant
                a.wf(),
                b.wf(),
                a.columns == b.rows,
                i < a.rows,
                j <= b.columns,
                row@.len() == j,
                forall|c: int|
                    0 <= c < j ==> #[trigger] row@[c] == dot(a@[i as int], b@, c, b.rows as nat),
            decreases b.columns - j,
        {
            let mut total: u64 = ZERO;
            let mut k: usize = 0;
            while k < a.columns
                invariant
                    a.wf(),
                    b.wf(),
                    a.columns == b.rows,
                    i < a.rows,
                    j < b.columns,
                    k <= a.columns,
                    total == dot(a@[i as int], b@, j as int, k as nat),
                decreases a.columns - k,
            {
                total = plus(total, times(entry(a, i, k), entry(b, k, j)));
                k = k + 1;
            }
            row.push(total);
            j = j + 1;
        }
        assert(row@ =~= product_grid(a@, b@, b.columns as nat)[i as int]);
        value.push(row);
        i = i + 1;
    }
    let m = Matrix { value, rows: a.rows, columns: b.columns };
    assert(m@ =~= product_grid(a@, b@, b.columns as nat));
    Ok(m)
}

/// The number of entries, as a binary64.
fn count_of(m: &Matrix) -> (n: u64)
    requires
        m.wf(),
    ensures
        n == from_integer(entry_count(m@)),
{
    assert(m.rows * m.columns <= 0xffff_ffff_ffff_ffff * 0xffff_ffff_ffff_ffff) by (nonlinear_arith)
        requires
            m.rows <= 0xffff_ffff_ffff_ffff,
            m.columns <= 0xffff_ffff_ffff_ffff,
    ;
    proof {
        if m.rows == 0 {
            assert(m.rows * m.columns == 0) by (nonlinear_arith)
                requires
                    m.rows == 0,
            ;
        } else {
            assert(m@[0].len() == m.columns);
        }
    }
    from_count((m.rows as u128) * (m.columns as u128))
}

/// The arithmetic mean of all entries of a matrix that has at least one.
pub fn mean(m: &Matrix) -> (r: u64)
    requires
        m.wf(),
        m.rows > 0,
        m.columns > 0,
    ensures
        r == mean_of(m@),
{
    let mut total: u64 = ZERO;
    let mut i: usize = 0;
    while i < m.rows
        invariant
            m.wf(),
            i <= m.rows,
            total == grid_total(m@, i as nat),
        decreases m.rows - i,
    {
        let mut j: usize = 0;
        while j < m.columns
            invariant
                m.wf(),
                i < m.rows,
                j <= m.columns,
                total == row_total(grid_total(m@, i as nat), m@[i as int], j as nat),
            decreases m.columns - j,
        {
            total = plus(total, entry(m, i, j));
            j = j + 1;
        }
        i = i + 1;
    }
    divide(total, count_of(m))
}

/// The population variance of the entries about the given mean.
pub fn variance(m: &Matrix, mean: u64) -> (r: u64)
    requires
        m.wf(),
    ensures
        r == variance_of(m@, mean),
{
    let mut total: u64 = ZERO;
    let mut i: usize = 0;
    while i < m.rows
        invariant
            m.wf(),
            i <= m.rows,
            total == grid_deviation(m@, i as nat, mean),
        decreases m.rows - i,
    {
        let mut j: usize = 0;
        while j < m.columns
            invariant
                m.wf(),
                i < m.rows,
                j <= m.columns,
                total == row_deviation(
                    grid_deviation(m@, i as nat, mean),
                    m@[i as int],
                    j as nat,
                    mean,
                ),
            decreases m.columns - j,
        {
            let d: u64 = minus(entry(m, i, j), mean);
            total = plus(total, times(d, d));
            j = j + 1;
        }
        i = i + 1;
    }
    divide(total, count_of(m))
}

/// The entries shifted to mean zero and scaled to unit standard deviation.
/// Where the standard deviation is a zero the entries are only shifted.
pub fn normalize(a: &Matrix) -> (m: Matrix)
    requires
        a.wf(),
        a.rows > 0,
        a.columns > 0,
    ensures
        m.wf(),
        m.rows == a.rows,
        m.columns == a.columns,
        m@ == normalized_grid(a@),
{
    let center: u64 = mean(a);
    let deviation: u64 = sqrt(variance(a, center));
    let shift: u64 = minus(ZERO, center);
    let flat: bool = check_zero(deviation);
    let mut value: Vec<Vec<u64>> = Vec::new();
    let mut i: usize = 0;
    while i < a.rows
        invariant
            a.wf(),
            i <= a.rows,
            center == mean_of(a@),
            deviation == deviation_of(a@),
            shift == difference(ZERO, center),
            flat == is_zero(deviation),
            value@.len() == i,
            forall|k: int| 0 <= k < i ==> (#[trigger] value@[k])@ == normalized_grid(a@)[k],
        decreases a.rows - i,
    {
        let mut row: Vec<u64> = Vec::new();
        let mut j: usize = 0;
        while j < a.columns
            invariant
                a.wf(),
                i < a.rows,
                j <= a.columns,
                shift == difference(ZERO, center),
                flat == is_zero(deviation),
                row@.len() == j,
                forall|c: int|
                    0 <= c < j ==> #[trigger] row@[c] == standardized(
                        a@[i as int][c],
                        center,
                        deviation,
                    ),
            decreases a.columns - j,
        {
            let centered: u64 = plus(entry(a, i, j), shift);
            if flat {
                row.push(centered);
            } else {
                row.push(divide(centered, deviation));
            }
            j = j + 1;
        }
        assert(row@ =~= normalized_grid(a@)[i as int]);
        value.push(row);
        i = i + 1;
    }
    let m = Matrix { value, rows: a.rows, columns: a.columns };
    assert(m@ =~= normalized_grid(a@));
    m
}

/// The matrix that holds `rows · columns` of the draws, from position
/// `start` on, row by row.
pub fn from_draws(rows: usize, columns: usize, draws: &Vec<u64>, start: usize) -> (m: Matrix)
    requires
        start + rows * columns <= draws@.len(),
    ensures
        m.wf(),
        m.rows == rows,
        m.columns == columns,
        m@ == drawn_grid(rows as nat, columns as nat, draws@, start as int),
{
    let mut value: Vec<Vec<u64>> = Vec::new();
    let mut next: usize = start;
    let mut i: usize = 0;
    while i < rows
        invariant
            start + rows * columns <= draws.len(),
            i <= rows,
            next == start + i * columns,
            value@.len() == i,
            forall|k: int|
                0 <= k < i ==> (#[trigger] value@[k])@ == drawn_grid(
                    rows as nat,
                    columns as nat,
                    draws@,
                    start as int,
                )[k],
        decreases rows - i,
    {
        let mut row: Vec<u64> = Vec::new();
        let mut j: usize = 0;
        proof {
            assert((i + 1) * columns <= rows * columns) by (nonlinear_arith)
                requires
                    i + 1 <= rows,
            ;
            assert((i + 1) * columns == i * columns + columns) by (nonlinear_arith);
        }
        while j < columns
            invariant
                start + i * columns + columns <= draws.len(),
                j <= columns,
                next == start + i * columns + j,
                row@.len() == j,
                forall|c: int|
                    0 <= c < j ==> #[trigger] row@[c] == draws@[start + i * columns + c],
            decreases columns - j,
        {
            row.push(draws[next]);
            next = next + 1;
            j = j + 1;
        }
        assert(row@ =~= drawn_grid(rows as nat, columns as nat, draws@, start as int)[i as int]);
        value.push(row);
        i = i + 1;
    }
    let m = Matrix { value, rows, columns };
    assert(m@ =~= drawn_grid(rows as nat, columns as nat, draws@, start as int));
    m
}

/// A matrix filled, row by row, with draws from a standard normal source.
/// The caller supplies the draws, one for each entry.
pub fn new_gaussian_noise(rows: usize, columns: usize, draws: &Vec<u64>) -> (r: Result<
    Matrix,
    Error,
>)
    ensures
        draws@.len() == rows * columns ==> r is Ok && r.unwrap().wf() && r.unwrap().rows == rows
            && r.unwrap().columns == columns && r.unwrap()@ == drawn_grid(
            rows as nat,
            columns as nat,
            draws@,
            0,
        ),
        draws@.len() != rows * columns ==> r == Err::<Matrix, Error>(Error::ShapeMismatch),
{
    assert(rows * columns <= 0xffff_ffff_ffff_ffff * 0xffff_ffff_ffff_ffff) by (nonlinear_arith)
        requires
            rows <= 0xffff_ffff_ffff_ffff,
            columns <= 0xffff_ffff_ffff_ffff,
    ;
    if (rows as u128) * (columns as u128) != draws.len() as u128 {
        return Err(Error::ShapeMismatch);
    }
    Ok(from_draws(rows, columns, draws, 0))
}

/// The leaky rectifier of one value, with the given coefficient.
pub fn leaky_relu_with(v: u64, leak: u64) -> (r: u64)
    ensures
        r == leaky_with(v, leak),
{
    if check_at_least_zero(v) {
        v
    } else {
        times(leak, v)
    }
}

/// The leaky rectifier of one value.
pub fn leaky_relu(v: u64) -> (r: u64)
    ensures
        r == leaky(v),
{
    leaky_relu_with(v, LEAK)
}

/// No entry is negative or a NaN.
pub open spec fn nowhere_negative(grid: Seq<Seq<u64>>) -> bool {
    forall|i: int, j: int|
        0 <= i < grid.len() && 0 <= j < grid[i].len() ==> at_least_zero(#[trigger] grid[i][j])
}

/// No entry is an infinity or a NaN.
pub open spec fn all_finite(grid: Seq<Seq<u64>>) -> bool {
    forall|i: int, j: int|
        0 <= i < grid.len() && 0 <= j < grid[i].len() ==> is_finite(#[trigger] grid[i][j])
}

} // verus!
