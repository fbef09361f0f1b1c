use vstd::prelude::*;

verus! {

/// `number` with its last `k` decimal digits dropped.
pub open spec fn shifted(number: nat, k: nat) -> nat
    decreases k,
{
    if k == 0 {
        number
    } else {
        shifted(number, (k - 1) as nat) / 10
    }
}

/// The digit that `nth_digit` picks: the one `idx` places from the right
/// (counting the last digit as place zero), provided the number reaches at
/// least to place `idx - 1`.
pub open spec fn digit_spec(number: nat, idx: nat) -> Option<nat> {
    if idx >= 1 && shifted(number, (idx - 1) as nat) > 0 {
        Some(shifted(number, idx) % 10)
    } else {
        None
    }
}

pub proof fn lemma_shifted_zero(number: nat, k: nat, m: nat)
    requires
        shifted(number, k) == 0,
        k <= m,
    ensures
        shifted(number, m) == 0,
    decreases m,
{
    if k < m {
        lemma_shifted_zero(number, k, (m - 1) as nat);
    }
}

/// The decimal digit `idx` places from the right, if the number has the
/// digit just below it.
pub fn nth_digit(number: usize, idx: usize) -> (r: Option<usize>)
    ensures
        r == (match digit_spec(number as nat, idx as nat) {
            Some(d) => Some(d as usize),
            None => None,
        }),
{
    if idx == 0 {
        return None;
    }
    let mut n = number;
    let mut i: usize = 1;
    while n > 0
        invariant
            1 <= i <= idx,
            n == shifted(number as nat, (i - 1) as nat),
        decreases n,
    {
        n = n / 10;
        if i == idx {
            return Some(n % 10);
        }
        proof {
            assert(shifted(number as nat, i as nat) == shifted(number as nat, (i - 1) as nat) / 10);
        }
        i = i + 1;
    }
    proof {
        lemma_shifted_zero(number as nat, (i - 1) as nat, (idx - 1) as nat);
    }
    None
}

/// The power level of the fuel cell at zero-based `(x, y)`: the hundreds
/// digit of `((x + 11) * (y + 1) + serial) * (x + 11)`, less five.
pub open spec fn cell_power(serial: nat, x: nat, y: nat) -> int {
    let rack = x + 11;
    let level = ((rack * (y + 1) + serial) * rack) as nat;
    (match digit_spec(level, 2) {
        Some(d) => d as int,
        None => 0,
    }) - 5
}

/// The sum of `column[y]` for `y` in `y0 .. y0 + n`.
pub open spec fn column_sum(column: Seq<i64>, y0: int, n: nat) -> int
    decreases n,
{
    if n == 0 {
        0
    } else {
        column_sum(column, y0, (n - 1) as nat) + column[y0 + n - 1]
    }
}

/// The sum over the `nx` by `ny` square of `grid[x][y]` whose corner is
/// `(x0, y0)`.
pub open spec fn square_sum(grid: Seq<Seq<i64>>, x0: int, y0: int, nx: nat, ny: nat) -> int
    decreases nx,
{
    if nx == 0 {
        0
    } else {
        square_sum(grid, x0, y0, (nx - 1) as nat, ny) + column_sum(grid[x0 + nx - 1], y0, ny)
    }
}

/// A grid whose cells are power levels, each in `-5 ..= 4`.
pub open spec fn levels_grid(grid: Seq<Seq<i64>>, size: nat) -> bool {
    &&& grid.len() == size
    &&& forall|x: int| 0 <= x < size ==> (#[trigger] grid[x]).len() == size
    &&& forall|x: int, y: int| 0 <= x < size && 0 <= y < size ==> -5 <= #[trigger] grid[x][y] <= 4
}

pub proof fn lemma_column_bounds(column: Seq<i64>, y0: int, n: nat)
    requires
        0 <= y0,
        y0 + n <= column.len(),
        forall|y: int| 0 <= y < column.len() ==> -5 <= #[trigger] column[y] <= 4,
    ensures
        -5 * n <= column_sum(column, y0, n) <= 4 * n,
    decreases n,
{
    if n > 0 {
        lemma_column_bounds(column, y0, (n - 1) as nat);
    }
}

pub proof fn lemma_square_bounds(grid: Seq<Seq<i64>>, size: nat, x0: int, y0: int, nx: nat, ny: nat)
    requires
        levels_grid(grid, size),
        0 <= x0,
        0 <= y0,
        x0 + nx <= size,
        y0 + ny <= size,
    ensures
        -5 * nx * ny <= square_sum(grid, x0, y0, nx, ny) <= 4 * nx * ny,
    decreases nx,
{
    if nx > 0 {
        lemma_square_bounds(grid, size, x0, y0, (nx - 1) as nat, ny);
        let col = grid[x0 + nx - 1];
        assert forall|y: int| 0 <= y < col.len() implies -5 <= #[trigger] col[y] <= 4 by {
            assert(grid[x0 + nx - 1][y] == col[y]);
        };
        lemma_column_bounds(col, y0, ny);
        assert(-5 * (nx - 1) * ny - 5 * ny == -5 * nx * ny) by (nonlinear_arith);
        assert(4 * (nx - 1) * ny + 4 * ny == 4 * nx * ny) by (nonlinear_arith);
    }
}

/// Every intermediate power level of a grid of side `size` fits a `usize`:
/// the largest is `((size + 10) * size + serial) * (size + 10)`.
pub open spec fn levels_fit(serial: nat, size: nat) -> bool {
    ((size + 10) * size + serial) * (size + 10) <= usize::MAX
}

/// The total of any `window` by `window` square fits an `i64`.
pub open spec fn sums_fit(window: nat) -> bool {
    5 * window * window <= i64::MAX
}

pub proof fn lemma_sums_fit_smaller(w: nat, v: nat)
    requires
        sums_fit(v),
        w <= v,
    ensures
        sums_fit(w),
{
    assert(5 * w * w <= 5 * v * v) by (nonlinear_arith)
        requires w <= v;
}

/// The total power of the `window` by `window` square whose corner is
/// `location`.
pub fn power(grid: &Vec<Vec<i64>>, location: &(usize, usize), window_size: usize) -> (r: i64)
    requires
        levels_grid(grid@.map(|i, row: Vec<i64>| row@), grid@.len()),
        sums_fit(window_size as nat),
        location.0 + window_size <= grid@.len(),
        location.1 + window_size <= grid@.len(),
    ensures
        r == square_sum(
            grid@.map(|i, row: Vec<i64>| row@),
            location.0 as int,
            location.1 as int,
            window_size as nat,
            window_size as nat,
        ),
{
    let ghost g = grid@.map(|i, row: Vec<i64>| row@);
    let ghost size = grid@.len() as nat;
    let n = grid.len();
    let (x0, y0) = *location;
    let mut total: i64 = 0;
    let mut dx: usize = 0;
    while dx < window_size
        invariant
            g == grid@.map(|i, row: Vec<i64>| row@),
            levels_grid(g, size),
            size == grid@.len(),
            size <= usize::MAX,
            sums_fit(window_size as nat),
            x0 + window_size <= size,
            y0 + window_size <= size,
            dx <= window_size,
            total == square_sum(g, x0 as int, y0 as int, dx as nat, window_size as nat),
        decreases window_size - dx,
    {
        let column = &grid[x0 + dx];
        assert(column@ == g[x0 + dx]);
        let mut col_total: i64 = 0;
        let mut dy: usize = 0;
        while dy < window_size
            invariant
                g == grid@.map(|i, row: Vec<i64>| row@),
                levels_grid(g, size),
                size == grid@.len(),
                size <= usize::MAX,
                sums_fit(window_size as nat),
                x0 + window_size <= size,
                y0 + window_size <= size,
                dx < window_size,
                dy <= window_size,
                column@ == g[x0 + dx],
                col_total == column_sum(g[x0 + dx], y0 as int, dy as nat),
            decreases window_size - dy,
        {
            proof {
                let col = g[x0 + dx];
                assert forall|y: int| 0 <= y < col.len() implies -5 <= #[trigger] col[y] <= 4 by {
                    assert(g[x0 + dx][y] == col[y]);
                };
                lemma_column_bounds(col, y0 as int, dy as nat);
                assert(-5 <= g[x0 + dx][y0 + dy] <= 4);
                assert(5 * window_size <= 5 * window_size * window_size) by (nonlinear_arith)
                    requires window_size >= 1;
            }
            col_total = col_total + column[y0 + dy];
            dy = dy + 1;
        }
        proof {
            lemma_square_bounds(g, size, x0 as int, y0 as int, dx as nat, window_size as nat);
            let col = g[x0 + dx];
            assert forall|y: int| 0 <= y < col.len() implies -5 <= #[trigger] col[y] <= 4 by {
                assert(g[x0 + dx][y] == col[y]);
            };
            lemma_column_bounds(col, y0 as int, window_size as nat);
            assert(-5 * dx * window_size - 5 * window_size >= -5 * window_size * window_size) by (nonlinear_arith)
                requires dx < window_size;
            assert(4 * dx * window_size + 4 * window_size <= 4 * window_size * window_size) by (nonlinear_arith)
                requires dx < window_size;
            assert(-5 * window_size * window_size >= -(5 * window_size * window_size)) by (nonlinear_arith);
            assert(4 * window_size * window_size <= 5 * window_size * window_size) by (nonlinear_arith);
        }
        total = total + col_total;
        dx = dx + 1;
    }
    total
}

/// The fuel grid of side `size` for a serial number, indexed `[x][y]` from
/// zero.
pub fn build_grid(serial: usize, size: usize) -> (r: Vec<Vec<i64>>)
    requires
        levels_fit(serial as nat, size as nat),
    ensures
        r@.len() == size,
        forall|x: int| 0 <= x < size ==> (#[trigger] r@[x])@.len() == size,
        forall|x: int, y: int|
            0 <= x < size && 0 <= y < size ==> #[trigger] r@[x]@[y] == cell_power(serial as nat, x as nat, y as nat),
        levels_grid(r@.map(|i, row: Vec<i64>| row@), size as nat),
{
    let mut grid: Vec<Vec<i64>> = Vec::new();
    let mut x: usize = 0;
    while x < size
        invariant
            levels_fit(serial as nat, size as nat),
            x <= size,
            grid@.len() == x,
            forall|i: int| 0 <= i < x ==> (#[trigger] grid@[i])@.len() == size,
            forall|i: int, y: int|
                0 <= i < x && 0 <= y < size ==> #[trigger] grid@[i]@[y] == cell_power(serial as nat, i as nat, y as nat),
            forall|i: int, y: int|
                0 <= i < x && 0 <= y < size ==> -5 <= #[trigger] grid@[i]@[y] <= 4,
        decreases size - x,
    {
        let mut row: Vec<i64> = Vec::new();
        let mut y: usize = 0;
        while y < size
            invariant
                levels_fit(serial as nat, size as nat),
                x < size,
                y <= size,
                row@.len() == y,
                forall|j: int| 0 <= j < y ==> row@[j] == cell_power(serial as nat, x as nat, j as nat),
                forall|j: int| 0 <= j < y ==> -5 <= #[trigger] row@[j] <= 4,
            decreases size - y,
        {
            proof {
                assert(size + 10 <= ((size + 10) * size + serial) * (size + 10)) by (nonlinear_arith)
                    requires size >= 1;
            }
            let rack_id = x + 1 + 10;
            proof {
                assert(rack_id * (y + 1) <= (size + 10) * size) by (nonlinear_arith)
                    requires rack_id <= size + 10, y + 1 <= size;
                assert((rack_id * (y + 1) + serial) * rack_id <= ((size + 10) * size + serial) * (size + 10)) by (nonlinear_arith)
                    requires rack_id <= size + 10, rack_id * (y + 1) <= (size + 10) * size;
                assert((size + 10) * size + serial <= ((size + 10) * size + serial) * (size + 10)) by (nonlinear_arith);
                assert(rack_id * (y + 1) + serial <= (rack_id * (y + 1) + serial) * rack_id) by (nonlinear_arith)
                    requires rack_id >= 1;
            }
            let interim = (rack_id * (y + 1) + serial) * rack_id;
            let d = match nth_digit(interim, 2) {
                Some(d) => d,
                None => 0,
            };
            row.push(d as i64 - 5);
            y = y + 1;
        }
        grid.push(row);
        proof {
            assert forall|i: int, y: int|
                0 <= i < x + 1 && 0 <= y < size implies #[trigger] grid@[i]@[y] == cell_power(serial as nat, i as nat, y as nat) by {
                if i == x {
                    assert(grid@[i]@ == row@);
                }
            };
            assert forall|i: int, y: int|
                0 <= i < x + 1 && 0 <= y < size implies -5 <= #[trigger] grid@[i]@[y] <= 4 by {
                if i == x {
                    assert(grid@[i]@ == row@);
                    assert(-5 <= row@[y] <= 4);
                }
            };
        }
        x = x + 1;
    }
    proof {
        let g = grid@.map(|i, row: Vec<i64>| row@);
        assert forall|i: int, y: int| 0 <= i < size && 0 <= y < size implies -5 <= #[trigger] g[i][y] <= 4 by {
            assert(g[i] == grid@[i]@);
            assert(-5 <= grid@[i]@[y] <= 4);
        };
    }
    grid
}

/// `(x, y)` with power `p` is the best square of side `window` among
/// corners `0 .. limit` in both coordinates, scanning `x` then `y` and
/// keeping the last of equal maxima.
pub open spec fn best_corner(
    grid: Seq<Seq<i64>>,
    limit: nat,
    window: nat,
    x: int,
    y: int,
    p: int,
) -> bool {
    &&& 0 <= x < limit
    &&& 0 <= y < limit
    &&& p == square_sum(grid, x, y, window, window)
    &&& forall|a: int, b: int|
        0 <= a < limit && 0 <= b < limit ==> #[trigger] square_sum(grid, a, b, window, window) <= p
    &&& forall|a: int, b: int|
        0 <= a < limit && 0 <= b < limit && (a > x || (a == x && b > y)) ==> #[trigger] square_sum(
            grid,
            a,
            b,
            window,
            window,
        ) < p
}

/// The strongest square of side `window` with its corner in `0 .. limit`:
/// its power and corner.
pub fn best_square(grid: &Vec<Vec<i64>>, limit: usize, window: usize) -> (r: (i64, usize, usize))
    requires
        levels_grid(grid@.map(|i, row: Vec<i64>| row@), grid@.len()),
        sums_fit(window as nat),
        0 < limit,
        limit + window <= grid@.len(),
    ensures
        best_corner(grid@.map(|i, row: Vec<i64>| row@), limit as nat, window as nat, r.1 as int, r.2 as int, r.0 as int),
{
    let ghost g = grid@.map(|i, row: Vec<i64>| row@);
    let mut best: (i64, usize, usize) = (power(grid, &(0, 0), window), 0, 0);
    let mut x: usize = 0;
    while x < limit
        invariant
            g == grid@.map(|i, row: Vec<i64>| row@),
            levels_grid(g, grid@.len()),
            sums_fit(window as nat),
            0 < limit,
            limit + window <= grid@.len(),
            x <= limit,
            best.1 < limit,
            best.2 < limit,
            best.0 == square_sum(g, best.1 as int, best.2 as int, window as nat, window as nat),
            forall|a: int, b: int|
                0 <= a < x && 0 <= b < limit ==> #[trigger] square_sum(g, a, b, window as nat, window as nat) <= best.0,
            forall|a: int, b: int|
                0 <= a < x && 0 <= b < limit && (a > best.1 || (a == best.1 && b > best.2)) ==> #[trigger] square_sum(
                    g, a, b, window as nat, window as nat) < best.0,
            x == 0 ==> best.1 == 0 && best.2 == 0,
            x > 0 ==> best.1 < x,
        decreases limit - x,
    {
        let mut y: usize = 0;
        while y < limit
            invariant
                g == grid@.map(|i, row: Vec<i64>| row@),
                levels_grid(g, grid@.len()),
                sums_fit(window as nat),
                0 < limit,
                limit + window <= grid@.len(),
                x < limit,
                y <= limit,
                best.1 < limit,
                best.2 < limit,
                best.0 == square_sum(g, best.1 as int, best.2 as int, window as nat, window as nat),
                forall|a: int, b: int|
                    ((0 <= a < x && 0 <= b < limit) || (a == x && 0 <= b < y)) ==> #[trigger] square_sum(g, a, b, window as nat, window as nat) <= best.0,
                forall|a: int, b: int|
                    ((0 <= a < x && 0 <= b < limit) || (a == x && 0 <= b < y)) && (a > best.1 || (a == best.1 && b > best.2)) ==> #[trigger] square_sum(
                        g, a, b, window as nat, window as nat) < best.0,
                best.1 < x || (best.1 == x && best.2 < y) || (x == 0 && y == 0 && best.1 == 0 && best.2 == 0),
            decreases limit - y,
        {
            let p = power(grid, &(x, y), window);
            if p >= best.0 {
                best = (p, x, y);
            }
            y = y + 1;
        }
        x = x + 1;
    }
    best
}

/// The one-based corner of the strongest `window` square, corners taken
/// from `0 .. size - window`.
pub fn star_one(serial: usize, size: usize, window: usize) -> (r: (usize, usize))
    requires
        levels_fit(serial as nat, size as nat),
        sums_fit(window as nat),
        window < size,
    ensures
        best_corner(
            build_grid_spec(serial as nat, size as nat),
            (size - window) as nat,
            window as nat,
            r.0 - 1,
            r.1 - 1,
            square_sum(build_grid_spec(serial as nat, size as nat), r.0 - 1, r.1 - 1, window as nat, window as nat),
        ),
{
    let grid = build_grid(serial, size);
    proof {
        lemma_grid_is_spec(&grid, serial, size);
    }
    let (_, x, y) = best_square(&grid, size - window, window);
    (x + 1, y + 1)
}

proof fn lemma_grid_is_spec(grid: &Vec<Vec<i64>>, serial: usize, size: usize)
    requires
        grid@.len() == size,
        forall|x: int| 0 <= x < size ==> (#[trigger] grid@[x])@.len() == size,
        forall|x: int, y: int|
            0 <= x < size && 0 <= y < size ==> #[trigger] grid@[x]@[y] == cell_power(serial as nat, x as nat, y as nat),
    ensures
        grid@.map(|i, row: Vec<i64>| row@) == build_grid_spec(serial as nat, size as nat),
{
    let g = grid@.map(|i, row: Vec<i64>| row@);
    let s = build_grid_spec(serial as nat, size as nat);
    assert forall|x: int| 0 <= x < size implies #[trigger] g[x] == s[x] by {
        assert forall|y: int| 0 <= y < size implies #[trigger] g[x][y] == s[x][y] by {
            assert(g[x][y] == grid@[x]@[y]);
        };
        assert(g[x] =~= s[x]);
    };
    assert(g =~= s);
}

/// The fuel grid as a sequence of columns.
pub open spec fn build_grid_spec(serial: nat, size: nat) -> Seq<Seq<i64>> {
    Seq::new(size, |x: int| Seq::new(size, |y: int| cell_power(serial, x as nat, y as nat) as i64))
}

/// The one-based corner and side of the strongest square of any side below
/// `size`, keeping the last of equal maxima.
pub fn star_two(serial: usize, size: usize) -> (r: (usize, usize, usize))
    requires
        levels_fit(serial as nat, size as nat),
        sums_fit(size as nat),
        0 < size,
    ensures
        r.2 < size,
        best_corner(
            build_grid_spec(serial as nat, size as nat),
            (size - r.2) as nat,
            r.2 as nat,
            r.0 - 1,
            r.1 - 1,
            square_sum(build_grid_spec(serial as nat, size as nat), r.0 - 1, r.1 - 1, r.2 as nat, r.2 as nat),
        ),
{
    let grid = build_grid(serial, size);
    let ghost g = grid@.map(|i, row: Vec<i64>| row@);
    proof {
        lemma_grid_is_spec(&grid, serial, size);
    }
    proof {
        lemma_sums_fit_smaller(0, size as nat);
    }
    let mut best = best_square(&grid, size, 0);
    let mut best_window: usize = 0;
    let mut window: usize = 1;
    while window < size
        invariant
            g == grid@.map(|i, row: Vec<i64>| row@),
            g == build_grid_spec(serial as nat, size as nat),
            levels_grid(g, size as nat),
            grid@.len() == size,
            sums_fit(size as nat),
            1 <= window <= size,
            best_window < size,
            best_corner(g, (size - best_window) as nat, best_window as nat, best.1 as int, best.2 as int, best.0 as int),
        decreases size - window,
    {
        proof {
            lemma_sums_fit_smaller(window as nat, size as nat);
        }
        let candidate = best_square(&grid, size - window, window);
        if candidate.0 >= best.0 {
            best = candidate;
            best_window = window;
        }
        window = window + 1;
    }
    (best.1 + 1, best.2 + 1, best_window)
}

} // verus!
