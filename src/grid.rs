//! Coordinate mapping between (column, row) positions and flat indices.
use vstd::arithmetic::div_mod::{lemma_fundamental_div_mod, lemma_fundamental_div_mod_converse};
use vstd::prelude::*;

verus! {

/// Flat index of position `(x, y)` on a board `w` columns wide.
pub open spec fn index_of(x: int, y: int, w: int) -> int {
    x + y * w
}

/// Column of flat index `i` on a board `w` columns wide.
pub open spec fn col_of(i: int, w: int) -> int {
    i % w
}

/// Row of flat index `i` on a board `w` columns wide.
pub open spec fn row_of(i: int, w: int) -> int {
    i / w
}

/// Index of `(x, y)`, for `x < width` (row-major order).
pub fn to_index(x: usize, y: usize, width: usize) -> (r: usize)
    requires
        x < width,
        x + y * width <= usize::MAX,
    ensures
        r == index_of(x as int, y as int, width as int),
{
    x + y * width
}

/// Position `(index % width, index / width)` of a flat index.
pub fn to_pos(index: usize, width: usize) -> (r: (usize, usize))
    requires
        width > 0,
    ensures
        r.0 == col_of(index as int, width as int),
        r.1 == row_of(index as int, width as int),
{
    (index % width, index / width)
}

/// Mapping a valid position to its index and back gives the position again.
pub proof fn lemma_round_trip(x: int, y: int, w: int)
    requires
        0 <= x < w,
        0 <= y,
    ensures
        col_of(index_of(x, y, w), w) == x,
        row_of(index_of(x, y, w), w) == y,
{
    lemma_fundamental_div_mod_converse(index_of(x, y, w), w, y, x);
}

/// Cells `i` and `j` of a `w` by `h` board are distinct and touch,
/// horizontally, vertically or diagonally.
pub open spec fn adjacent(i: int, j: int, w: int, h: int) -> bool {
    &&& 0 <= i < w * h
    &&& 0 <= j < w * h
    &&& i != j
    &&& -1 <= col_of(j, w) - col_of(i, w) <= 1
    &&& -1 <= row_of(j, w) - row_of(i, w) <= 1
}

/// Number of coordinates within one step of `c` (itself included) in `0..n`.
pub open spec fn span(c: int, n: int) -> int {
    (if c > 0 { 1int } else { 0int }) + 1 + (if c + 1 < n { 1int } else { 0int })
}

/// Number of in-bounds neighbours of `(x, y)` on a `w` by `h` board.
pub open spec fn neighbor_count(x: int, y: int, w: int, h: int) -> int {
    span(x, w) * span(y, h) - 1
}

/// An in-bounds position has an index below `w * h`.
pub proof fn lemma_index_in_range(x: int, y: int, w: int, h: int)
    requires
        0 <= x < w,
        0 <= y < h,
    ensures
        0 <= index_of(x, y, w) < w * h,
{
    assert(0 <= x + y * w < w * h) by (nonlinear_arith)
        requires
            0 <= x < w,
            0 <= y < h,
    ;
}

/// The fundamental property of division, with the row first.
proof fn lemma_row_in_range(j: int, w: int, h: int)
    requires
        0 <= j,
        0 < w,
    ensures
        j == col_of(j, w) + row_of(j, w) * w,
        j < w * h ==> row_of(j, w) < h,
{
    lemma_fundamental_div_mod(j, w);
    let q = j / w;
    let m = j % w;
    assert(w * q == q * w) by (nonlinear_arith);
    if j < w * h {
        assert(q < h) by (nonlinear_arith)
            requires
                j == q * w + m,
                0 <= m,
                j < w * h,
                0 < w,
        ;
    }
}

/// Indices of the in-bounds neighbours of `(x, y)`, in increasing order.
pub fn neighbors(x: usize, y: usize, width: usize, height: usize) -> (r: Vec<usize>)
    requires
        x < width,
        y < height,
        width * height <= usize::MAX,
    ensures
        forall|j: usize| #[trigger]
            r@.contains(j) <==> adjacent(index_of(x as int, y as int, width as int), j as int, width as int, height as int),
        forall|a: int, b: int| 0 <= a < b < r.len() ==> r@[a] < r@[b],
        r.len() == neighbor_count(x as int, y as int, width as int, height as int),
{
    let ghost w = width as int;
    let ghost h = height as int;
    let ghost i = index_of(x as int, y as int, w);
    proof {
        lemma_round_trip(x as int, y as int, w);
        lemma_index_in_range(x as int, y as int, w, h);
        assert forall|j: usize| j == col_of(j as int, w) + row_of(j as int, w) * w by {
            lemma_fundamental_div_mod(j as int, w);
            lemma_row_in_range(j as int, w, h);
        }
    }
    let x0: usize = if x > 0 { x - 1 } else { x };
    let x1: usize = if x + 1 < width { x + 1 } else { x };
    let y0: usize = if y > 0 { y - 1 } else { y };
    let y1: usize = if y + 1 < height { y + 1 } else { y };
    let ghost sx = x1 - x0 + 1;
    assert(sx == span(x as int, w));
    let mut r: Vec<usize> = Vec::new();
    let mut ny: usize = y0;
    while ny <= y1
        invariant
            y0 <= ny <= y1 + 1,
            y1 < height,
            x0 <= x <= x1 < width,
            y0 <= y <= y1,
            x0 + 1 >= x,
            x1 <= x + 1,
            y0 + 1 >= y,
            y1 <= y + 1,
            x0 == 0 || x0 + 1 == x,
            y0 == 0 || y0 + 1 == y,
            x1 + 1 == width || x1 == x + 1,
            y1 + 1 == height || y1 == y + 1,
            w == width,
            h == height,
            w * h <= usize::MAX,
            i == index_of(x as int, y as int, w),
            col_of(i, w) == x,
            row_of(i, w) == y,
            0 <= i < w * h,
            sx == x1 - x0 + 1,
            forall|j: usize| j == col_of(j as int, w) + row_of(j as int, w) * w,
            forall|j: usize| #[trigger]
                r@.contains(j) <==> (adjacent(i, j as int, w, h) && row_of(j as int, w) < ny),
            forall|a: int, b: int| 0 <= a < b < r.len() ==> r@[a] < r@[b],
            forall|k: int| 0 <= k < r.len() ==> r@[k] < index_of(x0 as int, ny as int, w),
            r.len() == (ny - y0) * sx - (if ny > y { 1int } else { 0int }),
        decreases y1 + 1 - ny,
    {
        let mut nx: usize = x0;
        while nx <= x1
            invariant
                y0 <= ny <= y1,
                y1 < height,
                x0 <= nx <= x1 + 1,
                x0 <= x <= x1 < width,
                y0 <= y <= y1,
                x0 + 1 >= x,
                x1 <= x + 1,
                y0 + 1 >= y,
                y1 <= y + 1,
                x0 == 0 || x0 + 1 == x,
                x1 + 1 == width || x1 == x + 1,
                w == width,
                h == height,
                w * h <= usize::MAX,
                i == index_of(x as int, y as int, w),
                col_of(i, w) == x,
                row_of(i, w) == y,
                0 <= i < w * h,
                sx == x1 - x0 + 1,
                forall|j: usize| j == col_of(j as int, w) + row_of(j as int, w) * w,
                forall|j: usize| #[trigger]
                    r@.contains(j) <==> (adjacent(i, j as int, w, h) && (row_of(j as int, w) < ny
                        || (row_of(j as int, w) == ny && col_of(j as int, w) < nx))),
                forall|a: int, b: int| 0 <= a < b < r.len() ==> r@[a] < r@[b],
                forall|k: int| 0 <= k < r.len() ==> r@[k] < index_of(nx as int, ny as int, w),
                r.len() == (ny - y0) * sx + (nx - x0) - (if ny > y || (ny == y && nx > x) { 1int } else { 0int }),
            decreases x1 + 1 - nx,
        {
            proof {
                lemma_index_in_range(nx as int, ny as int, w, h);
                lemma_round_trip(nx as int, ny as int, w);
            }
            let ghost old_r = r@;
            if nx != x || ny != y {
                let jn = nx + ny * width;
                r.push(jn);
                proof {
                    assert forall|j: usize| #[trigger] r@.contains(j) <==> (adjacent(i, j as int, w, h) && (
                        row_of(j as int, w) < ny || (row_of(j as int, w) == ny && col_of(j as int, w) < nx + 1))) by {
                        if j == jn {
                            assert(r@[r.len() - 1] == j);
                        }
                        if r@.contains(j) && j != jn {
                            assert(old_r.contains(j)) by {
                                let k = choose|k: int| 0 <= k < r.len() && r@[k] == j;
                                assert(old_r[k] == j);
                            }
                        }
                        if old_r.contains(j) {
                            let k = choose|k: int| 0 <= k < old_r.len() && old_r[k] == j;
                            assert(r@[k] == j);
                        }
                    }
                }
            } else {
                proof {
                    assert forall|j: usize| #[trigger] r@.contains(j) <==> (adjacent(i, j as int, w, h) && (
                        row_of(j as int, w) < ny || (row_of(j as int, w) == ny && col_of(j as int, w) < nx + 1))) by {
                    }
                }
            }
            nx = nx + 1;
        }
        proof {
            assert((ny - y0) * sx + sx == (ny + 1 - y0) * sx) by (nonlinear_arith);
            assert(index_of(x1 as int + 1, ny as int, w) <= index_of(x0 as int, ny as int + 1, w)) by (nonlinear_arith)
                requires
                    x1 < w,
            ;
        }
        ny = ny + 1;
    }
    proof {
        assert forall|j: usize| adjacent(i, j as int, w, h) implies row_of(j as int, w) < h by {
            lemma_row_in_range(j as int, w, h);
        }
        assert(r.len() == (y1 - y0 + 1) * sx - 1);
        let sy = y1 - y0 + 1;
        assert(sy == span(y as int, h));
        assert(sy * sx == sx * sy) by (nonlinear_arith);
    }
    r
}

/// Interior cells have eight neighbours and no others do; on a board at
/// least two cells wide and high, corners have three and the other border
/// cells five.
pub proof fn lemma_neighbor_count(x: int, y: int, w: int, h: int)
    requires
        0 <= x < w,
        0 <= y < h,
    ensures
        neighbor_count(x, y, w, h) == 8 <==> (0 < x < w - 1 && 0 < y < h - 1),
        w >= 2 && h >= 2 && (x == 0 || x == w - 1) && (y == 0 || y == h - 1)
            ==> neighbor_count(x, y, w, h) == 3,
        w >= 2 && h >= 2 && ((x == 0 || x == w - 1) != (y == 0 || y == h - 1))
            ==> neighbor_count(x, y, w, h) == 5,
{
    let a = span(x, w);
    let b = span(y, h);
    assert(a * b == 9 <==> (a == 3 && b == 3)) by (nonlinear_arith)
        requires
            1 <= a <= 3,
            1 <= b <= 3,
    ;
    assert((a == 2 && b == 2 ==> a * b == 4) && ((a == 2 && b == 3) || (a == 3 && b == 2) ==> a * b
        == 6)) by (nonlinear_arith);
}

} // verus!
