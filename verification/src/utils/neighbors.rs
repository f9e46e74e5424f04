//! Enumeration of the cells around a grid coordinate.
//!
//! The eight compass directions are numbered 0 to 7 in row-major order:
//! up-left, up, up-right, left, right, down-left, down, down-right.

use vstd::prelude::*;

verus! {

/// Row offset of direction `k`.
pub open spec fn row_offset(k: int) -> int {
    if k < 3 {
        -1
    } else if k < 5 {
        0
    } else {
        1
    }
}

/// Column offset of direction `k`.
pub open spec fn col_offset(k: int) -> int {
    if k == 0 || k == 3 || k == 5 {
        -1
    } else if k == 1 || k == 6 {
        0
    } else {
        1
    }
}

/// `(r, c)` lies inside a grid of `rows` by `cols` cells.
pub open spec fn in_grid(r: int, c: int, rows: int, cols: int) -> bool {
    0 <= r < rows && 0 <= c < cols
}

/// Two distinct coordinates that differ by at most one in each direction.
pub open spec fn adjacent(r1: int, c1: int, r2: int, c2: int) -> bool {
    &&& -1 <= r2 - r1 <= 1
    &&& -1 <= c2 - c1 <= 1
    &&& (r1 != r2 || c1 != c2)
}

/// The direction in which `p` lies from `(x, y)`, for a cell next to it.
pub open spec fn direction_of(x: int, y: int, p: (usize, usize)) -> int {
    let dr = p.0 - x;
    let dc = p.1 - y;
    if dr < 0 {
        dc + 1
    } else if dr == 0 {
        if dc < 0 {
            3
        } else {
            4
        }
    } else {
        dc + 6
    }
}

/// The in-grid cells around `(x, y)` in the directions `k..8`, in direction order.
pub open spec fn neighbors_from(x: int, y: int, rows: int, cols: int, k: int) -> Seq<(usize, usize)>
    decreases 8 - k,
{
    if k < 0 || k >= 8 {
        Seq::empty()
    } else {
        let r = x + row_offset(k);
        let c = y + col_offset(k);
        let rest = neighbors_from(x, y, rows, cols, k + 1);
        if in_grid(r, c, rows, cols) {
            seq![(r as usize, c as usize)] + rest
        } else {
            rest
        }
    }
}

/// All in-grid cells around `(x, y)`, in direction order. The centre is never among them.
pub open spec fn neighbor_seq(x: int, y: int, rows: int, cols: int) -> Seq<(usize, usize)> {
    neighbors_from(x, y, rows, cols, 0)
}

/// The cells around a centre in the directions `k..8` lie in the grid next to the
/// centre, come in strictly increasing direction, and miss no in-grid cell in those directions.
proof fn lemma_neighbors_from(x: int, y: int, rows: int, cols: int, k: int)
    requires
        0 <= k <= 8,
        rows <= usize::MAX,
        cols <= usize::MAX,
    ensures
        neighbors_from(x, y, rows, cols, k).len() <= 8 - k,
        forall|i: int|
            0 <= i < neighbors_from(x, y, rows, cols, k).len() ==> direction_of(
                x,
                y,
                #[trigger] neighbors_from(x, y, rows, cols, k)[i],
            ) >= k && in_grid(
                neighbors_from(x, y, rows, cols, k)[i].0 as int,
                neighbors_from(x, y, rows, cols, k)[i].1 as int,
                rows,
                cols,
            ) && adjacent(
                x,
                y,
                neighbors_from(x, y, rows, cols, k)[i].0 as int,
                neighbors_from(x, y, rows, cols, k)[i].1 as int,
            ),
        forall|i: int, j: int|
            0 <= i < j < neighbors_from(x, y, rows, cols, k).len() ==> direction_of(
                x,
                y,
                #[trigger] neighbors_from(x, y, rows, cols, k)[i],
            ) < direction_of(x, y, #[trigger] neighbors_from(x, y, rows, cols, k)[j]),
        forall|p: (usize, usize)|
            in_grid(p.0 as int, p.1 as int, rows, cols) && adjacent(x, y, p.0 as int, p.1 as int)
                && direction_of(x, y, p) >= k ==> #[trigger] neighbors_from(
                x,
                y,
                rows,
                cols,
                k,
            ).contains(p),
    decreases 8 - k,
{
    if k < 8 {
        lemma_neighbors_from(x, y, rows, cols, k + 1);
        let rest = neighbors_from(x, y, rows, cols, k + 1);
        let s = neighbors_from(x, y, rows, cols, k);
        let r0 = x + row_offset(k);
        let c0 = y + col_offset(k);
        if in_grid(r0, c0, rows, cols) {
            let head = (r0 as usize, c0 as usize);
            assert(s == seq![head] + rest);
            assert(direction_of(x, y, head) == k);
            assert forall|i: int| 0 < i < s.len() implies s[i] == rest[i - 1] by {}
            assert forall|p: (usize, usize)|
                in_grid(p.0 as int, p.1 as int, rows, cols) && adjacent(
                    x,
                    y,
                    p.0 as int,
                    p.1 as int,
                ) && direction_of(x, y, p) >= k implies #[trigger] s.contains(p) by {
                if direction_of(x, y, p) == k {
                    assert(s[0] == p);
                } else {
                    assert(rest.contains(p));
                    let i = choose|i: int| 0 <= i < rest.len() && rest[i] == p;
                    assert(s[i + 1] == p);
                }
            }
        } else {
            assert(s == rest);
            assert forall|p: (usize, usize)|
                in_grid(p.0 as int, p.1 as int, rows, cols) && adjacent(
                    x,
                    y,
                    p.0 as int,
                    p.1 as int,
                ) && direction_of(x, y, p) >= k implies #[trigger] s.contains(p) by {
                assert(direction_of(x, y, p) != k);
            }
        }
    }
}

/// The cells around a centre are exactly the in-grid cells next to it, each listed once.
pub proof fn lemma_neighbor_seq(x: int, y: int, rows: int, cols: int)
    requires
        rows <= usize::MAX,
        cols <= usize::MAX,
    ensures
        neighbor_seq(x, y, rows, cols).len() <= 8,
        neighbor_seq(x, y, rows, cols).no_duplicates(),
        forall|i: int|
            0 <= i < neighbor_seq(x, y, rows, cols).len() ==> in_grid(
                (#[trigger] neighbor_seq(x, y, rows, cols)[i]).0 as int,
                neighbor_seq(x, y, rows, cols)[i].1 as int,
                rows,
                cols,
            ) && adjacent(
                x,
                y,
                neighbor_seq(x, y, rows, cols)[i].0 as int,
                neighbor_seq(x, y, rows, cols)[i].1 as int,
            ),
        forall|p: (usize, usize)|
            in_grid(p.0 as int, p.1 as int, rows, cols) && adjacent(x, y, p.0 as int, p.1 as int)
                ==> #[trigger] neighbor_seq(x, y, rows, cols).contains(p),
{
    lemma_neighbors_from(x, y, rows, cols, 0);
    let s = neighbor_seq(x, y, rows, cols);
    assert forall|i: int, j: int| 0 <= i < s.len() && 0 <= j < s.len() && i != j implies s[i]
        != s[j] by {
        if i < j {
            assert(direction_of(x, y, s[i]) < direction_of(x, y, s[j]));
        } else {
            assert(direction_of(x, y, s[j]) < direction_of(x, y, s[i]));
        }
    }
}

/// An enumeration in progress of the cells around a centre.
pub struct Neighbors {
    x: usize,
    y: usize,
    rows: usize,
    cols: usize,
    index: usize,
}

impl View for Neighbors {
    type V = Seq<(usize, usize)>;

    /// The cells that are still to come.
    closed spec fn view(&self) -> Seq<(usize, usize)> {
        neighbors_from(self.x as int, self.y as int, self.rows as int, self.cols as int, self.index as int)
    }
}

fn row_step(k: usize) -> (d: i8)
    requires
        k < 8,
    ensures
        d == row_offset(k as int),
{
    if k < 3 {
        -1
    } else if k < 5 {
        0
    } else {
        1
    }
}

fn col_step(k: usize) -> (d: i8)
    requires
        k < 8,
    ensures
        d == col_offset(k as int),
{
    if k == 0 || k == 3 || k == 5 {
        -1
    } else if k == 1 || k == 6 {
        0
    } else {
        1
    }
}

/// `v + d` if that lies in `0..bound`.
pub fn shifted(v: usize, d: i8, bound: usize) -> (res: Option<usize>)
    requires
        -1 <= d <= 1,
    ensures
        res == (if 0 <= v + d < bound {
            Some((v + d) as usize)
        } else {
            None
        }),
{
    if d < 0 {
        if v >= 1 && v - 1 < bound {
            Some(v - 1)
        } else {
            None
        }
    } else if d == 0 {
        if v < bound {
            Some(v)
        } else {
            None
        }
    } else {
        if v < bound && v + 1 < bound {
            Some(v + 1)
        } else {
            None
        }
    }
}

impl Neighbors {
    /// Starts the enumeration of the cells around `(x, y)` in a grid of `rows` by `cols`.
    pub fn new(x: usize, y: usize, rows: usize, cols: usize) -> (n: Self)
        ensures
            n@ == neighbor_seq(x as int, y as int, rows as int, cols as int),
    {
        Neighbors { x, y, rows, cols, index: 0 }
    }

    /// Hands out the next cell, or `None` when all have been handed out.
    pub fn next(&mut self) -> (res: Option<(usize, usize)>)
        ensures
            match res {
                Some(p) => old(self)@.len() > 0 && p == old(self)@[0] && final(self)@ == old(
                    self,
                )@.drop_first(),
                None => old(self)@.len() == 0 && final(self)@.len() == 0,
            },
    {
        while self.index < 8
            invariant
                self@ == old(self)@,
                self.x == old(self).x,
                self.y == old(self).y,
                self.rows == old(self).rows,
                self.cols == old(self).cols,
            decreases 8 - self.index,
        {
            let k = self.index;
            let row = shifted(self.x, row_step(k), self.rows);
            let col = shifted(self.y, col_step(k), self.cols);
            self.index = k + 1;
            match (row, col) {
                (Some(r), Some(c)) => {
                    assert(old(self)@ == seq![(r, c)] + self@);
                    assert(old(self)@.drop_first() == self@);
                    return Some((r, c));
                },
                _ => {},
            }
        }
        None
    }

    /// Hands out all remaining cells at once, in order.
    pub fn collect(self) -> (cells: Vec<(usize, usize)>)
        ensures
            cells@ == self@,
    {
        let mut rest = self;
        let mut cells: Vec<(usize, usize)> = Vec::new();
        loop
            invariant
                cells@ + rest@ == self@,
            decreases rest@.len(),
        {
            let ghost before = rest@;
            match rest.next() {
                Some(p) => {
                    cells.push(p);
                    assert(cells@ + rest@ == (cells@.drop_last() + before));
                },
                None => {
                    assert(cells@ + rest@ == cells@);
                    return cells;
                },
            }
        }
    }
}

} // verus!
