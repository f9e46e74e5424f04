//! Rectangular grids held as a vector of rows, and their mathematical view.

use crate::utils::neighbors::{adjacent, in_grid, lemma_neighbor_seq, neighbor_seq, Neighbors};
use crate::utils::Point;
use vstd::prelude::*;

verus! {

/// A grid as a sequence of rows.
pub open spec fn grid_view<T>(g: Vec<Vec<T>>) -> Seq<Seq<T>> {
    Seq::new(g@.len(), |r: int| g@[r]@)
}

/// The grid has `rows` rows of `cols` cells each.
pub open spec fn has_shape<T>(g: Seq<Seq<T>>, rows: int, cols: int) -> bool {
    &&& g.len() == rows
    &&& forall|r: int| 0 <= r < rows ==> (#[trigger] g[r]).len() == cols
}

/// A grid of the given shape that holds `value` everywhere.
pub open spec fn uniform_grid<T>(rows: int, cols: int, value: T) -> Seq<Seq<T>> {
    Seq::new(rows as nat, |r: int| Seq::new(cols as nat, |c: int| value))
}

/// The grid with the cell at `(r, c)` replaced by `value`.
pub open spec fn grid_with<T>(g: Seq<Seq<T>>, r: int, c: int, value: T) -> Seq<Seq<T>> {
    g.update(r, g[r].update(c, value))
}

/// Builds a grid of the given shape that holds `value` everywhere.
pub fn make_grid<T: Copy>(rows: usize, cols: usize, value: T) -> (g: Vec<Vec<T>>)
    ensures
        grid_view(g) == uniform_grid(rows as int, cols as int, value),
{
    let mut g: Vec<Vec<T>> = Vec::new();
    let mut r: usize = 0;
    while r < rows
        invariant
            r <= rows,
            g@.len() == r,
            forall|i: int| 0 <= i < r ==> (#[trigger] g@[i])@ == Seq::new(cols as nat, |c: int| value),
        decreases rows - r,
    {
        let mut row: Vec<T> = Vec::new();
        let mut c: usize = 0;
        while c < cols
            invariant
                c <= cols,
                row@.len() == c,
                forall|j: int| 0 <= j < c ==> #[trigger] row@[j] == value,
            decreases cols - c,
        {
            row.push(value);
            c += 1;
        }
        assert(row@ == Seq::new(cols as nat, |c: int| value));
        g.push(row);
        r += 1;
    }
    assert(grid_view(g) == uniform_grid(rows as int, cols as int, value));
    g
}

/// The marked cells among the first `n` of row `r`, left to right.
pub open spec fn marked_in_row(row: Seq<bool>, r: int, n: int) -> Seq<Point>
    decreases n,
{
    if n <= 0 {
        Seq::empty()
    } else {
        let before = marked_in_row(row, r, n - 1);
        if row[n - 1] {
            before.push(Point { x: r as usize, y: (n - 1) as usize })
        } else {
            before
        }
    }
}

/// The marked cells of the first `n` rows, row by row.
pub open spec fn marked_in_rows(g: Seq<Seq<bool>>, n: int) -> Seq<Point>
    decreases n,
{
    if n <= 0 {
        Seq::empty()
    } else {
        marked_in_rows(g, n - 1) + marked_in_row(g[n - 1], n - 1, g[n - 1].len() as int)
    }
}

/// The marked cells of a grid in row-major order.
pub open spec fn marked_points(g: Seq<Seq<bool>>) -> Seq<Point> {
    marked_in_rows(g, g.len() as int)
}

/// The cell at `p` lies in the grid and is marked.
pub open spec fn is_marked(g: Seq<Seq<bool>>, p: Point) -> bool {
    p.x < g.len() && p.y < g[p.x as int].len() && g[p.x as int][p.y as int]
}

proof fn lemma_marked_in_row(row: Seq<bool>, r: int, n: int)
    requires
        0 <= n <= row.len() <= usize::MAX,
        0 <= r <= usize::MAX,
    ensures
        forall|i: int|
            0 <= i < marked_in_row(row, r, n).len() ==> {
                let p = #[trigger] marked_in_row(row, r, n)[i];
                p.x == r && p.y < n && row[p.y as int]
            },
        forall|i: int, j: int|
            0 <= i < j < marked_in_row(row, r, n).len() ==> (#[trigger] marked_in_row(
                row,
                r,
                n,
            )[i]).y < (#[trigger] marked_in_row(row, r, n)[j]).y,
        forall|p: Point|
            p.x == r && p.y < n && row[p.y as int] ==> #[trigger] marked_in_row(row, r, n).contains(
                p,
            ),
    decreases n,
{
    if n > 0 {
        lemma_marked_in_row(row, r, n - 1);
        let before = marked_in_row(row, r, n - 1);
        let s = marked_in_row(row, r, n);
        if row[n - 1] {
            let last = Point { x: r as usize, y: (n - 1) as usize };
            assert(s == before.push(last));
            assert forall|p: Point| p.x == r && p.y < n && row[p.y as int] implies #[trigger] s.contains(
                p,
            ) by {
                if p.y == n - 1 {
                    assert(s[s.len() - 1] == p);
                } else {
                    assert(before.contains(p));
                    let i = choose|i: int| 0 <= i < before.len() && before[i] == p;
                    assert(s[i] == p);
                }
            }
        } else {
            assert(s == before);
        }
    }
}

proof fn lemma_marked_in_rows(g: Seq<Seq<bool>>, n: int)
    requires
        0 <= n <= g.len() <= usize::MAX,
        forall|r: int| 0 <= r < g.len() ==> (#[trigger] g[r]).len() <= usize::MAX,
    ensures
        forall|i: int|
            0 <= i < marked_in_rows(g, n).len() ==> {
                let p = #[trigger] marked_in_rows(g, n)[i];
                p.x < n && is_marked(g, p)
            },
        forall|i: int, j: int|
            0 <= i < j < marked_in_rows(g, n).len() ==> {
                let p = #[trigger] marked_in_rows(g, n)[i];
                let q = #[trigger] marked_in_rows(g, n)[j];
                p.x < q.x || (p.x == q.x && p.y < q.y)
            },
        forall|p: Point| p.x < n && is_marked(g, p) ==> #[trigger] marked_in_rows(g, n).contains(p),
    decreases n,
{
    if n > 0 {
        lemma_marked_in_rows(g, n - 1);
        lemma_marked_in_row(g[n - 1], n - 1, g[n - 1].len() as int);
        let before = marked_in_rows(g, n - 1);
        let row = marked_in_row(g[n - 1], n - 1, g[n - 1].len() as int);
        let s = marked_in_rows(g, n);
        assert(s == before + row);
        assert forall|i: int| 0 <= i < s.len() implies {
            let p = #[trigger] s[i];
            p.x < n && is_marked(g, p)
        } by {
            if i < before.len() {
                assert(s[i] == before[i]);
            } else {
                assert(s[i] == row[i - before.len()]);
            }
        }
        assert forall|i: int, j: int| 0 <= i < j < s.len() implies {
            let p = #[trigger] s[i];
            let q = #[trigger] s[j];
            p.x < q.x || (p.x == q.x && p.y < q.y)
        } by {
            if j < before.len() {
                assert(s[i] == before[i] && s[j] == before[j]);
            } else if i < before.len() {
                assert(s[i] == before[i] && s[j] == row[j - before.len()]);
            } else {
                assert(s[i] == row[i - before.len()] && s[j] == row[j - before.len()]);
            }
        }
        assert forall|p: Point| p.x < n && is_marked(g, p) implies #[trigger] s.contains(p) by {
            if p.x < n - 1 {
                assert(before.contains(p));
                let i = choose|i: int| 0 <= i < before.len() && before[i] == p;
                assert(s[i] == p);
            } else {
                assert(row.contains(p));
                let i = choose|i: int| 0 <= i < row.len() && row[i] == p;
                assert(s[before.len() + i] == p);
            }
        }
    }
}

/// The row-major listing holds exactly the marked cells of the grid, each once.
pub proof fn lemma_marked_points(g: Seq<Seq<bool>>)
    requires
        g.len() <= usize::MAX,
        forall|r: int| 0 <= r < g.len() ==> (#[trigger] g[r]).len() <= usize::MAX,
    ensures
        marked_points(g).no_duplicates(),
        forall|p: Point| #[trigger] marked_points(g).contains(p) <==> is_marked(g, p),
{
    lemma_marked_in_rows(g, g.len() as int);
    let s = marked_points(g);
    assert forall|i: int, j: int| 0 <= i < s.len() && 0 <= j < s.len() && i != j implies s[i]
        != s[j] by {
        if i < j {
            let p = s[i];
            let q = s[j];
            assert(p.x < q.x || (p.x == q.x && p.y < q.y));
        } else {
            let p = s[j];
            let q = s[i];
            assert(p.x < q.x || (p.x == q.x && p.y < q.y));
        }
    }
    assert forall|p: Point| #[trigger] s.contains(p) implies is_marked(g, p) by {
        let i = choose|i: int| 0 <= i < s.len() && s[i] == p;
        assert(is_marked(g, s[i]));
    }
}

/// Lists the marked cells of a grid in row-major order.
pub fn list_marked(g: &Vec<Vec<bool>>) -> (points: Vec<Point>)
    ensures
        points@ == marked_points(grid_view(*g)),
{
    let ghost gv = grid_view(*g);
    let mut points: Vec<Point> = Vec::new();
    let mut r: usize = 0;
    while r < g.len()
        invariant
            r <= g.len(),
            gv == grid_view(*g),
            points@ == marked_in_rows(gv, r as int),
        decreases g.len() - r,
    {
        let ghost before = points@;
        let row = &g[r];
        assert(row@ == gv[r as int]);
        let mut c: usize = 0;
        while c < row.len()
            invariant
                c <= row.len(),
                row@ == gv[r as int],
                points@ == before + marked_in_row(row@, r as int, c as int),
            decreases row.len() - c,
        {
            if row[c] {
                points.push(Point { x: r, y: c });
            }
            c += 1;
            assert(points@ == before + marked_in_row(row@, r as int, c as int));
        }
        r += 1;
    }
    points
}

} // verus!
verus! {

/// Replaces the cell at `(r, c)`.
pub fn set_cell<T>(g: &mut Vec<Vec<T>>, r: usize, c: usize, value: T)
    requires
        r < grid_view(*old(g)).len(),
        c < grid_view(*old(g))[r as int].len(),
    ensures
        grid_view(*final(g)) == grid_with(grid_view(*old(g)), r as int, c as int, value),
{
    g[r][c] = value;
    assert(grid_view(*g) =~= grid_with(grid_view(*old(g)), r as int, c as int, value));
}

/// A counter moved one step up or down. It stays where it is rather than leave `0..=255`.
pub open spec fn stepped(v: u8, up: bool) -> u8 {
    if up {
        if v < 255 {
            (v + 1) as u8
        } else {
            v
        }
    } else {
        if v > 0 {
            (v - 1) as u8
        } else {
            v
        }
    }
}

/// `p` is among the first `n` entries of `s`.
pub open spec fn listed_before(s: Seq<(usize, usize)>, n: int, p: (usize, usize)) -> bool {
    exists|j: int| 0 <= j < n && j < s.len() && s[j] == p
}

/// Moves the counter of every cell around `(x, y)` one step up or down.
pub fn adjust_around(g: &mut Vec<Vec<u8>>, x: usize, y: usize, rows: usize, cols: usize, up: bool)
    requires
        has_shape(grid_view(*old(g)), rows as int, cols as int),
    ensures
        has_shape(grid_view(*final(g)), rows as int, cols as int),
        forall|r: int, c: int|
            in_grid(r, c, rows as int, cols as int) ==> #[trigger] grid_view(*final(g))[r][c] == (
            if adjacent(x as int, y as int, r, c) {
                stepped(grid_view(*old(g))[r][c], up)
            } else {
                grid_view(*old(g))[r][c]
            }),
{
    let ns = Neighbors::new(x, y, rows, cols).collect();
    let ghost before = grid_view(*g);
    let mut i: usize = 0;
    while i < ns.len()
        invariant
            i <= ns.len(),
            ns@ == neighbor_seq(x as int, y as int, rows as int, cols as int),
            before == grid_view(*old(g)),
            has_shape(before, rows as int, cols as int),
            has_shape(grid_view(*g), rows as int, cols as int),
            forall|r: int, c: int|
                in_grid(r, c, rows as int, cols as int) ==> #[trigger] grid_view(*g)[r][c] == (
                if listed_before(ns@, i as int, (r as usize, c as usize)) {
                    stepped(before[r][c], up)
                } else {
                    before[r][c]
                }),
        decreases ns.len() - i,
    {
        proof {
            lemma_neighbor_seq(x as int, y as int, rows as int, cols as int);
        }
        let (r0, c0) = ns[i];
        assert(in_grid(r0 as int, c0 as int, rows as int, cols as int));
        let ghost cur = grid_view(*g);
        assert(!listed_before(ns@, i as int, (r0, c0))) by {
            if listed_before(ns@, i as int, (r0, c0)) {
                let j = choose|j: int| 0 <= j < i && j < ns@.len() && ns@[j] == (r0, c0);
                assert(ns@[j] != ns@[i as int]);
            }
        }
        assert(cur[r0 as int][c0 as int] == before[r0 as int][c0 as int]);
        let v = g[r0][c0];
        let w = if up {
            if v < 255 {
                v + 1
            } else {
                v
            }
        } else {
            if v > 0 {
                v - 1
            } else {
                v
            }
        };
        set_cell(g, r0, c0, w);
        i += 1;
        assert forall|r: int, c: int| in_grid(r, c, rows as int, cols as int) implies #[trigger] grid_view(
            *g,
        )[r][c] == (if listed_before(ns@, i as int, (r as usize, c as usize)) {
            stepped(before[r][c], up)
        } else {
            before[r][c]
        }) by {
            let p = (r as usize, c as usize);
            if r == r0 && c == c0 {
                assert(ns@[i - 1] == p);
            } else {
                assert(grid_view(*g)[r][c] == cur[r][c]);
                if listed_before(ns@, i as int, p) {
                    let j = choose|j: int| 0 <= j < i && j < ns@.len() && ns@[j] == p;
                    assert(j < i - 1);
                    assert(listed_before(ns@, i - 1, p));
                }
                if listed_before(ns@, i - 1, p) {
                    let j = choose|j: int| 0 <= j < i - 1 && j < ns@.len() && ns@[j] == p;
                    assert(0 <= j < i && ns@[j] == p);
                }
            }
        }
    }
    proof {
        lemma_neighbor_seq(x as int, y as int, rows as int, cols as int);
        assert forall|r: int, c: int| in_grid(r, c, rows as int, cols as int) implies (listed_before(
            ns@,
            ns@.len() as int,
            (r as usize, c as usize),
        ) <==> adjacent(x as int, y as int, r, c)) by {
            let p = (r as usize, c as usize);
            if adjacent(x as int, y as int, r, c) {
                assert(ns@.contains(p));
                let j = choose|j: int| 0 <= j < ns@.len() && ns@[j] == p;
                assert(0 <= j < ns@.len() && ns@[j] == p);
            }
            if listed_before(ns@, ns@.len() as int, p) {
                let j = choose|j: int| 0 <= j < ns@.len() && j < ns@.len() && ns@[j] == p;
                assert(adjacent(x as int, y as int, ns@[j].0 as int, ns@[j].1 as int));
            }
        }
    }
}

/// Whether the grid has `rows` rows of `cols` cells each.
pub fn is_shaped<T>(g: &Vec<Vec<T>>, rows: usize, cols: usize) -> (ok: bool)
    ensures
        ok == has_shape(grid_view(*g), rows as int, cols as int),
{
    if g.len() != rows {
        return false;
    }
    let mut r: usize = 0;
    while r < rows
        invariant
            r <= rows,
            g@.len() == rows,
            forall|i: int| 0 <= i < r ==> (#[trigger] grid_view(*g)[i]).len() == cols,
        decreases rows - r,
    {
        if g[r].len() != cols {
            assert(grid_view(*g)[r as int].len() != cols);
            return false;
        }
        r += 1;
    }
    true
}

/// The grid has at most as many rows, and each row at most as many cells, as a machine
/// word can count.
pub open spec fn is_countable(g: Seq<Seq<bool>>) -> bool {
    &&& g.len() <= usize::MAX
    &&& forall|r: int| 0 <= r < g.len() ==> (#[trigger] g[r]).len() <= usize::MAX
}

/// Two listings without repeats that hold the same points are equally long.
pub proof fn lemma_same_points_same_len(a: Seq<Point>, b: Seq<Point>)
    requires
        a.no_duplicates(),
        b.no_duplicates(),
        forall|p: Point| a.contains(p) <==> b.contains(p),
    ensures
        a.len() == b.len(),
{
    assert(a.to_set() =~= b.to_set());
    a.unique_seq_to_set();
    b.unique_seq_to_set();
}

/// Marking a free cell of a grid makes the marked cells one more.
pub proof fn lemma_mark_one(g: Seq<Seq<bool>>, r: int, c: int)
    requires
        is_countable(g),
        0 <= r < g.len(),
        0 <= c < g[r].len(),
        !g[r][c],
    ensures
        marked_points(grid_with(g, r, c, true)).len() == marked_points(g).len() + 1,
{
    let h = grid_with(g, r, c, true);
    let p = Point { x: r as usize, y: c as usize };
    let a = marked_points(g);
    let b = marked_points(h);
    assert(is_countable(h)) by {
        assert forall|i: int| 0 <= i < h.len() implies (#[trigger] h[i]).len() <= usize::MAX by {
            assert(h[i].len() == g[i].len());
        }
    }
    lemma_marked_points(g);
    lemma_marked_points(h);
    assert(!a.contains(p));
    let ap = a.push(p);
    assert(ap.no_duplicates()) by {
        assert forall|i: int, j: int| 0 <= i < ap.len() && 0 <= j < ap.len() && i != j implies ap[i]
            != ap[j] by {
            if i < a.len() && j < a.len() {
                assert(a[i] != a[j]);
            } else if i < a.len() {
                assert(a.contains(a[i]));
            } else {
                assert(a.contains(a[j]));
            }
        }
    }
    assert forall|q: Point| ap.contains(q) <==> b.contains(q) by {
        if ap.contains(q) {
            let i = choose|i: int| 0 <= i < ap.len() && ap[i] == q;
            if i < a.len() {
                assert(a.contains(q));
                assert(is_marked(g, q));
            }
            assert(is_marked(h, q));
        }
        if b.contains(q) {
            assert(is_marked(h, q));
            if q == p {
                assert(ap[a.len() as int] == q);
            } else {
                assert(is_marked(g, q));
                assert(a.contains(q));
                let i = choose|i: int| 0 <= i < a.len() && a[i] == q;
                assert(ap[i] == q);
            }
        }
    }
    lemma_same_points_same_len(ap, b);
}

/// The grid that marks the cells which `g` leaves free.
pub open spec fn inverted(g: Seq<Seq<bool>>) -> Seq<Seq<bool>> {
    Seq::new(g.len(), |r: int| Seq::new(g[r].len(), |c: int| !g[r][c]))
}

proof fn lemma_row_splits(row: Seq<bool>, other: Seq<bool>, r: int, n: int)
    requires
        0 <= n <= row.len(),
        other.len() == row.len(),
        forall|c: int| 0 <= c < row.len() ==> other[c] == !row[c],
    ensures
        marked_in_row(row, r, n).len() + marked_in_row(other, r, n).len() == n,
    decreases n,
{
    if n > 0 {
        lemma_row_splits(row, other, r, n - 1);
    }
}

proof fn lemma_rows_split(g: Seq<Seq<bool>>, cols: int, n: int)
    requires
        0 <= n <= g.len(),
        0 <= cols,
        forall|r: int| 0 <= r < g.len() ==> (#[trigger] g[r]).len() == cols,
    ensures
        marked_in_rows(g, n).len() + marked_in_rows(inverted(g), n).len() == n * cols,
    decreases n,
{
    if n > 0 {
        lemma_rows_split(g, cols, n - 1);
        lemma_row_splits(g[n - 1], inverted(g)[n - 1], n - 1, cols);
        assert(inverted(g)[n - 1].len() == cols);
        assert(n * cols == (n - 1) * cols + cols) by (nonlinear_arith);
    } else {
        assert(n * cols == 0) by (nonlinear_arith)
            requires
                n == 0,
        ;
    }
}

/// Of the cells of a grid, each is marked or free: the marked and the free cells together
/// are as many as the grid has cells.
pub proof fn lemma_marked_and_free(g: Seq<Seq<bool>>, rows: int, cols: int)
    requires
        has_shape(g, rows, cols),
        0 <= rows,
        0 <= cols,
    ensures
        marked_points(g).len() + marked_points(inverted(g)).len() == rows * cols,
{
    lemma_rows_split(g, cols, rows);
}

/// A grid without a marked cell lists none.
pub proof fn lemma_none_marked(g: Seq<Seq<bool>>)
    requires
        is_countable(g),
        forall|r: int, c: int| 0 <= r < g.len() && 0 <= c < g[r].len() ==> !#[trigger] g[r][c],
    ensures
        marked_points(g).len() == 0,
{
    lemma_marked_points(g);
    let s = marked_points(g);
    if s.len() > 0 {
        assert(s.contains(s[0]));
        assert(is_marked(g, s[0]));
    }
}

} // verus!
