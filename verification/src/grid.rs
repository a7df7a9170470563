//! Mathematical model of a rectangular grid of colors: row-major
//! indexing, 4-connected paths, flood regions, and the per-color cell
//! count that the scoring functions are specified with.
use vstd::prelude::*;

use crate::color::Color;

verus! {

/// Row-major linear index of the cell in column x, row y of a grid of
/// width w.
pub open spec fn idx(w: int, x: int, y: int) -> int {
    y * w + x
}

/// (x, y) is a cell of a w-by-h grid.
pub open spec fn in_bounds(w: int, h: int, x: int, y: int) -> bool {
    0 <= x < w && 0 <= y < h
}

/// The color of the cell in column x, row y of grid g of width w.
pub open spec fn cell(g: Seq<Color>, w: int, x: int, y: int) -> Color {
    g[idx(w, x, y)]
}

/// Two cells are 4-connected neighbors (up, down, left or right; no
/// diagonals).
pub open spec fn adjacent(a: (int, int), b: (int, int)) -> bool {
    ||| (a.0 == b.0 && (a.1 == b.1 + 1 || b.1 == a.1 + 1))
    ||| (a.1 == b.1 && (a.0 == b.0 + 1 || b.0 == a.0 + 1))
}

/// p is a path from s to t through grid g: it stays in bounds, every
/// step joins 4-connected neighbors, and every cell after the start
/// holds color c (the start itself may hold any color).
pub open spec fn is_path(
    g: Seq<Color>,
    w: int,
    h: int,
    c: Color,
    p: Seq<(int, int)>,
    s: (int, int),
    t: (int, int),
) -> bool {
    &&& p.len() >= 1
    &&& p[0] == s
    &&& p[p.len() - 1] == t
    &&& (forall|i: int| 0 <= i < p.len() ==> in_bounds(w, h, (#[trigger] p[i]).0, p[i].1))
    &&& (forall|i: int| 1 <= i < p.len() ==> cell(g, w, (#[trigger] p[i]).0, p[i].1) == c)
    &&& (forall|i: int| 0 <= i < p.len() - 1 ==> adjacent(#[trigger] p[i], p[i + 1]))
}

/// (x, y) belongs to the region flooded from seed (sx, sy) through
/// cells of color c: the seed itself, plus every cell reachable from
/// it through c-colored cells.
pub open spec fn in_region(
    g: Seq<Color>,
    w: int,
    h: int,
    sx: int,
    sy: int,
    c: Color,
    x: int,
    y: int,
) -> bool {
    exists|p: Seq<(int, int)>| is_path(g, w, h, c, p, (sx, sy), (x, y))
}

/// The grid after a flood pass from (sx, sy) with target color c:
/// every region cell is set to the marker, all other cells are
/// untouched.
pub open spec fn marked(g: Seq<Color>, w: int, h: int, sx: int, sy: int, c: Color) -> Seq<Color> {
    Seq::new(
        g.len(),
        |i: int|
            if in_region(g, w, h, sx, sy, c, i % w, i / w) {
                Color::Marker
            } else {
                g[i]
            },
    )
}

/// The grid after a flood_end sweep: every marker cell is set to c,
/// all other cells are untouched.
pub open spec fn swept(g: Seq<Color>, c: Color) -> Seq<Color> {
    Seq::new(
        g.len(),
        |i: int|
            if g[i] == Color::Marker {
                c
            } else {
                g[i]
            },
    )
}

/// "Recolor the region of (x, y) that was color c to new_c": the
/// combined effect of flood followed by flood_end.
pub open spec fn recolored(
    g: Seq<Color>,
    w: int,
    h: int,
    x: int,
    y: int,
    c: Color,
    new_c: Color,
) -> Seq<Color> {
    swept(marked(g, w, h, x, y, c), new_c)
}

/// How many cells of g hold color c.
pub open spec fn count_color(g: Seq<Color>, c: Color) -> nat
    decreases g.len(),
{
    if g.len() == 0 {
        0
    } else {
        count_color(g.drop_last(), c) + (if g.last() == c {
            1nat
        } else {
            0nat
        })
    }
}

/// The grid holds no marker cell; every grid a caller plays on
/// satisfies this between moves.
pub open spec fn no_marker(g: Seq<Color>) -> bool {
    forall|i: int| 0 <= i < g.len() ==> g[i] != Color::Marker
}

/// The linear index of an in-bounds cell lies in the grid, and the
/// column and row are recovered from it by % and /.
pub proof fn lemma_idx(w: int, h: int, x: int, y: int)
    requires
        w >= 1,
        h >= 1,
        in_bounds(w, h, x, y),
    ensures
        0 <= idx(w, x, y) < w * h,
        idx(w, x, y) % w == x,
        idx(w, x, y) / w == y,
{
    assert(0 <= y * w + x < w * h) by (nonlinear_arith)
        requires
            0 <= x < w,
            0 <= y < h,
    ;
    vstd::arithmetic::div_mod::lemma_fundamental_div_mod_converse(y * w + x, w, y, x);
}

/// Every linear index of the grid is the index of an in-bounds cell.
pub proof fn lemma_linear(w: int, h: int, i: int)
    requires
        w >= 1,
        h >= 1,
        0 <= i < w * h,
    ensures
        in_bounds(w, h, i % w, i / w),
        idx(w, i % w, i / w) == i,
{
    vstd::arithmetic::div_mod::lemma_fundamental_div_mod(i, w);
    assert(i == w * (i / w) + i % w);
    assert((i / w) * w == w * (i / w));
    assert(0 <= i % w < w) by (nonlinear_arith)
        requires
            w >= 1,
    ;
    assert(0 <= i / w < h) by (nonlinear_arith)
        requires
            w >= 1,
            0 <= i < w * h,
            i == w * (i / w) + i % w,
            0 <= i % w < w,
    ;
}

/// Distinct in-bounds cells have distinct linear indices.
pub proof fn lemma_idx_injective(w: int, h: int, x1: int, y1: int, x2: int, y2: int)
    requires
        w >= 1,
        h >= 1,
        in_bounds(w, h, x1, y1),
        in_bounds(w, h, x2, y2),
        idx(w, x1, y1) == idx(w, x2, y2),
    ensures
        x1 == x2 && y1 == y2,
{
    lemma_idx(w, h, x1, y1);
    lemma_idx(w, h, x2, y2);
}

/// Writing one in-bounds cell changes that cell and no other.
pub proof fn lemma_cell_update(g: Seq<Color>, w: int, h: int, x: int, y: int, v: Color)
    requires
        w >= 1,
        h >= 1,
        g.len() == w * h,
        in_bounds(w, h, x, y),
    ensures
        forall|x2: int, y2: int|
            in_bounds(w, h, x2, y2) ==> #[trigger] cell(g.update(idx(w, x, y), v), w, x2, y2) == (
            if x2 == x && y2 == y {
                v
            } else {
                cell(g, w, x2, y2)
            }),
{
    lemma_idx(w, h, x, y);
    assert forall|x2: int, y2: int| in_bounds(w, h, x2, y2) implies #[trigger] cell(
        g.update(idx(w, x, y), v),
        w,
        x2,
        y2,
    ) == (if x2 == x && y2 == y {
        v
    } else {
        cell(g, w, x2, y2)
    }) by {
        lemma_idx(w, h, x2, y2);
        if idx(w, x2, y2) == idx(w, x, y) {
            lemma_idx_injective(w, h, x, y, x2, y2);
        }
    }
}

/// No color is counted beyond the number of cells.
pub proof fn lemma_count_le_len(g: Seq<Color>, c: Color)
    ensures
        count_color(g, c) <= g.len(),
    decreases g.len(),
{
    if g.len() > 0 {
        lemma_count_le_len(g.drop_last(), c);
    }
}

/// A color that occurs somewhere is counted at least once.
pub proof fn lemma_count_ge_one(g: Seq<Color>, c: Color, i: int)
    requires
        0 <= i < g.len(),
        g[i] == c,
    ensures
        count_color(g, c) >= 1,
    decreases g.len(),
{
    if i < g.len() - 1 {
        lemma_count_ge_one(g.drop_last(), c, i);
    }
}

/// Writing one cell moves the count by the colors that leave and
/// arrive.
pub proof fn lemma_count_update(g: Seq<Color>, c: Color, i: int, v: Color)
    requires
        0 <= i < g.len(),
    ensures
        count_color(g.update(i, v), c) as int == count_color(g, c) as int - (if g[i] == c {
            1int
        } else {
            0int
        }) + (if v == c {
            1int
        } else {
            0int
        }),
    decreases g.len(),
{
    let gu = g.update(i, v);
    if i == g.len() - 1 {
        assert(gu.drop_last() =~= g.drop_last());
    } else {
        assert(gu.drop_last() =~= g.drop_last().update(i, v));
        lemma_count_update(g.drop_last(), c, i, v);
    }
}

/// Extending a prefix by one cell extends its count by that cell.
pub proof fn lemma_count_take_step(g: Seq<Color>, c: Color, i: int)
    requires
        0 <= i < g.len(),
    ensures
        count_color(g.take(i + 1), c) == count_color(g.take(i), c) + (if g[i] == c {
            1nat
        } else {
            0nat
        }),
{
    assert(g.take(i + 1).drop_last() =~= g.take(i));
    assert(g.take(i + 1).last() == g[i]);
}

/// The seed cell always belongs to its own region.
pub proof fn lemma_region_seed(g: Seq<Color>, w: int, h: int, sx: int, sy: int, c: Color)
    requires
        in_bounds(w, h, sx, sy),
    ensures
        in_region(g, w, h, sx, sy, c, sx, sy),
{
    let p = seq![(sx, sy)];
    assert(is_path(g, w, h, c, p, (sx, sy), (sx, sy)));
}

/// A region extends across an adjacent c-colored cell.
pub proof fn lemma_region_extend(
    g: Seq<Color>,
    w: int,
    h: int,
    sx: int,
    sy: int,
    c: Color,
    x: int,
    y: int,
    x2: int,
    y2: int,
)
    requires
        in_region(g, w, h, sx, sy, c, x, y),
        in_bounds(w, h, x2, y2),
        adjacent((x, y), (x2, y2)),
        cell(g, w, x2, y2) == c,
    ensures
        in_region(g, w, h, sx, sy, c, x2, y2),
{
    let p = choose|p: Seq<(int, int)>| is_path(g, w, h, c, p, (sx, sy), (x, y));
    let q = p.push((x2, y2));
    assert forall|i: int| 0 <= i < q.len() implies in_bounds(
        w,
        h,
        (#[trigger] q[i]).0,
        q[i].1,
    ) by {
        if i < p.len() {
            assert(q[i] == p[i]);
        }
    }
    assert forall|i: int| 1 <= i < q.len() implies cell(g, w, (#[trigger] q[i]).0, q[i].1)
        == c by {
        if i < p.len() {
            assert(q[i] == p[i]);
        }
    }
    assert forall|i: int| 0 <= i < q.len() - 1 implies adjacent(#[trigger] q[i], q[i + 1]) by {
        assert(q[i] == p[i]);
        if i < p.len() - 1 {
            assert(q[i + 1] == p[i + 1]);
        } else {
            assert(i == p.len() - 1);
            assert(q[i] == (x, y));
            assert(q[i + 1] == (x2, y2));
        }
    }
    assert(is_path(g, w, h, c, q, (sx, sy), (x2, y2)));
}

/// Every region cell other than the seed holds the target color.
pub proof fn lemma_region_color(
    g: Seq<Color>,
    w: int,
    h: int,
    sx: int,
    sy: int,
    c: Color,
    x: int,
    y: int,
)
    requires
        in_region(g, w, h, sx, sy, c, x, y),
        !(x == sx && y == sy),
    ensures
        cell(g, w, x, y) == c,
{
    let p = choose|p: Seq<(int, int)>| is_path(g, w, h, c, p, (sx, sy), (x, y));
    if p.len() == 1 {
        assert(p[0] == (sx, sy));
        assert(p[0] == (x, y));
        assert(false);
    } else {
        assert(cell(g, w, (p[p.len() - 1]).0, p[p.len() - 1].1) == c);
    }
}

/// If the marker cells of g include the seed and are closed under
/// c-colored neighbors of g0, they cover every region cell of g0:
/// walking any path of the region stays on marker cells.
pub proof fn lemma_region_marked(
    g0: Seq<Color>,
    g: Seq<Color>,
    w: int,
    h: int,
    sx: int,
    sy: int,
    c: Color,
    p: Seq<(int, int)>,
    t: (int, int),
)
    requires
        is_path(g0, w, h, c, p, (sx, sy), t),
        cell(g, w, sx, sy) == Color::Marker,
        forall|x2: int, y2: int, x3: int, y3: int|
            #![trigger cell(g, w, x2, y2), cell(g0, w, x3, y3)]
            in_bounds(w, h, x2, y2) && in_bounds(w, h, x3, y3) && cell(g, w, x2, y2)
                == Color::Marker && adjacent((x2, y2), (x3, y3)) && cell(g0, w, x3, y3) == c ==> cell(
                g,
                w,
                x3,
                y3,
            ) == Color::Marker,
    ensures
        cell(g, w, t.0, t.1) == Color::Marker,
    decreases p.len(),
{
    if p.len() == 1 {
        assert(t == (sx, sy));
    } else {
        let p2 = p.drop_last();
        let t2 = p[p.len() - 2];
        assert forall|i: int| 0 <= i < p2.len() implies in_bounds(
            w,
            h,
            (#[trigger] p2[i]).0,
            p2[i].1,
        ) by {
            assert(p2[i] == p[i]);
        }
        assert forall|i: int| 1 <= i < p2.len() implies cell(g0, w, (#[trigger] p2[i]).0, p2[i].1)
            == c by {
            assert(p2[i] == p[i]);
        }
        assert forall|i: int| 0 <= i < p2.len() - 1 implies adjacent(
            #[trigger] p2[i],
            p2[i + 1],
        ) by {
            assert(p2[i] == p[i]);
            assert(p2[i + 1] == p[i + 1]);
        }
        assert(p2[0] == p[0]);
        assert(p2[p2.len() - 1] == t2);
        assert(is_path(g0, w, h, c, p2, (sx, sy), t2));
        lemma_region_marked(g0, g, w, h, sx, sy, c, p2, t2);
        assert(adjacent(p[p.len() - 2], p[p.len() - 1]));
        assert(cell(g0, w, t.0, t.1) == c);
        assert(in_bounds(w, h, t2.0, t2.1));
        assert(in_bounds(w, h, t.0, t.1));
    }
}

} // verus!

