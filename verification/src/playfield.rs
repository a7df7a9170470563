//! The playfield: a rectangular grid of colored cells with the two
//! flood-fill mutation passes that implement the puzzle's fundamental
//! "recolor the connected region" operation.
use vstd::prelude::*;

use rand::Rng;

use crate::color::Color;
use crate::color::in_palette_prefix;
use crate::color::lemma_palette_not_marker;
use crate::color::palette;
use crate::color::palette_color;
use crate::grid::adjacent;
use crate::grid::cell;
use crate::grid::count_color;
use crate::grid::idx;
use crate::grid::in_bounds;
use crate::grid::in_region;
use crate::grid::is_path;
use crate::grid::lemma_cell_update;
use crate::grid::lemma_count_le_len;
use crate::grid::lemma_count_take_step;
use crate::grid::lemma_count_update;
use crate::grid::lemma_idx;
use crate::grid::lemma_linear;
use crate::grid::lemma_region_extend;
use crate::grid::lemma_region_marked;
use crate::grid::lemma_region_seed;
use crate::grid::marked;
use crate::grid::no_marker;
use crate::grid::recolored;
use crate::grid::swept;

verus! {

/// A grid of `width * height` cells, stored row-major.
pub struct Playfield {
    pub squares: Vec<Color>,
    pub width: u16,
    pub height: u16,
}

impl Playfield {
    /// The structural invariant: positive dimensions and a row-major
    /// cell vector of exactly width * height entries.
    pub open spec fn wf(self) -> bool {
        &&& self.width >= 1
        &&& self.height >= 1
        &&& self.squares@.len() == (self.width as int) * (self.height as int)
    }

    /// Relies on rand::Rng::random_range through rand::rng(): it
    /// returns a value drawn from the given range, which is nonempty
    /// because n >= 1. Nothing more can be said of a random draw.
    #[verifier::external_body]
    fn random_index(n: u16) -> (r: u16)
        requires
            n >= 1,
        ensures
            r < n,
    {
        rand::rng().random_range(0..n)
    }

    /// Create squares with random colors drawn from the first
    /// `colors` palette entries; in versus mode the first cell is
    /// overwritten with a copy of the last, so that the two corner
    /// home bases start with the same color.
    fn get_random_squares(width: u16, height: u16, colors: u16, versus: bool) -> (v: Vec<Color>)
        requires
            width >= 1,
            height >= 1,
            2 <= colors <= 12,
        ensures
            v@.len() == (width as int) * (height as int),
            forall|i: int|
                0 <= i < v@.len() ==> in_palette_prefix(#[trigger] v@[i], colors as int),
            versus ==> v@[0] == v@[v@.len() - 1],
    {
        proof {
            assert(1 <= (width as int) * (height as int) <= 65535 * 65535) by (nonlinear_arith)
                requires
                    1 <= width <= 65535,
                    1 <= height <= 65535,
            ;
        }
        let num: usize = (width as usize) * (height as usize);
        let mut v: Vec<Color> = Vec::new();
        let mut i: usize = 0;
        while i < num
            invariant
                i <= num,
                v@.len() == i,
                2 <= colors <= 12,
                forall|j: int|
                    0 <= j < v@.len() ==> in_palette_prefix(#[trigger] v@[j], colors as int),
            decreases num - i,
        {
            let r = Playfield::random_index(colors);
            let c = palette_color(r);
            proof {
                assert(c == palette(r as int));
            }
            v.push(c);
            i = i + 1;
        }
        if versus {
            let last = v[num - 1];
            v.set(0, last);
        }
        v
    }

    /// Create a new playfield with every cell drawn independently at
    /// random from the first `colors` palette entries; in versus mode
    /// the two corner home bases start with the same color.
    pub fn new(width: u16, height: u16, colors: u16, versus: bool) -> (pf: Playfield)
        requires
            width >= 1,
            height >= 1,
            2 <= colors <= 12,
        ensures
            pf.wf(),
            pf.width == width,
            pf.height == height,
            forall|i: int|
                0 <= i < pf.squares@.len() ==> in_palette_prefix(
                    #[trigger] pf.squares@[i],
                    colors as int,
                ),
            no_marker(pf.squares@),
            versus ==> pf.squares@[0] == pf.squares@[pf.squares@.len() - 1],
    {
        let squares = Playfield::get_random_squares(width, height, colors, versus);
        proof {
            assert forall|i: int| 0 <= i < squares@.len() implies squares@[i]
                != Color::Marker by {
                assert(in_palette_prefix(squares@[i], colors as int));
                let j = choose|j: int| 0 <= j < colors as int && squares@[i] == palette(j);
                lemma_palette_not_marker(j);
            }
        }
        Playfield { squares, width, height }
    }

    /// The linear index of cell (x, y), in range for the cell vector.
    fn cell_index(&self, x: u16, y: u16) -> (i: usize)
        requires
            self.wf(),
            x < self.width,
            y < self.height,
        ensures
            i == idx(self.width as int, x as int, y as int),
            i < self.squares@.len(),
    {
        let n = self.squares.len();
        proof {
            lemma_idx(self.width as int, self.height as int, x as int, y as int);
        }
        (y as usize) * (self.width as usize) + (x as usize)
    }

    /// The color of cell (x, y).
    pub fn get(&self, x: u16, y: u16) -> (c: Color)
        requires
            self.wf(),
            x < self.width,
            y < self.height,
        ensures
            c == cell(self.squares@, self.width as int, x as int, y as int),
    {
        let i = self.cell_index(x, y);
        self.squares[i]
    }

    /// End of flood: replace every marker cell by the given color.
    pub fn flood_end(&mut self, color: Color)
        requires
            old(self).wf(),
        ensures
            final(self).wf(),
            final(self).width == old(self).width,
            final(self).height == old(self).height,
            final(self).squares@ == swept(old(self).squares@, color),
    {
        let ghost g0 = self.squares@;
        let n = self.squares.len();
        let mut i: usize = 0;
        while i < n
            invariant
                self.wf(),
                self.width == old(self).width,
                self.height == old(self).height,
                n == self.squares@.len(),
                g0.len() == n,
                i <= n,
                forall|j: int| 0 <= j < i ==> self.squares@[j] == swept(g0, color)[j],
                forall|j: int| i <= j < n ==> self.squares@[j] == g0[j],
            decreases n - i,
        {
            let c = self.squares[i];
            if c == Color::Marker {
                self.squares.set(i, color);
            }
            i = i + 1;
        }
        proof {
            assert(self.squares@ =~= swept(g0, color));
        }
    }

    /// How many cells currently hold the marker: the size of the
    /// region that the flood pass in progress has covered.
    pub fn count_marker(&self) -> (r: u64)
        requires
            self.wf(),
        ensures
            r == count_color(self.squares@, Color::Marker),
            r <= self.squares@.len(),
    {
        let n = self.squares.len();
        let mut r: u64 = 0;
        let mut i: usize = 0;
        while i < n
            invariant
                n == self.squares@.len(),
                i <= n,
                r <= i,
                r == count_color(self.squares@.take(i as int), Color::Marker),
            decreases n - i,
        {
            let c = self.squares[i];
            proof {
                lemma_count_take_step(self.squares@, Color::Marker, i as int);
            }
            if c == Color::Marker {
                r = r + 1;
            }
            i = i + 1;
        }
        proof {
            assert(self.squares@.take(n as int) =~= self.squares@);
        }
        r
    }
}

/// One visit step only marks cells: markers persist and nothing else
/// changes.
spec fn step_to(ga: Seq<Color>, gb: Seq<Color>, w: int, h: int) -> bool {
    &&& gb.len() == ga.len()
    &&& (forall|x2: int, y2: int|
        #![trigger cell(gb, w, x2, y2)]
        in_bounds(w, h, x2, y2) ==> {
            &&& (cell(ga, w, x2, y2) == Color::Marker ==> cell(gb, w, x2, y2) == Color::Marker)
            &&& (cell(gb, w, x2, y2) != cell(ga, w, x2, y2) ==> cell(gb, w, x2, y2)
                == Color::Marker)
        })
}

/// A grid equal to another, or with one more cell marked, is one step
/// beyond it.
proof fn lemma_step_to(ga: Seq<Color>, gb: Seq<Color>, w: int, h: int, nx: int, ny: int)
    requires
        w >= 1,
        h >= 1,
        ga.len() == w * h,
        in_bounds(w, h, nx, ny),
        gb == ga || gb == ga.update(idx(w, nx, ny), Color::Marker),
    ensures
        step_to(ga, gb, w, h),
{
    if gb != ga {
        lemma_idx(w, h, nx, ny);
        lemma_cell_update(ga, w, h, nx, ny, Color::Marker);
        let gu = ga.update(idx(w, nx, ny), Color::Marker);
        assert(gu.len() == ga.len());
        assert(gb.len() == ga.len());
        assert forall|x2: int, y2: int| in_bounds(w, h, x2, y2) implies {
            &&& (cell(ga, w, x2, y2) == Color::Marker ==> #[trigger] cell(gb, w, x2, y2)
                == Color::Marker)
            &&& (cell(gb, w, x2, y2) != cell(ga, w, x2, y2) ==> cell(gb, w, x2, y2)
                == Color::Marker)
        } by {
            assert(cell(gu, w, x2, y2) == (if x2 == nx && y2 == ny {
                Color::Marker
            } else {
                cell(ga, w, x2, y2)
            }));
            assert(cell(gb, w, x2, y2) == cell(gu, w, x2, y2));
        }
    }
}

/// Marking steps compose.
proof fn lemma_step_to_trans(ga: Seq<Color>, gb: Seq<Color>, gc: Seq<Color>, w: int, h: int)
    requires
        step_to(ga, gb, w, h),
        step_to(gb, gc, w, h),
    ensures
        step_to(ga, gc, w, h),
{
}

/// A sequence keeps containing an element when another is pushed.
proof fn lemma_push_contains(st: Seq<(u16, u16)>, e: (u16, u16), p: (u16, u16))
    requires
        st.contains(p),
    ensures
        st.push(e).contains(p),
{
    let j = choose|j: int| 0 <= j < st.len() && st[j] == p;
    assert(st.push(e)[j] == p);
}

/// The state flood's work-list loop maintains, apart from the
/// frontier: the grid differs from the starting grid g0 only by
/// marker cells, every marker cell lies in the region of g0 seeded at
/// (sx, sy), and the work list holds marked in-bounds cells.
spec fn flood_core(
    g0: Seq<Color>,
    pf: Playfield,
    st: Seq<(u16, u16)>,
    sx: int,
    sy: int,
    c: Color,
) -> bool {
    let w = pf.width as int;
    let h = pf.height as int;
    let g = pf.squares@;
    &&& pf.wf()
    &&& g0.len() == g.len()
    &&& c != Color::Marker
    &&& no_marker(g0)
    &&& in_bounds(w, h, sx, sy)
    &&& cell(g, w, sx, sy) == Color::Marker
    &&& count_color(g, Color::Marker) <= g.len()
    &&& (forall|x2: int, y2: int|
        #![trigger cell(g, w, x2, y2)]
        in_bounds(w, h, x2, y2) && cell(g, w, x2, y2) != cell(g0, w, x2, y2) ==> cell(g, w, x2, y2)
            == Color::Marker)
    &&& (forall|x2: int, y2: int|
        #![trigger cell(g, w, x2, y2)]
        in_bounds(w, h, x2, y2) && cell(g, w, x2, y2) == Color::Marker ==> in_region(
            g0,
            w,
            h,
            sx,
            sy,
            c,
            x2,
            y2,
        ))
    &&& (forall|j: int|
        0 <= j < st.len() ==> in_bounds(w, h, (#[trigger] st[j]).0 as int, st[j].1 as int) && cell(
            g,
            w,
            st[j].0 as int,
            st[j].1 as int,
        ) == Color::Marker)
}

/// The frontier half of the loop invariant: a marked cell with a
/// still-unmarked neighbor of the target color is on the work list,
/// so the loop cannot forget it.
spec fn flood_frontier(g0: Seq<Color>, pf: Playfield, st: Seq<(u16, u16)>, c: Color) -> bool {
    let w = pf.width as int;
    let h = pf.height as int;
    let g = pf.squares@;
    forall|x2: int, y2: int, x3: int, y3: int|
        #![trigger cell(g, w, x2, y2), cell(g0, w, x3, y3)]
        in_bounds(w, h, x2, y2) && in_bounds(w, h, x3, y3) && cell(g, w, x2, y2) == Color::Marker
            && adjacent((x2, y2), (x3, y3)) && cell(g0, w, x3, y3) == c && cell(g, w, x3, y3)
            != Color::Marker ==> st.contains(((x2 as u16), (y2 as u16)))
}

/// What one visit does to the grid and the work list: either nothing,
/// or it marks exactly the visited cell and pushes it.
spec fn visit_effect(
    ga: Seq<Color>,
    gb: Seq<Color>,
    sta: Seq<(u16, u16)>,
    stb: Seq<(u16, u16)>,
    w: int,
    nx: int,
    ny: int,
) -> bool {
    ||| (gb == ga && stb == sta)
    ||| (gb == ga.update(idx(w, nx, ny), Color::Marker) && cell(ga, w, nx, ny) != Color::Marker
        && stb == sta.push(((nx as u16), (ny as u16))) && count_color(gb, Color::Marker)
        == count_color(ga, Color::Marker) + 1)
}

/// After the four neighbor visits of one pop, the frontier invariant
/// holds again: a cell already marked before the pop either still
/// sits on the work list or is the popped cell, whose eligible
/// neighbors have all just been visited; a newly marked cell was
/// pushed when it was marked.
#[verifier::rlimit(100)]
proof fn lemma_frontier_restore(
    g0: Seq<Color>,
    w: int,
    h: int,
    color: Color,
    cx: u16,
    cy: u16,
    g_enter: Seq<Color>,
    st_enter: Seq<(u16, u16)>,
    st0: Seq<(u16, u16)>,
    g1: Seq<Color>,
    st1: Seq<(u16, u16)>,
    g2: Seq<Color>,
    st2: Seq<(u16, u16)>,
    g3: Seq<Color>,
    st3: Seq<(u16, u16)>,
    g4: Seq<Color>,
    st4: Seq<(u16, u16)>,
)
    requires
        w >= 1,
        h >= 1,
        w <= 65536,
        h <= 65536,
        g_enter.len() == w * h,
        in_bounds(w, h, cx as int, cy as int),
        st_enter.len() >= 1,
        st_enter[st_enter.len() - 1] == (cx, cy),
        st0 == st_enter.drop_last(),
        forall|x2: int, y2: int, x3: int, y3: int|
            #![trigger cell(g_enter, w, x2, y2), cell(g0, w, x3, y3)]
            in_bounds(w, h, x2, y2) && in_bounds(w, h, x3, y3) && cell(g_enter, w, x2, y2)
                == Color::Marker && adjacent((x2, y2), (x3, y3)) && cell(g0, w, x3, y3) == color
                && cell(g_enter, w, x3, y3) != Color::Marker ==> st_enter.contains(
                ((x2 as u16), (y2 as u16)),
            ),
        cy as int - 1 >= 0 ==> visit_effect(g_enter, g1, st0, st1, w, cx as int, cy as int - 1) && (
        cell(g0, w, cx as int, cy as int - 1) == color ==> cell(g1, w, cx as int, cy as int - 1)
            == Color::Marker),
        !(cy as int - 1 >= 0) ==> g1 == g_enter && st1 == st0,
        cy as int + 1 < h ==> visit_effect(g1, g2, st1, st2, w, cx as int, cy as int + 1) && (cell(
            g0,
            w,
            cx as int,
            cy as int + 1,
        ) == color ==> cell(g2, w, cx as int, cy as int + 1) == Color::Marker),
        !(cy as int + 1 < h) ==> g2 == g1 && st2 == st1,
        cx as int - 1 >= 0 ==> visit_effect(g2, g3, st2, st3, w, cx as int - 1, cy as int) && (cell(
            g0,
            w,
            cx as int - 1,
            cy as int,
        ) == color ==> cell(g3, w, cx as int - 1, cy as int) == Color::Marker),
        !(cx as int - 1 >= 0) ==> g3 == g2 && st3 == st2,
        cx as int + 1 < w ==> visit_effect(g3, g4, st3, st4, w, cx as int + 1, cy as int) && (cell(
            g0,
            w,
            cx as int + 1,
            cy as int,
        ) == color ==> cell(g4, w, cx as int + 1, cy as int) == Color::Marker),
        !(cx as int + 1 < w) ==> g4 == g3 && st4 == st3,
    ensures
        forall|x2: int, y2: int, x3: int, y3: int|
            #![trigger cell(g4, w, x2, y2), cell(g0, w, x3, y3)]
            in_bounds(w, h, x2, y2) && in_bounds(w, h, x3, y3) && cell(g4, w, x2, y2)
                == Color::Marker && adjacent((x2, y2), (x3, y3)) && cell(g0, w, x3, y3) == color
                && cell(g4, w, x3, y3) != Color::Marker ==> st4.contains(((x2 as u16), (y2 as u16))),
{
    if cy as int - 1 >= 0 {
        lemma_step_to(g_enter, g1, w, h, cx as int, cy as int - 1);
    } else {
        lemma_step_to(g_enter, g1, w, h, cx as int, cy as int);
    }
    if cy as int + 1 < h {
        lemma_step_to(g1, g2, w, h, cx as int, cy as int + 1);
    } else {
        lemma_step_to(g1, g2, w, h, cx as int, cy as int);
    }
    if cx as int - 1 >= 0 {
        lemma_step_to(g2, g3, w, h, cx as int - 1, cy as int);
    } else {
        lemma_step_to(g2, g3, w, h, cx as int, cy as int);
    }
    if cx as int + 1 < w {
        lemma_step_to(g3, g4, w, h, cx as int + 1, cy as int);
    } else {
        lemma_step_to(g3, g4, w, h, cx as int, cy as int);
    }
    lemma_step_to_trans(g2, g3, g4, w, h);
    lemma_step_to_trans(g1, g2, g4, w, h);
    lemma_step_to_trans(g_enter, g1, g4, w, h);
    assert forall|x2: int, y2: int, x3: int, y3: int|
        in_bounds(w, h, x2, y2) && in_bounds(w, h, x3, y3) && #[trigger] cell(g4, w, x2, y2)
            == Color::Marker && adjacent((x2, y2), (x3, y3)) && #[trigger] cell(g0, w, x3, y3)
            == color && cell(g4, w, x3, y3) != Color::Marker implies st4.contains(
        ((x2 as u16), (y2 as u16)),
    ) by {
        let p = ((x2 as u16), (y2 as u16));
        assert(cell(g3, w, x3, y3) != Color::Marker);
        assert(cell(g2, w, x3, y3) != Color::Marker);
        assert(cell(g1, w, x3, y3) != Color::Marker);
        assert(cell(g_enter, w, x3, y3) != Color::Marker);
        if cell(g_enter, w, x2, y2) == Color::Marker {
            if x2 == cx as int && y2 == cy as int {
                // the popped cell: each eligible neighbor was visited,
                // so by now it is marked - against the premise
                if x3 == x2 && y3 == y2 - 1 {
                    assert(cell(g1, w, x3, y3) == Color::Marker);
                    assert(false);
                } else if x3 == x2 && y3 == y2 + 1 {
                    assert(cell(g2, w, x3, y3) == Color::Marker);
                    assert(false);
                } else if x3 == x2 - 1 && y3 == y2 {
                    assert(cell(g3, w, x3, y3) == Color::Marker);
                    assert(false);
                } else {
                    assert(x3 == x2 + 1 && y3 == y2);
                    assert(cell(g4, w, x3, y3) == Color::Marker);
                    assert(false);
                }
            } else {
                // it sat lower on the work list, where it remains
                assert(st_enter.contains(p));
                let j = choose|j: int| 0 <= j < st_enter.len() && st_enter[j] == p;
                assert(j < st_enter.len() - 1);
                assert(st0[j] == p);
                assert(st0.contains(p));
                if st1 != st0 {
                    lemma_push_contains(st0, st1.last(), p);
                }
                if st2 != st1 {
                    lemma_push_contains(st1, st2.last(), p);
                }
                if st3 != st2 {
                    lemma_push_contains(st2, st3.last(), p);
                }
                if st4 != st3 {
                    lemma_push_contains(st3, st4.last(), p);
                }
            }
        } else {
            // marked during this iteration: pushed at the same moment
            if cell(g1, w, x2, y2) == Color::Marker {
                assert(g1 != g_enter);
                lemma_cell_update(g_enter, w, h, cx as int, cy as int - 1, Color::Marker);
                assert(x2 == cx as int && y2 == cy as int - 1);
                assert(st1[st1.len() - 1] == p);
                assert(st1.contains(p));
                if st2 != st1 {
                    lemma_push_contains(st1, st2.last(), p);
                }
                if st3 != st2 {
                    lemma_push_contains(st2, st3.last(), p);
                }
                if st4 != st3 {
                    lemma_push_contains(st3, st4.last(), p);
                }
            } else if cell(g2, w, x2, y2) == Color::Marker {
                assert(g2 != g1);
                lemma_cell_update(g1, w, h, cx as int, cy as int + 1, Color::Marker);
                assert(x2 == cx as int && y2 == cy as int + 1);
                assert(st2[st2.len() - 1] == p);
                assert(st2.contains(p));
                if st3 != st2 {
                    lemma_push_contains(st2, st3.last(), p);
                }
                if st4 != st3 {
                    lemma_push_contains(st3, st4.last(), p);
                }
            } else if cell(g3, w, x2, y2) == Color::Marker {
                assert(g3 != g2);
                lemma_cell_update(g2, w, h, cx as int - 1, cy as int, Color::Marker);
                assert(x2 == cx as int - 1 && y2 == cy as int);
                assert(st3[st3.len() - 1] == p);
                assert(st3.contains(p));
                if st4 != st3 {
                    lemma_push_contains(st3, st4.last(), p);
                }
            } else {
                assert(cell(g4, w, x2, y2) == Color::Marker);
                assert(g4 != g3);
                lemma_cell_update(g3, w, h, cx as int + 1, cy as int, Color::Marker);
                assert(x2 == cx as int + 1 && y2 == cy as int);
                assert(st4[st4.len() - 1] == p);
                assert(st4.contains(p));
            }
        }
    }
}

impl Playfield {
    /// Visit one in-bounds cell during a flood: if it currently holds
    /// the target color, mark it and put it on the work list.
    fn flood_visit(
        &mut self,
        stack: &mut Vec<(u16, u16)>,
        nx: u16,
        ny: u16,
        color: Color,
        Ghost(g0): Ghost<Seq<Color>>,
        Ghost(s): Ghost<(int, int)>,
    )
        requires
            flood_core(g0, *old(self), old(stack)@, s.0, s.1, color),
            nx < old(self).width,
            ny < old(self).height,
            cell(g0, old(self).width as int, nx as int, ny as int) == color ==> in_region(
                g0,
                old(self).width as int,
                old(self).height as int,
                s.0,
                s.1,
                color,
                nx as int,
                ny as int,
            ),
        ensures
            flood_core(g0, *final(self), final(stack)@, s.0, s.1, color),
            final(self).width == old(self).width,
            final(self).height == old(self).height,
            cell(g0, old(self).width as int, nx as int, ny as int) == color ==> cell(
                final(self).squares@,
                old(self).width as int,
                nx as int,
                ny as int,
            ) == Color::Marker,
            visit_effect(
                old(self).squares@,
                final(self).squares@,
                old(stack)@,
                final(stack)@,
                old(self).width as int,
                nx as int,
                ny as int,
            ),
    {
        let ghost w = self.width as int;
        let ghost h = self.height as int;
        let ghost g = self.squares@;
        let i = self.cell_index(nx, ny);
        let cur = self.squares[i];
        proof {
            lemma_idx(w, h, nx as int, ny as int);
            assert(cur == cell(g, w, nx as int, ny as int));
        }
        if cur == color {
            proof {
                assert(cell(g0, w, nx as int, ny as int) == color);
                lemma_count_update(g, Color::Marker, i as int, Color::Marker);
                lemma_cell_update(g, w, h, nx as int, ny as int, Color::Marker);
            }
            self.squares.set(i, Color::Marker);
            stack.push((nx, ny));
            proof {
                let g2 = self.squares@;
                let st2 = stack@;
                lemma_count_le_len(g2, Color::Marker);
                assert(cell(g2, w, s.0, s.1) == Color::Marker);
                assert forall|x2: int, y2: int|
                    in_bounds(w, h, x2, y2) && #[trigger] cell(g2, w, x2, y2) != cell(
                        g0,
                        w,
                        x2,
                        y2,
                    ) implies cell(g2, w, x2, y2) == Color::Marker by {
                    if !(x2 == nx as int && y2 == ny as int) {
                        assert(cell(g2, w, x2, y2) == cell(g, w, x2, y2));
                    }
                }
                assert forall|x2: int, y2: int|
                    in_bounds(w, h, x2, y2) && #[trigger] cell(g2, w, x2, y2)
                        == Color::Marker implies in_region(g0, w, h, s.0, s.1, color, x2, y2) by {
                    if !(x2 == nx as int && y2 == ny as int) {
                        assert(cell(g2, w, x2, y2) == cell(g, w, x2, y2));
                    }
                }
                assert forall|j: int| 0 <= j < st2.len() implies in_bounds(
                    w,
                    h,
                    (#[trigger] st2[j]).0 as int,
                    st2[j].1 as int,
                ) && cell(g2, w, st2[j].0 as int, st2[j].1 as int) == Color::Marker by {
                    if j < st2.len() - 1 {
                        assert(st2[j] == old(stack)@[j]);
                    } else {
                        assert(st2[j] == (nx, ny));
                    }
                }
                assert(st2 == old(stack)@.push(((nx as int as u16), (ny as int as u16))));
            }
        }
    }

    /// Flood at (x, y): mark every cell of the region connected to
    /// (x, y) through cells currently equal to the target color,
    /// including (x, y) itself whatever its current color. Cells
    /// outside the region are untouched.
    #[verifier::rlimit(50)]
    pub fn flood(&mut self, x: u16, y: u16, color: Color)
        requires
            old(self).wf(),
            x < old(self).width,
            y < old(self).height,
            color != Color::Marker,
            no_marker(old(self).squares@),
        ensures
            final(self).wf(),
            final(self).width == old(self).width,
            final(self).height == old(self).height,
            final(self).squares@ == marked(
                old(self).squares@,
                old(self).width as int,
                old(self).height as int,
                x as int,
                y as int,
                color,
            ),
    {
        let ghost g0 = self.squares@;
        let ghost w = self.width as int;
        let ghost h = self.height as int;
        let ghost s = (x as int, y as int);
        let mut stack: Vec<(u16, u16)> = Vec::new();
        let i0 = self.cell_index(x, y);
        proof {
            lemma_idx(w, h, s.0, s.1);
            lemma_cell_update(g0, w, h, s.0, s.1, Color::Marker);
            lemma_count_update(g0, Color::Marker, i0 as int, Color::Marker);
            lemma_region_seed(g0, w, h, s.0, s.1, color);
        }
        self.squares.set(i0, Color::Marker);
        stack.push((x, y));
        proof {
            let g = self.squares@;
            lemma_count_le_len(g, Color::Marker);
            assert forall|x2: int, y2: int|
                in_bounds(w, h, x2, y2) && #[trigger] cell(g, w, x2, y2)
                    == Color::Marker implies in_region(g0, w, h, s.0, s.1, color, x2, y2) by {
                lemma_idx(w, h, x2, y2);
                if !(x2 == s.0 && y2 == s.1) {
                    assert(cell(g, w, x2, y2) == cell(g0, w, x2, y2));
                    assert(g0[idx(w, x2, y2)] != Color::Marker);
                    assert(false);
                }
            }
            assert(stack@[0] == (x, y));
            assert(flood_core(g0, *self, stack@, s.0, s.1, color));
        }
        while stack.len() != 0
            invariant
                flood_core(g0, *self, stack@, s.0, s.1, color),
                flood_frontier(g0, *self, stack@, color),
                self.width == old(self).width,
                self.height == old(self).height,
                g0 == old(self).squares@,
                w == self.width as int,
                h == self.height as int,
                s == (x as int, y as int),
            decreases
                    self.squares@.len() - count_color(self.squares@, Color::Marker),
                    stack.len(),
        {
            let ghost g_enter = self.squares@;
            let ghost st_enter = stack@;
            let pr = stack.pop().unwrap();
            let cx = pr.0;
            let cy = pr.1;
            let ghost st0 = stack@;
            proof {
                assert(st_enter[st_enter.len() - 1] == (cx, cy));
                assert(in_bounds(w, h, cx as int, cy as int));
                assert(cell(g_enter, w, cx as int, cy as int) == Color::Marker);
                assert(in_region(g0, w, h, s.0, s.1, color, cx as int, cy as int));
                assert forall|j: int| 0 <= j < st0.len() implies in_bounds(
                    w,
                    h,
                    (#[trigger] st0[j]).0 as int,
                    st0[j].1 as int,
                ) && cell(g_enter, w, st0[j].0 as int, st0[j].1 as int) == Color::Marker by {
                    assert(st0[j] == st_enter[j]);
                }
            }
            let w_exec = self.width;
            let h_exec = self.height;
            if cy > 0 {
                proof {
                    if cell(g0, w, cx as int, cy as int - 1) == color {
                        lemma_region_extend(
                            g0,
                            w,
                            h,
                            s.0,
                            s.1,
                            color,
                            cx as int,
                            cy as int,
                            cx as int,
                            cy as int - 1,
                        );
                    }
                }
                self.flood_visit(&mut stack, cx, cy - 1, color, Ghost(g0), Ghost(s));
            }
            let ghost g1 = self.squares@;
            let ghost st1 = stack@;
            if cy < h_exec - 1 {
                proof {
                    if cell(g0, w, cx as int, cy as int + 1) == color {
                        lemma_region_extend(
                            g0,
                            w,
                            h,
                            s.0,
                            s.1,
                            color,
                            cx as int,
                            cy as int,
                            cx as int,
                            cy as int + 1,
                        );
                    }
                }
                self.flood_visit(&mut stack, cx, cy + 1, color, Ghost(g0), Ghost(s));
            }
            let ghost g2 = self.squares@;
            let ghost st2 = stack@;
            if cx > 0 {
                proof {
                    if cell(g0, w, cx as int - 1, cy as int) == color {
                        lemma_region_extend(
                            g0,
                            w,
                            h,
                            s.0,
                            s.1,
                            color,
                            cx as int,
                            cy as int,
                            cx as int - 1,
                            cy as int,
                        );
                    }
                }
                self.flood_visit(&mut stack, cx - 1, cy, color, Ghost(g0), Ghost(s));
            }
            let ghost g3 = self.squares@;
            let ghost st3 = stack@;
            if cx < w_exec - 1 {
                proof {
                    if cell(g0, w, cx as int + 1, cy as int) == color {
                        lemma_region_extend(
                            g0,
                            w,
                            h,
                            s.0,
                            s.1,
                            color,
                            cx as int,
                            cy as int,
                            cx as int + 1,
                            cy as int,
                        );
                    }
                }
                self.flood_visit(&mut stack, cx + 1, cy, color, Ghost(g0), Ghost(s));
            }
            let ghost g4 = self.squares@;
            let ghost st4 = stack@;
            proof {
                lemma_frontier_restore(
                    g0,
                    w,
                    h,
                    color,
                    cx,
                    cy,
                    g_enter,
                    st_enter,
                    st0,
                    g1,
                    st1,
                    g2,
                    st2,
                    g3,
                    st3,
                    g4,
                    st4,
                );
                // Termination: either a cell was marked, or the work
                // list shrank.
                let c0 = count_color(g_enter, Color::Marker) as int;
                let c1 = count_color(g1, Color::Marker) as int;
                let c2 = count_color(g2, Color::Marker) as int;
                let c3 = count_color(g3, Color::Marker) as int;
                let c4 = count_color(g4, Color::Marker) as int;
                assert(c1 == c0 || (c1 == c0 + 1 && st1 == st0.push(st1.last())));
                assert(c2 == c1 || (c2 == c1 + 1 && st2 == st1.push(st2.last())));
                assert(c3 == c2 || (c3 == c2 + 1 && st3 == st2.push(st3.last())));
                assert(c4 == c3 || (c4 == c3 + 1 && st4 == st3.push(st4.last())));
                if c4 == c0 {
                    assert(st4 == st0);
                    assert(st4.len() < st_enter.len());
                } else {
                    assert(c4 > c0);
                }
            }
        }
        proof {
            let g = self.squares@;
            assert forall|x3: int, y3: int, x2: int, y2: int|
                in_bounds(w, h, x2, y2) && in_bounds(w, h, x3, y3) && #[trigger] cell(g, w, x2, y2)
                    == Color::Marker && adjacent((x2, y2), (x3, y3)) && #[trigger] cell(
                    g0,
                    w,
                    x3,
                    y3,
                ) == color implies cell(g, w, x3, y3) == Color::Marker by {
                if cell(g, w, x3, y3) != Color::Marker {
                    assert(stack@.contains(((x2 as u16), (y2 as u16))));
                    assert(false);
                }
            }
            assert forall|i: int| 0 <= i < g.len() implies g[i] == marked(
                g0,
                w,
                h,
                s.0,
                s.1,
                color,
            )[i] by {
                lemma_linear(w, h, i);
                let xi = i % w;
                let yi = i / w;
                assert(cell(g, w, xi, yi) == g[i]);
                assert(cell(g0, w, xi, yi) == g0[i]);
                if in_region(g0, w, h, s.0, s.1, color, xi, yi) {
                    let p = choose|p: Seq<(int, int)>|
                        is_path(g0, w, h, color, p, (s.0, s.1), (xi, yi));
                    lemma_region_marked(g0, g, w, h, s.0, s.1, color, p, (xi, yi));
                } else {
                    assert(cell(g, w, xi, yi) != Color::Marker);
                }
            }
            assert(self.squares@ =~= marked(g0, w, h, s.0, s.1, color));
        }
    }
}

impl Clone for Playfield {
    /// An independent copy of the grid; lookahead mutates such copies
    /// and never the live grid.
    fn clone(&self) -> (r: Self)
        ensures
            r.width == self.width,
            r.height == self.height,
            r.squares@ == self.squares@,
    {
        let n = self.squares.len();
        let mut v: Vec<Color> = Vec::new();
        let mut i: usize = 0;
        while i < n
            invariant
                n == self.squares@.len(),
                i <= n,
                v@ == self.squares@.take(i as int),
            decreases n - i,
        {
            v.push(self.squares[i]);
            proof {
                assert(self.squares@.take(i as int + 1) =~= self.squares@.take(i as int).push(
                    self.squares@[i as int],
                ));
            }
            i = i + 1;
        }
        proof {
            assert(self.squares@.take(n as int) =~= self.squares@);
        }
        Playfield { squares: v, width: self.width, height: self.height }
    }
}

/// A flood pass followed by a flood_end sweep with a non-marker
/// color leaves no marker cell behind: the sweep replaces every
/// marker in the grid, whatever the flood pass marked.
pub proof fn lemma_flood_then_end_no_marker(
    g: Seq<Color>,
    w: int,
    h: int,
    x: int,
    y: int,
    c: Color,
    c2: Color,
)
    requires
        c2 != Color::Marker,
    ensures
        no_marker(recolored(g, w, h, x, y, c, c2)),
{
    let m = marked(g, w, h, x, y, c);
    let r = recolored(g, w, h, x, y, c, c2);
    assert forall|i: int| 0 <= i < r.len() implies r[i] != Color::Marker by {
        assert(r[i] == (if m[i] == Color::Marker {
            c2
        } else {
            m[i]
        }));
    }
}

} // verus!
