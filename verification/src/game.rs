//! The game: a playfield plus mode and score state. It orchestrates a
//! full player move (flood, then score or opponent reply in versus
//! mode) and implements the opponent's greedy best-color search.
use vstd::prelude::*;

use crate::color::Color;
use crate::color::in_palette_prefix;
use crate::color::lemma_palette_distinct;
use crate::color::lemma_palette_not_marker;
use crate::color::palette;
use crate::color::palette_color;
use crate::grid::cell;
use crate::grid::count_color;
use crate::grid::idx;
use crate::grid::in_bounds;
use crate::grid::in_region;
use crate::grid::lemma_count_ge_one;
use crate::grid::lemma_idx;
use crate::grid::lemma_region_color;
use crate::grid::lemma_region_seed;
use crate::grid::marked;
use crate::grid::no_marker;
use crate::grid::recolored;
use crate::playfield::Playfield;
use crate::playfield::lemma_flood_then_end_no_marker;

verus! {

/// The size of the connected region anchored at (x, y): how many
/// cells a flood pass from (x, y) targeting the cell's own color
/// would mark.
pub open spec fn region_score(g: Seq<Color>, w: int, h: int, x: int, y: int) -> nat {
    count_color(marked(g, w, h, x, y, cell(g, w, x, y)), Color::Marker)
}

/// The rule that forbids a candidate color in the best-color search:
/// it may not equal the searched region's current color, nor - in
/// versus mode - the color of either home base.
pub open spec fn skip_color(c: Color, color_xy: Color, tl: Color, br: Color, versus: bool) -> bool {
    c == color_xy || (versus && (c == tl || c == br))
}

/// The score at (x, y) after hypothetically recoloring its region
/// from its current color to cand: the size of the connected region
/// that (x, y) would then anchor.
pub open spec fn candidate_value(g: Seq<Color>, w: int, h: int, x: int, y: int, cand: Color) -> nat {
    let g1 = recolored(g, w, h, x, y, cell(g, w, x, y), cand);
    count_color(marked(g1, w, h, x, y, cand), Color::Marker)
}

/// The greedy scan of the palette entries [i, n) at (x, y), folding
/// in the first strict maximizer over the best seen so far.
pub open spec fn best_from(
    g: Seq<Color>,
    w: int,
    h: int,
    x: int,
    y: int,
    versus: bool,
    n: int,
    i: int,
    best: Color,
    max: nat,
) -> (Color, nat)
    decreases n - i,
{
    if i >= n {
        (best, max)
    } else {
        let c = palette(i);
        if skip_color(c, cell(g, w, x, y), cell(g, w, 0, 0), cell(g, w, w - 1, h - 1), versus) {
            best_from(g, w, h, x, y, versus, n, i + 1, best, max)
        } else {
            let v = candidate_value(g, w, h, x, y, c);
            if v > max {
                best_from(g, w, h, x, y, versus, n, i + 1, c, v)
            } else {
                best_from(g, w, h, x, y, versus, n, i + 1, best, max)
            }
        }
    }
}

/// The color the best-color search applies at (x, y): the first
/// palette candidate (in palette order) achieving the strictly
/// largest hypothetical region. When every candidate is forbidden it
/// is the reserved marker - the degenerate configuration the search
/// inherits from the game rules.
pub open spec fn best_color(
    g: Seq<Color>,
    w: int,
    h: int,
    x: int,
    y: int,
    n: int,
    versus: bool,
) -> Color {
    best_from(g, w, h, x, y, versus, n, 0, Color::Marker, 0).0
}

/// c is a candidate the search at (x, y) may pick: one of the first
/// n palette colors that the skip rule allows.
pub open spec fn legal_candidate(
    c: Color,
    g: Seq<Color>,
    w: int,
    h: int,
    x: int,
    y: int,
    n: int,
    versus: bool,
) -> bool {
    exists|j: int|
        0 <= j < n && c == #[trigger] palette(j) && !skip_color(
            palette(j),
            cell(g, w, x, y),
            cell(g, w, 0, 0),
            cell(g, w, w - 1, h - 1),
            versus,
        )
}

/// Any candidate would give a region of at least one cell: the seed
/// itself always belongs to the region it anchors.
pub proof fn lemma_candidate_value_pos(g: Seq<Color>, w: int, h: int, x: int, y: int, cand: Color)
    requires
        w >= 1,
        h >= 1,
        g.len() == w * h,
        in_bounds(w, h, x, y),
    ensures
        candidate_value(g, w, h, x, y, cand) >= 1,
{
    let g1 = recolored(g, w, h, x, y, cell(g, w, x, y), cand);
    let m = marked(g1, w, h, x, y, cand);
    lemma_idx(w, h, x, y);
    lemma_region_seed(g1, w, h, x, y, cand);
    assert(m[idx(w, x, y)] == Color::Marker);
    lemma_count_ge_one(m, Color::Marker, idx(w, x, y));
}

/// The best score seen never worsens as the scan advances.
proof fn lemma_best_from_mono(
    g: Seq<Color>,
    w: int,
    h: int,
    x: int,
    y: int,
    versus: bool,
    n: int,
    i: int,
    best: Color,
    max: nat,
)
    ensures
        best_from(g, w, h, x, y, versus, n, i, best, max).1 >= max,
    decreases n - i,
{
    if i < n {
        let c = palette(i);
        if skip_color(c, cell(g, w, x, y), cell(g, w, 0, 0), cell(g, w, w - 1, h - 1), versus) {
            lemma_best_from_mono(g, w, h, x, y, versus, n, i + 1, best, max);
        } else {
            let v = candidate_value(g, w, h, x, y, c);
            if v > max {
                lemma_best_from_mono(g, w, h, x, y, versus, n, i + 1, c, v);
            } else {
                lemma_best_from_mono(g, w, h, x, y, versus, n, i + 1, best, max);
            }
        }
    }
}

/// What the scan returns: either exactly what it started with, or a
/// legal candidate achieving a positive score.
proof fn lemma_best_from_legal(
    g: Seq<Color>,
    w: int,
    h: int,
    x: int,
    y: int,
    versus: bool,
    n: int,
    i: int,
    best: Color,
    max: nat,
)
    requires
        0 <= i,
    ensures
        ({
            let r = best_from(g, w, h, x, y, versus, n, i, best, max);
            (r.0 == best && r.1 == max) || (r.1 >= 1 && r.1 == candidate_value(g, w, h, x, y, r.0)
                && legal_candidate(r.0, g, w, h, x, y, n, versus))
        }),
    decreases n - i,
{
    if i < n {
        let c = palette(i);
        if skip_color(c, cell(g, w, x, y), cell(g, w, 0, 0), cell(g, w, w - 1, h - 1), versus) {
            lemma_best_from_legal(g, w, h, x, y, versus, n, i + 1, best, max);
        } else {
            let v = candidate_value(g, w, h, x, y, c);
            if v > max {
                lemma_best_from_legal(g, w, h, x, y, versus, n, i + 1, c, v);
                assert(legal_candidate(c, g, w, h, x, y, n, versus));
            } else {
                lemma_best_from_legal(g, w, h, x, y, versus, n, i + 1, best, max);
            }
        }
    }
}

/// When an allowed candidate remains ahead of the scan, the result
/// scores at least one - so the scan picks a real candidate.
proof fn lemma_best_from_pos(
    g: Seq<Color>,
    w: int,
    h: int,
    x: int,
    y: int,
    versus: bool,
    n: int,
    i: int,
    best: Color,
    max: nat,
)
    requires
        w >= 1,
        h >= 1,
        g.len() == w * h,
        in_bounds(w, h, x, y),
        exists|j: int|
            i <= j < n && !skip_color(
                #[trigger] palette(j),
                cell(g, w, x, y),
                cell(g, w, 0, 0),
                cell(g, w, w - 1, h - 1),
                versus,
            ),
    ensures
        best_from(g, w, h, x, y, versus, n, i, best, max).1 >= 1,
    decreases n - i,
{
    let j = choose|j: int|
        i <= j < n && !skip_color(
            #[trigger] palette(j),
            cell(g, w, x, y),
            cell(g, w, 0, 0),
            cell(g, w, w - 1, h - 1),
            versus,
        );
    assert(i < n);
    let c = palette(i);
    if skip_color(c, cell(g, w, x, y), cell(g, w, 0, 0), cell(g, w, w - 1, h - 1), versus) {
        assert(j != i);
        lemma_best_from_pos(g, w, h, x, y, versus, n, i + 1, best, max);
    } else {
        let v = candidate_value(g, w, h, x, y, c);
        lemma_candidate_value_pos(g, w, h, x, y, c);
        if v > max {
            lemma_best_from_mono(g, w, h, x, y, versus, n, i + 1, c, v);
        } else {
            lemma_best_from_mono(g, w, h, x, y, versus, n, i + 1, best, max);
        }
    }
}

/// The scan's result scores at least any allowed candidate ahead of
/// it.
proof fn lemma_best_from_bound(
    g: Seq<Color>,
    w: int,
    h: int,
    x: int,
    y: int,
    versus: bool,
    n: int,
    i: int,
    best: Color,
    max: nat,
    j: int,
)
    requires
        i <= j < n,
        !skip_color(
            palette(j),
            cell(g, w, x, y),
            cell(g, w, 0, 0),
            cell(g, w, w - 1, h - 1),
            versus,
        ),
    ensures
        best_from(g, w, h, x, y, versus, n, i, best, max).1 >= candidate_value(
            g,
            w,
            h,
            x,
            y,
            palette(j),
        ),
    decreases n - i,
{
    let c = palette(i);
    if skip_color(c, cell(g, w, x, y), cell(g, w, 0, 0), cell(g, w, w - 1, h - 1), versus) {
        lemma_best_from_bound(g, w, h, x, y, versus, n, i + 1, best, max, j);
    } else {
        let v = candidate_value(g, w, h, x, y, c);
        if j == i {
            if v > max {
                lemma_best_from_mono(g, w, h, x, y, versus, n, i + 1, c, v);
            } else {
                lemma_best_from_mono(g, w, h, x, y, versus, n, i + 1, best, max);
            }
        } else {
            if v > max {
                lemma_best_from_bound(g, w, h, x, y, versus, n, i + 1, c, v, j);
            } else {
                lemma_best_from_bound(g, w, h, x, y, versus, n, i + 1, best, max, j);
            }
        }
    }
}

/// The best-color search maximizes: no allowed candidate would give
/// a larger region at (x, y) than the color it picks. Ties keep the
/// earliest palette entry, as best_from spells out.
pub proof fn lemma_best_color_maximal(
    g: Seq<Color>,
    w: int,
    h: int,
    x: int,
    y: int,
    n: int,
    versus: bool,
    j: int,
)
    requires
        w >= 1,
        h >= 1,
        g.len() == w * h,
        in_bounds(w, h, x, y),
        0 <= j < n,
        !skip_color(
            palette(j),
            cell(g, w, x, y),
            cell(g, w, 0, 0),
            cell(g, w, w - 1, h - 1),
            versus,
        ),
    ensures
        ({
            let b = best_color(g, w, h, x, y, n, versus);
            candidate_value(g, w, h, x, y, b) >= candidate_value(g, w, h, x, y, palette(j))
        }),
{
    let r = best_from(g, w, h, x, y, versus, n, 0, Color::Marker, 0);
    lemma_best_from_bound(g, w, h, x, y, versus, n, 0, Color::Marker, 0, j);
    lemma_best_from_pos(g, w, h, x, y, versus, n, 0, Color::Marker, 0);
    lemma_best_from_legal(g, w, h, x, y, versus, n, 0, Color::Marker, 0);
    assert(r.1 == candidate_value(g, w, h, x, y, r.0));
}

/// A move is rejected when the chosen color already sits on the own
/// home base or - in versus mode - on the opponent's.
pub open spec fn move_rejected(g: Seq<Color>, w: int, h: int, versus: bool, chosen: Color) -> bool {
    chosen == cell(g, w, 0, 0) || (versus && chosen == cell(g, w, w - 1, h - 1))
}

/// After an accepted versus move from a state whose two home bases
/// hold different colors, they still hold different colors: the
/// chosen color takes (0, 0), the opponent's reply region cannot
/// reach it, and the skip rule keeps the reply color off both bases.
/// (From a pristine state whose bases share a color the claim can
/// fail, which is why the bases are required to differ here.)
pub proof fn lemma_versus_move_separates(g: Seq<Color>, w: int, h: int, n: int, chosen: Color)
    requires
        w >= 1,
        h >= 1,
        g.len() == w * h,
        w * h >= 2,
        no_marker(g),
        chosen != Color::Marker,
        chosen != cell(g, w, 0, 0),
        chosen != cell(g, w, w - 1, h - 1),
        cell(g, w, 0, 0) != cell(g, w, w - 1, h - 1),
    ensures
        ({
            let g1 = recolored(g, w, h, 0, 0, cell(g, w, 0, 0), chosen);
            let b = best_color(g1, w, h, w - 1, h - 1, n, true);
            let g2 = recolored(g1, w, h, w - 1, h - 1, cell(g1, w, w - 1, h - 1), b);
            cell(g2, w, 0, 0) != cell(g2, w, w - 1, h - 1)
        }),
{
    let anchor = cell(g, w, 0, 0);
    let g1 = recolored(g, w, h, 0, 0, anchor, chosen);
    let m1 = marked(g, w, h, 0, 0, anchor);
    lemma_idx(w, h, 0, 0);
    lemma_idx(w, h, w - 1, h - 1);
    assert(!(w - 1 == 0 && h - 1 == 0)) by (nonlinear_arith)
        requires
            w >= 1,
            h >= 1,
            w * h >= 2,
    ;
    lemma_region_seed(g, w, h, 0, 0, anchor);
    assert(m1[idx(w, 0, 0)] == Color::Marker);
    assert(cell(g1, w, 0, 0) == chosen);
    if in_region(g, w, h, 0, 0, anchor, w - 1, h - 1) {
        lemma_region_color(g, w, h, 0, 0, anchor, w - 1, h - 1);
        assert(false);
    }
    assert(m1[idx(w, w - 1, h - 1)] == cell(g, w, w - 1, h - 1));
    assert(cell(g1, w, w - 1, h - 1) == cell(g, w, w - 1, h - 1));
    let cxy = cell(g1, w, w - 1, h - 1);
    let b = best_color(g1, w, h, w - 1, h - 1, n, true);
    let m2 = marked(g1, w, h, w - 1, h - 1, cxy);
    let g2 = recolored(g1, w, h, w - 1, h - 1, cxy, b);
    lemma_region_seed(g1, w, h, w - 1, h - 1, cxy);
    assert(m2[idx(w, w - 1, h - 1)] == Color::Marker);
    assert(cell(g2, w, w - 1, h - 1) == b);
    if in_region(g1, w, h, w - 1, h - 1, cxy, 0, 0) {
        lemma_region_color(g1, w, h, w - 1, h - 1, cxy, 0, 0);
        assert(false);
    }
    assert(m2[idx(w, 0, 0)] == chosen);
    assert(cell(g2, w, 0, 0) == chosen);
    lemma_best_from_legal(g1, w, h, w - 1, h - 1, true, n, 0, Color::Marker, 0);
    let r = best_from(g1, w, h, w - 1, h - 1, true, n, 0, Color::Marker, 0);
    if !(r.0 == Color::Marker && r.1 == 0) {
        assert(legal_candidate(b, g1, w, h, w - 1, h - 1, n, true));
        let j = choose|j: int|
            0 <= j < n && b == #[trigger] palette(j) && !skip_color(
                palette(j),
                cell(g1, w, w - 1, h - 1),
                cell(g1, w, 0, 0),
                cell(g1, w, w - 1, h - 1),
                true,
            );
        assert(b != chosen);
    }
}

/// A game: the playfield it owns, the number of active palette
/// colors, the mode, the rendering size of one cell, the number of
/// accepted player moves, and the two players' scores (meaningful in
/// versus mode only).
pub struct Game {
    pub playfield: Playfield,
    pub colors: u16,
    pub versus: bool,
    pub square_size: u16,
    pub played: u16,
    pub score: [u64; 2],
}

impl Game {
    /// The structural invariant: a well-formed playfield and a palette
    /// size within the fixed palette.
    pub open spec fn wf(self) -> bool {
        &&& self.playfield.wf()
        &&& 2 <= self.colors <= 12
    }

    /// The grid the game currently shows.
    pub open spec fn grid(self) -> Seq<Color> {
        self.playfield.squares@
    }

    /// Create a new game with the specified width/height, colors,
    /// game mode and square size; in versus mode the initial scores
    /// are computed at once, so they can be shown before any move.
    pub fn new(width: u16, height: u16, colors: u16, versus: bool, square_size: u16) -> (game:
        Game)
        requires
            width >= 1,
            height >= 1,
            2 <= colors <= 12,
        ensures
            game.wf(),
            game.playfield.width == width,
            game.playfield.height == height,
            game.colors == colors,
            game.versus == versus,
            game.square_size == square_size,
            game.played == 0,
            no_marker(game.grid()),
            forall|i: int|
                0 <= i < game.grid().len() ==> in_palette_prefix(
                    #[trigger] game.grid()[i],
                    colors as int,
                ),
            versus ==> game.grid()[0] == game.grid()[game.grid().len() - 1],
            versus ==> game.score[0] == region_score(
                game.grid(),
                width as int,
                height as int,
                0,
                0,
            ) && game.score[1] == region_score(
                game.grid(),
                width as int,
                height as int,
                width as int - 1,
                height as int - 1,
            ),
            !versus ==> game.score[0] == 0 && game.score[1] == 0,
    {
        let playfield = Playfield::new(width, height, colors, versus);
        let mut game = Game {
            playfield,
            colors,
            versus,
            square_size,
            played: 0,
            score: [0, 0],
        };
        if versus {
            game.compute_scores();
        }
        game
    }

    /// Compute the size of the connected region anchored at (x, y),
    /// on a throwaway copy of the current grid: the live grid is
    /// untouched, as the shared borrow already guarantees. The result
    /// is at least 1 and at most width * height.
    pub fn compute_score(&self, x: u16, y: u16) -> (r: u64)
        requires
            self.wf(),
            no_marker(self.grid()),
            x < self.playfield.width,
            y < self.playfield.height,
        ensures
            r == region_score(
                self.grid(),
                self.playfield.width as int,
                self.playfield.height as int,
                x as int,
                y as int,
            ),
            1 <= r <= (self.playfield.width as int) * (self.playfield.height as int),
    {
        let ghost g = self.grid();
        let ghost w = self.playfield.width as int;
        let ghost h = self.playfield.height as int;
        let mut playfield = self.playfield.clone();
        let color = playfield.get(x, y);
        proof {
            lemma_idx(w, h, x as int, y as int);
        }
        playfield.flood(x, y, color);
        let r = playfield.count_marker();
        proof {
            let m = marked(g, w, h, x as int, y as int, color);
            lemma_region_seed(g, w, h, x as int, y as int, color);
            assert(m[idx(w, x as int, y as int)] == Color::Marker);
            lemma_count_ge_one(m, Color::Marker, idx(w, x as int, y as int));
        }
        r
    }

    /// Recompute both players' scores from the current grid, which is
    /// left untouched.
    pub fn compute_scores(&mut self)
        requires
            old(self).wf(),
            no_marker(old(self).grid()),
        ensures
            final(self).playfield == old(self).playfield,
            final(self).colors == old(self).colors,
            final(self).versus == old(self).versus,
            final(self).square_size == old(self).square_size,
            final(self).played == old(self).played,
            final(self).score[0] == region_score(
                old(self).grid(),
                old(self).playfield.width as int,
                old(self).playfield.height as int,
                0,
                0,
            ),
            final(self).score[1] == region_score(
                old(self).grid(),
                old(self).playfield.width as int,
                old(self).playfield.height as int,
                old(self).playfield.width as int - 1,
                old(self).playfield.height as int - 1,
            ),
            1 <= final(self).score[0],
            1 <= final(self).score[1],
    {
        let s0 = self.compute_score(0, 0);
        let s1 = self.compute_score(self.playfield.width - 1, self.playfield.height - 1);
        self.score = [s0, s1];
    }

    /// Flood at (x, y) with the best color found: try every allowed
    /// candidate on an independent scratch copy of the grid, measure
    /// the region that (x, y) would then anchor, and apply the first
    /// strict maximizer (in palette order) to the live grid.
    pub fn flood_best_color(&mut self, x: u16, y: u16)
        requires
            old(self).wf(),
            no_marker(old(self).grid()),
            x < old(self).playfield.width,
            y < old(self).playfield.height,
        ensures
            final(self).wf(),
            final(self).playfield.width == old(self).playfield.width,
            final(self).playfield.height == old(self).playfield.height,
            final(self).colors == old(self).colors,
            final(self).versus == old(self).versus,
            final(self).square_size == old(self).square_size,
            final(self).played == old(self).played,
            final(self).score == old(self).score,
            final(self).grid() == recolored(
                old(self).grid(),
                old(self).playfield.width as int,
                old(self).playfield.height as int,
                x as int,
                y as int,
                cell(old(self).grid(), old(self).playfield.width as int, x as int, y as int),
                best_color(
                    old(self).grid(),
                    old(self).playfield.width as int,
                    old(self).playfield.height as int,
                    x as int,
                    y as int,
                    old(self).colors as int,
                    old(self).versus,
                ),
            ),
    {
        let ghost g = self.grid();
        let ghost w = self.playfield.width as int;
        let ghost h = self.playfield.height as int;
        let ghost n = self.colors as int;
        let ghost vs = self.versus;
        let mut best: Color = Color::Marker;
        let mut max_squares: u64 = 0;
        let color_xy = self.playfield.get(x, y);
        let color_top_left = self.playfield.get(0, 0);
        let color_bottom_right = self.playfield.get(
            self.playfield.width - 1,
            self.playfield.height - 1,
        );
        proof {
            lemma_idx(w, h, x as int, y as int);
        }
        let mut i: u16 = 0;
        while i < self.colors
            invariant
                *self == *old(self),
                self.wf(),
                no_marker(g),
                g == self.grid(),
                w == self.playfield.width as int,
                h == self.playfield.height as int,
                n == self.colors as int,
                vs == self.versus,
                x < self.playfield.width,
                y < self.playfield.height,
                color_xy == cell(g, w, x as int, y as int),
                color_xy != Color::Marker,
                color_top_left == cell(g, w, 0, 0),
                color_bottom_right == cell(g, w, w - 1, h - 1),
                i <= self.colors,
                best_from(g, w, h, x as int, y as int, vs, n, 0, Color::Marker, 0) == best_from(
                    g,
                    w,
                    h,
                    x as int,
                    y as int,
                    vs,
                    n,
                    i as int,
                    best,
                    max_squares as nat,
                ),
            decreases self.colors - i,
        {
            let ghost best_pre = best;
            let ghost max_pre = max_squares;
            let c = palette_color(i);
            let skip = c == color_xy || (self.versus && (c == color_top_left || c
                == color_bottom_right));
            if !skip {
                let mut playfield = self.playfield.clone();
                playfield.flood(x, y, color_xy);
                playfield.flood_end(c);
                proof {
                    lemma_palette_not_marker(i as int);
                    lemma_flood_then_end_no_marker(g, w, h, x as int, y as int, color_xy, c);
                    assert(playfield.squares@ == recolored(
                        g,
                        w,
                        h,
                        x as int,
                        y as int,
                        color_xy,
                        c,
                    ));
                }
                playfield.flood(x, y, c);
                let count = playfield.count_marker();
                proof {
                    assert(count == candidate_value(g, w, h, x as int, y as int, c));
                }
                if count > max_squares {
                    best = c;
                    max_squares = count;
                }
            }
            proof {
                assert(best_from(g, w, h, x as int, y as int, vs, n, i as int, best_pre, max_pre as nat)
                    == best_from(g, w, h, x as int, y as int, vs, n, i as int + 1, best, max_squares as nat));
            }
            i = i + 1;
        }
        proof {
            assert(best_from(g, w, h, x as int, y as int, vs, n, n, best, max_squares as nat)
                == (best, max_squares as nat));
            assert(best == best_color(g, w, h, x as int, y as int, n, vs));
        }
        self.playfield.flood(x, y, color_xy);
        self.playfield.flood_end(best);
    }

    /// One player turn. The move is rejected - a silent no-op, not an
    /// error - when the chosen color already sits on the own home
    /// base or, in versus mode, on the opponent's. Otherwise the
    /// region anchored at (0, 0) is recolored to the chosen color and
    /// the move is counted; in versus mode the opponent immediately
    /// replies with its best color at the far corner and both scores
    /// are recomputed. A versus game needs at least three colors,
    /// else the opponent's search could run out of allowed candidates
    /// and corrupt the grid with the marker.
    pub fn apply_move(&mut self, chosen: Color)
        requires
            old(self).wf(),
            no_marker(old(self).grid()),
            chosen != Color::Marker,
            old(self).played < u16::MAX,
            old(self).versus ==> old(self).colors >= 3,
        ensures
            final(self).wf(),
            final(self).playfield.width == old(self).playfield.width,
            final(self).playfield.height == old(self).playfield.height,
            final(self).colors == old(self).colors,
            final(self).versus == old(self).versus,
            final(self).square_size == old(self).square_size,
            no_marker(final(self).grid()),
            move_rejected(
                old(self).grid(),
                old(self).playfield.width as int,
                old(self).playfield.height as int,
                old(self).versus,
                chosen,
            ) ==> final(self).grid() == old(self).grid() && final(self).played == old(self).played
                && final(self).score == old(self).score,
            !move_rejected(
                old(self).grid(),
                old(self).playfield.width as int,
                old(self).playfield.height as int,
                old(self).versus,
                chosen,
            ) ==> final(self).played == old(self).played + 1,
            !move_rejected(
                old(self).grid(),
                old(self).playfield.width as int,
                old(self).playfield.height as int,
                old(self).versus,
                chosen,
            ) && !old(self).versus ==> final(self).grid() == recolored(
                old(self).grid(),
                old(self).playfield.width as int,
                old(self).playfield.height as int,
                0,
                0,
                cell(old(self).grid(), old(self).playfield.width as int, 0, 0),
                chosen,
            ) && final(self).score == old(self).score,
            !move_rejected(
                old(self).grid(),
                old(self).playfield.width as int,
                old(self).playfield.height as int,
                old(self).versus,
                chosen,
            ) && old(self).versus ==> ({
                let w = old(self).playfield.width as int;
                let h = old(self).playfield.height as int;
                let g1 = recolored(
                    old(self).grid(),
                    w,
                    h,
                    0,
                    0,
                    cell(old(self).grid(), w, 0, 0),
                    chosen,
                );
                let b = best_color(g1, w, h, w - 1, h - 1, old(self).colors as int, true);
                let g2 = recolored(g1, w, h, w - 1, h - 1, cell(g1, w, w - 1, h - 1), b);
                &&& final(self).grid() == g2
                &&& final(self).score[0] == region_score(g2, w, h, 0, 0)
                &&& final(self).score[1] == region_score(g2, w, h, w - 1, h - 1)
            }),
    {
        let ghost g = self.grid();
        let ghost w = self.playfield.width as int;
        let ghost h = self.playfield.height as int;
        let color_top_left = self.playfield.get(0, 0);
        let color_bottom_right = self.playfield.get(
            self.playfield.width - 1,
            self.playfield.height - 1,
        );
        if chosen == color_top_left || (self.versus && chosen == color_bottom_right) {
            return ;
        }
        proof {
            lemma_idx(w, h, 0, 0);
        }
        self.playfield.flood(0, 0, color_top_left);
        self.playfield.flood_end(chosen);
        self.played = self.played + 1;
        if self.versus {
            let ghost g1 = self.grid();
            proof {
                lemma_flood_then_end_no_marker(g, w, h, 0, 0, color_top_left, chosen);
            }
            let bx = self.playfield.width - 1;
            let by = self.playfield.height - 1;
            self.flood_best_color(bx, by);
            proof {
                let n = self.colors as int;
                let b = best_color(g1, w, h, w - 1, h - 1, n, true);
                lemma_idx(w, h, w - 1, h - 1);
                lemma_palette_distinct(0, 1);
                lemma_palette_distinct(0, 2);
                lemma_palette_distinct(1, 2);
                let cxy = cell(g1, w, w - 1, h - 1);
                let tl1 = cell(g1, w, 0, 0);
                assert(exists|j: int|
                    0 <= j < n && !skip_color(#[trigger] palette(j), cxy, tl1, cxy, true)) by {
                    if !skip_color(palette(0), cxy, tl1, cxy, true) {
                    } else if !skip_color(palette(1), cxy, tl1, cxy, true) {
                    } else {
                        assert(!skip_color(palette(2), cxy, tl1, cxy, true));
                    }
                }
                lemma_best_from_pos(g1, w, h, w - 1, h - 1, true, n, 0, Color::Marker, 0);
                lemma_best_from_legal(g1, w, h, w - 1, h - 1, true, n, 0, Color::Marker, 0);
                assert(legal_candidate(b, g1, w, h, w - 1, h - 1, n, true));
                let j = choose|j: int|
                    0 <= j < n && b == #[trigger] palette(j) && !skip_color(
                        palette(j),
                        cell(g1, w, w - 1, h - 1),
                        cell(g1, w, 0, 0),
                        cell(g1, w, w - 1, h - 1),
                        true,
                    );
                lemma_palette_not_marker(j);
                assert(b != Color::Marker);
                lemma_flood_then_end_no_marker(g1, w, h, w - 1, h - 1, cxy, b);
            }
            self.compute_scores();
        }
    }
}

} // verus!
