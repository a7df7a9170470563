use vstd::prelude::*;

verus! {

/// A cell color: one of the twelve palette colors, or the reserved
/// marker used transiently while a flood operation is in progress.
/// The marker is distinct from every palette color and must never be
/// left in a grid that a caller goes on to play on.
#[derive(Clone, Copy, PartialEq, Eq, Structural, Debug)]
pub enum Color {
    Blue,
    Red,
    Green,
    Yellow,
    Magenta,
    Cyan,
    Black,
    White,
    Orange,
    DarkGray,
    DarkGreen,
    Purple,
    Marker,
}

/// The fixed palette order. Candidate colors are always drawn from a
/// prefix of this ordering, so it doubles as the tie-break order of
/// the best-color search.
pub open spec fn palette(i: int) -> Color {
    if i == 0 {
        Color::Blue
    } else if i == 1 {
        Color::Red
    } else if i == 2 {
        Color::Green
    } else if i == 3 {
        Color::Yellow
    } else if i == 4 {
        Color::Magenta
    } else if i == 5 {
        Color::Cyan
    } else if i == 6 {
        Color::Black
    } else if i == 7 {
        Color::White
    } else if i == 8 {
        Color::Orange
    } else if i == 9 {
        Color::DarkGray
    } else if i == 10 {
        Color::DarkGreen
    } else {
        Color::Purple
    }
}

/// `c` is one of the first `n` palette colors.
pub open spec fn in_palette_prefix(c: Color, n: int) -> bool {
    exists|i: int| 0 <= i < n && c == palette(i)
}

/// No palette entry is the reserved marker.
pub proof fn lemma_palette_not_marker(i: int)
    ensures
        palette(i) != Color::Marker,
{
}

/// The palette holds twelve pairwise distinct colors.
pub proof fn lemma_palette_distinct(i: int, j: int)
    requires
        0 <= i < 12,
        0 <= j < 12,
        i != j,
    ensures
        palette(i) != palette(j),
{
}

/// Executable lookup into the fixed palette.
pub fn palette_color(i: u16) -> (c: Color)
    requires
        i < 12,
    ensures
        c == palette(i as int),
{
    match i {
        0 => Color::Blue,
        1 => Color::Red,
        2 => Color::Green,
        3 => Color::Yellow,
        4 => Color::Magenta,
        5 => Color::Cyan,
        6 => Color::Black,
        7 => Color::White,
        8 => Color::Orange,
        9 => Color::DarkGray,
        10 => Color::DarkGreen,
        _ => Color::Purple,
    }
}

} // verus!
