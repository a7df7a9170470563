use ironflood::color::Color;
use ironflood::palette_color;
use ironflood::playfield::Playfield;

fn grid_3x3() -> Playfield {
    Playfield {
        squares: vec![
            Color::Blue,
            Color::Blue,
            Color::Red,
            Color::Blue,
            Color::Red,
            Color::Red,
            Color::Red,
            Color::Red,
            Color::Red,
        ],
        width: 3,
        height: 3,
    }
}

#[test]
fn test_palette_order() {
    let expected = [
        Color::Blue,
        Color::Red,
        Color::Green,
        Color::Yellow,
        Color::Magenta,
        Color::Cyan,
        Color::Black,
        Color::White,
        Color::Orange,
        Color::DarkGray,
        Color::DarkGreen,
        Color::Purple,
    ];
    for i in 0..12u16 {
        assert_eq!(palette_color(i), expected[i as usize]);
        assert_ne!(palette_color(i), Color::Marker);
    }
}

#[test]
fn test_flood_marks_connected_region() {
    let mut pf = grid_3x3();
    pf.flood(0, 0, Color::Blue);
    assert_eq!(
        pf.squares,
        vec![
            Color::Marker,
            Color::Marker,
            Color::Red,
            Color::Marker,
            Color::Red,
            Color::Red,
            Color::Red,
            Color::Red,
            Color::Red,
        ]
    );
    assert_eq!(pf.count_marker(), 3);
}

#[test]
fn test_flood_does_not_cross_diagonals() {
    let mut pf = Playfield {
        // reds touch only at the diagonal, so the flood takes one of
        // the two red cells
        squares: vec![Color::Red, Color::Blue, Color::Blue, Color::Red],
        width: 2,
        height: 2,
    };
    pf.flood(0, 0, Color::Red);
    assert_eq!(
        pf.squares,
        vec![Color::Marker, Color::Blue, Color::Blue, Color::Red]
    );
    assert_eq!(pf.count_marker(), 1);
}

#[test]
fn test_flood_end_replaces_every_marker() {
    let mut pf = grid_3x3();
    pf.flood(0, 0, Color::Blue);
    pf.flood_end(Color::Green);
    for c in &pf.squares {
        assert_ne!(*c, Color::Marker);
    }
    assert_eq!(
        pf.squares,
        vec![
            Color::Green,
            Color::Green,
            Color::Red,
            Color::Green,
            Color::Red,
            Color::Red,
            Color::Red,
            Color::Red,
            Color::Red,
        ]
    );
    assert_eq!(pf.count_marker(), 0);
}

#[test]
fn test_flood_seed_recolored_regardless_of_its_color() {
    let mut pf = grid_3x3();
    // flood at (0, 0) targeting red: the seed is blue, but it is
    // marked anyway; its red neighbors are not 4-connected to it
    // through red cells, so nothing else is marked
    pf.flood(0, 0, Color::Red);
    assert_eq!(pf.squares[0], Color::Marker);
    assert_eq!(pf.count_marker(), 1);
}

#[test]
fn test_fresh_grid_has_no_marker() {
    let pf = Playfield::new(6, 4, 3, false);
    assert_eq!(pf.squares.len(), 24);
    assert_eq!(pf.count_marker(), 0);
}

#[test]
fn test_random_cells_stay_in_palette_prefix() {
    let pf = Playfield::new(5, 5, 2, false);
    for c in &pf.squares {
        assert!(*c == Color::Blue || *c == Color::Red);
    }
}

#[test]
fn test_versus_grid_corners_match() {
    for _ in 0..10 {
        let pf = Playfield::new(4, 3, 5, true);
        assert_eq!(pf.squares[0], pf.squares[11]);
    }
}
