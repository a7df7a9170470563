use ironflood::color::Color;
use ironflood::game::Game;
use ironflood::playfield::Playfield;

#[test]
fn test_new_game() {
    let game = Game::new(20, 10, 6, true, 20);
    assert_eq!(
        game.playfield.squares[0],
        game.playfield.squares[20 * 10 - 1]
    );
    assert_eq!(game.playfield.width, 20);
    assert_eq!(game.playfield.height, 10);
    assert_eq!(game.colors, 6);
    assert!(game.versus);
    assert_eq!(game.square_size, 20);
    assert_eq!(game.played, 0);
    assert_ne!(game.score, [0, 0]);
}

#[test]
fn test_compute_scores() {
    let mut game = Game {
        playfield: Playfield {
            // test squares: 3x3, ## = blue, .. = red
            //   ## ## ..
            //   ## .. ..
            //   .. .. ..
            squares: vec![
                Color::Blue, // line 1
                Color::Blue,
                Color::Red,
                Color::Blue, // line 2
                Color::Red,
                Color::Red,
                Color::Red, // line 3
                Color::Red,
                Color::Red,
            ],
            width: 3,
            height: 3,
        },
        colors: 2,
        versus: true,
        square_size: 20,
        played: 0,
        score: [0; 2],
    };
    game.compute_scores();
    assert_eq!(game.score, [3, 6]);
}

#[test]
fn test_flood_best_color() {
    let mut game = Game::new(4, 4, 6, true, 20);
    game.playfield = Playfield {
        // test squares: 4x4, ## = blue, .. = red, %% = cyan, @@ = green
        //   ## ## .. %%
        //   ## ## %% %%
        //   ## %% .. ..
        //   @@ @@ .. ..
        squares: vec![
            Color::Blue, // line 1
            Color::Blue,
            Color::Red,
            Color::Cyan,
            Color::Blue, // line 2
            Color::Blue,
            Color::Cyan,
            Color::Cyan,
            Color::Blue, // line 3
            Color::Cyan,
            Color::Red,
            Color::Red,
            Color::Green, // line 4
            Color::Green,
            Color::Red,
            Color::Red,
        ],
        width: 4,
        height: 4,
    };
    game.flood_best_color(3, 3);
    assert_eq!(game.playfield.squares[4 * 4 - 1], Color::Cyan);
}

fn p6_game(colors: u16, versus: bool) -> Game {
    Game {
        playfield: Playfield {
            squares: vec![
                Color::Blue,
                Color::Blue,
                Color::Red,
                Color::Blue,
                Color::Red,
                Color::Red,
                Color::Red,
                Color::Red,
                Color::Red,
            ],
            width: 3,
            height: 3,
        },
        colors,
        versus,
        square_size: 20,
        played: 0,
        score: [0; 2],
    }
}

#[test]
fn test_compute_score_bounds() {
    let game = p6_game(2, true);
    for y in 0..3u16 {
        for x in 0..3u16 {
            let r = game.compute_score(x, y);
            assert!(r >= 1);
            assert!(r <= 9);
        }
    }
    assert_eq!(game.compute_score(1, 0), 3);
    assert_eq!(game.compute_score(2, 0), 6);
}

#[test]
fn test_compute_score_single_cell_grid() {
    let game = Game {
        playfield: Playfield {
            squares: vec![Color::Purple],
            width: 1,
            height: 1,
        },
        colors: 2,
        versus: false,
        square_size: 20,
        played: 0,
        score: [0; 2],
    };
    assert_eq!(game.compute_score(0, 0), 1);
}

#[test]
fn test_compute_score_does_not_mutate() {
    let game = p6_game(2, true);
    let before = game.playfield.squares.clone();
    let _ = game.compute_score(1, 1);
    let _ = game.compute_score(0, 0);
    assert_eq!(game.playfield.squares, before);
}

#[test]
fn test_apply_move_rejected_own_base() {
    let mut game = p6_game(3, true);
    let before = game.playfield.squares.clone();
    game.apply_move(Color::Blue);
    assert_eq!(game.playfield.squares, before);
    assert_eq!(game.played, 0);
}

#[test]
fn test_apply_move_rejected_opponent_base() {
    let mut game = p6_game(3, true);
    let before = game.playfield.squares.clone();
    game.apply_move(Color::Red);
    assert_eq!(game.playfield.squares, before);
    assert_eq!(game.played, 0);
}

#[test]
fn test_apply_move_single_player() {
    let mut game = Game {
        playfield: Playfield {
            squares: vec![Color::Blue, Color::Red, Color::Red, Color::Red],
            width: 2,
            height: 2,
        },
        colors: 2,
        versus: false,
        square_size: 20,
        played: 0,
        score: [0; 2],
    };
    game.apply_move(Color::Red);
    assert_eq!(game.playfield.squares, vec![Color::Red; 4]);
    assert_eq!(game.played, 1);
    assert_eq!(game.score, [0, 0]);
}

#[test]
fn test_apply_move_versus_full_turn() {
    let mut game = p6_game(3, true);
    game.apply_move(Color::Green);
    // the player's region turns green, then the opponent replies with
    // blue (red and green are forbidden), taking the whole red region
    assert_eq!(
        game.playfield.squares,
        vec![
            Color::Green,
            Color::Green,
            Color::Blue,
            Color::Green,
            Color::Blue,
            Color::Blue,
            Color::Blue,
            Color::Blue,
            Color::Blue,
        ]
    );
    assert_eq!(game.played, 1);
    assert_eq!(game.score, [3, 6]);
    // the two home bases never share a color after an accepted move
    assert_ne!(game.playfield.squares[0], game.playfield.squares[8]);
}

#[test]
fn test_flood_best_color_all_candidates_forbidden() {
    let mut game = Game {
        playfield: Playfield {
            squares: vec![Color::Blue, Color::Red],
            width: 2,
            height: 1,
        },
        colors: 2,
        versus: true,
        square_size: 20,
        played: 0,
        score: [0; 2],
    };
    // blue is the far base's opponent color and red its own color, so
    // with only two palette colors every candidate is skipped and the
    // inherited degenerate behavior applies the marker itself
    game.flood_best_color(1, 0);
    assert_eq!(game.playfield.squares, vec![Color::Blue, Color::Marker]);
}

#[test]
fn test_new_game_single_player() {
    let game = Game::new(5, 7, 4, false, 32);
    assert_eq!(game.playfield.squares.len(), 35);
    assert_eq!(game.score, [0, 0]);
    assert_eq!(game.played, 0);
    assert!(!game.versus);
    assert_eq!(game.square_size, 32);
}
