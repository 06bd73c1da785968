use daily_challenges::langton::Direction::{DirectionMax, East, North, South, West};
use daily_challenges::langton::Rotation::{CCW, CW};
use daily_challenges::langton::{
    csi, langton, reset_graphics, set_bg_color, Ant, Direction, Plane, Position, Rotation, Tile,
};

#[test]
fn turning() {
    assert_eq!(North.add(CW), East);
    assert_eq!(East.add(CW), South);
    assert_eq!(South.add(CW), West);
    assert_eq!(West.add(CW), North);
    assert_eq!(North.add(CCW), West);
    assert_eq!(West.add(CCW), South);
    assert_eq!(South.add(CCW), East);
    assert_eq!(East.add(CCW), North);
    assert_eq!(DirectionMax.add(CW), DirectionMax);
    assert_eq!(DirectionMax.add(CCW), DirectionMax);
}

#[test]
fn turn_undone_and_four_turns() {
    for d in [North, East, South, West, DirectionMax] {
        assert_eq!(d.add(Rotation::CW).add(Rotation::CCW), d);
        for r in [Rotation::CW, Rotation::CCW] {
            assert_eq!(d.add(r).add(r).add(r).add(r), d);
        }
    }
}

#[test]
fn moving_wraps_around() {
    let mut ant = Ant::new(Position { x: 0, y: 4 }, Direction::North);
    ant.move_forward(5);
    assert_eq!(ant.pos, Position { x: 0, y: 0 });
    ant.dir = Direction::South;
    ant.move_forward(5);
    assert_eq!(ant.pos, Position { x: 0, y: 4 });
    ant.dir = Direction::West;
    ant.move_forward(5);
    assert_eq!(ant.pos, Position { x: 4, y: 4 });
    ant.dir = Direction::East;
    ant.move_forward(5);
    assert_eq!(ant.pos, Position { x: 0, y: 4 });
    ant.move_forward(5);
    assert_eq!(ant.pos, Position { x: 1, y: 4 });
    ant.dir = Direction::DirectionMax;
    ant.move_forward(5);
    assert_eq!(ant.pos, Position { x: 1, y: 4 });
    assert_eq!(ant.dir, Direction::DirectionMax);
}

#[test]
fn step_back_returns() {
    for d in [Direction::North, Direction::East, Direction::South, Direction::West] {
        for (x, y) in [(0, 0), (2, 3), (4, 4)] {
            let mut ant = Ant::new(Position { x, y }, d);
            ant.move_forward(5);
            ant.dir = ant.dir.add(Rotation::CW).add(Rotation::CW);
            ant.move_forward(5);
            assert_eq!(ant.pos, Position { x, y });
        }
    }
}

#[test]
fn new_plane_from_instruction() {
    let plane = Plane::new(&String::from("LRlX"));
    assert_eq!(plane.dim, 80);
    assert_eq!(plane.x_dim(), 80);
    assert_eq!(plane.y_dim(), 80);
    assert_eq!(plane.board.len(), 80);
    assert!(plane.board.iter().all(|row| row.len() == 80 && row.iter().all(|&c| c == 0)));
    assert_eq!(
        plane.tiles,
        vec![
            Tile { color: 0, rotation: Rotation::CCW },
            Tile { color: 1, rotation: Rotation::CW },
            Tile { color: 2, rotation: Rotation::CCW },
            Tile { color: 3, rotation: Rotation::CW },
        ]
    );
    assert_eq!(plane.tiles_text(), b"[0:CCW, 1:CW, 2:CCW, 3:CW]".to_vec());
}

#[test]
fn tile_colors_wrap_at_a_byte() {
    let text: String = std::iter::repeat('R').take(300).collect();
    let plane = Plane::new(&text);
    assert_eq!(plane.tiles.len(), 300);
    assert_eq!(plane.tiles[255].color, 255);
    assert_eq!(plane.tiles[256].color, 0);
    assert_eq!(plane.tiles[299].color, 43);
}

#[test]
fn flipping_cycles_through_kinds() {
    let mut plane = Plane::new(&String::from("RLR"));
    let p = Position { x: 3, y: 7 };
    assert_eq!(plane.get_tile_rotation(p), Rotation::CW);
    plane.flip_tile(p);
    assert_eq!(plane.board[3][7], 1);
    assert_eq!(plane.get_tile_rotation(p), Rotation::CCW);
    plane.flip_tile(p);
    assert_eq!(plane.board[3][7], 2);
    plane.flip_tile(p);
    assert_eq!(plane.board[3][7], 0);
    assert_eq!(plane.board[7][3], 0);
}

#[test]
fn classic_ant_first_moves() {
    let (plane, ant) = langton(&String::from("RL"), 5);
    assert_eq!(ant.pos, Position { x: 39, y: 40 });
    assert_eq!(ant.dir, Direction::West);
    assert_eq!(plane.board[40][40], 0);
    assert_eq!(plane.board[41][40], 1);
    assert_eq!(plane.board[41][39], 1);
    assert_eq!(plane.board[40][39], 1);
    let ones: usize = plane.board.iter().map(|r| r.iter().filter(|&&c| c == 1).count()).sum();
    assert_eq!(ones, 3);
}

#[test]
fn running_in_two_parts() {
    let (plane_a, ant_a) = langton(&String::from("RLLR"), 700);
    let mut plane_b = Plane::new(&String::from("RLLR"));
    let mut ant_b = Ant::new(Position { x: 40, y: 40 }, Direction::North);
    plane_b.run(&mut ant_b, 300);
    plane_b.run(&mut ant_b, 400);
    assert_eq!(ant_a, ant_b);
    assert_eq!(plane_a.board, plane_b.board);
}

#[test]
fn zero_iterations_with_empty_instruction() {
    let (plane, ant) = langton(&String::new(), 0);
    assert_eq!(plane.tiles.len(), 0);
    assert_eq!(ant.pos, Position { x: 40, y: 40 });
    assert_eq!(ant.dir, Direction::North);
}

#[test]
fn control_sequences() {
    let mut f = Vec::new();
    csi(&mut f);
    assert_eq!(f, b"\x1b[".to_vec());
    let mut f = Vec::new();
    set_bg_color(&mut f, 3);
    assert_eq!(f, b"\x1b[43m".to_vec());
    let mut f = Vec::new();
    set_bg_color(&mut f, 250);
    assert_eq!(f, b"\x1b[34m".to_vec());
    let mut f = Vec::new();
    reset_graphics(&mut f);
    assert_eq!(f, b"\x1b[0m".to_vec());
}

#[test]
fn rendering_a_small_board() {
    let plane = Plane {
        dim: 2,
        board: vec![vec![0, 1], vec![1, 0]],
        tiles: vec![
            Tile { color: 0, rotation: Rotation::CW },
            Tile { color: 1, rotation: Rotation::CCW },
        ],
    };
    let expected = b"\x1b[0m\x1b[40m0 \x1b[41m1 \n\x1b[41m1 \x1b[40m0 \n\x1b[0m\n".to_vec();
    assert_eq!(plane.render(), expected);
    assert_eq!(plane.tiles[1].render(), b"1:CCW".to_vec());
    assert_eq!(plane.tiles[0].render(), b"0:CW".to_vec());
}

#[test]
fn as_many_flips_as_kinds_restore_the_board() {
    let mut plane = Plane::new(&String::from("RLLRL"));
    let (before, _) = langton(&String::from("RLLRL"), 50);
    plane.board = before.board.clone();
    let p = Position { x: 40, y: 40 };
    for _ in 0..5 {
        plane.flip_tile(p);
    }
    assert_eq!(plane.board, before.board);
}

#[test]
fn boards_of_any_shape() {
    let mut plane = Plane {
        dim: 7,
        board: vec![vec![2], vec![0, 1, 2]],
        tiles: vec![
            Tile { color: 0, rotation: Rotation::CW },
            Tile { color: 1, rotation: Rotation::CCW },
            Tile { color: 2, rotation: Rotation::CW },
        ],
    };
    assert_eq!(plane.get_tile_rotation(Position { x: 1, y: 1 }), Rotation::CCW);
    assert_eq!(
        plane.render(),
        b"\x1b[0m\x1b[42m2 \n\x1b[40m0 \x1b[41m1 \x1b[42m2 \n\x1b[0m\n".to_vec()
    );
    plane.flip_tile(Position { x: 0, y: 0 });
    assert_eq!(plane.board, vec![vec![0], vec![0, 1, 2]]);
    plane.board[1][2] = usize::MAX;
    plane.flip_tile(Position { x: 1, y: 2 });
    assert_eq!(plane.board[1][2], 0);
}
