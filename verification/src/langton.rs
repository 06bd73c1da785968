//! A Langton's ant generalised to many colours: each tile colour turns the ant
//! clockwise or counter-clockwise, the tile under the ant moves on to the next
//! colour, and the ant steps forward on a board that wraps around at its edges.

use vstd::prelude::*;
use crate::decimal::{decimal, push_decimal};
use vstd::arithmetic::div_mod::lemma_fundamental_div_mod_converse;

verus! {

/// A heading of the ant; `DirectionMax` is no heading at all.
#[derive(Clone, Copy, PartialEq, Eq, Debug, Structural)]
pub enum Direction {
    North,
    East,
    South,
    West,
    DirectionMax,
}

/// A quarter turn: counter-clockwise or clockwise.
#[derive(Clone, Copy, PartialEq, Eq, Debug, Structural)]
pub enum Rotation {
    CCW,
    CW,
}

/// The number of a heading, counting quarter turns clockwise from North.
pub open spec fn heading_index(d: Direction) -> int {
    match d {
        Direction::North => 0,
        Direction::East => 1,
        Direction::South => 2,
        Direction::West => 3,
        Direction::DirectionMax => 4,
    }
}

/// The heading with the given number.
pub open spec fn heading_of(i: int) -> Direction {
    if i == 0 {
        Direction::North
    } else if i == 1 {
        Direction::East
    } else if i == 2 {
        Direction::South
    } else if i == 3 {
        Direction::West
    } else {
        Direction::DirectionMax
    }
}

/// The signed size of a rotation in quarter turns: -1 counter-clockwise, +1 clockwise.
pub open spec fn rotation_value(r: Rotation) -> int {
    match r {
        Rotation::CCW => -1,
        Rotation::CW => 1,
    }
}

/// The heading after a quarter turn; no heading stays no heading.
pub open spec fn turned(d: Direction, r: Rotation) -> Direction {
    if d == Direction::DirectionMax {
        Direction::DirectionMax
    } else {
        heading_of((heading_index(d) + rotation_value(r)) % 4)
    }
}

impl Direction {
    /// Turns this heading by a quarter turn.
    pub fn add(self, rhs: Rotation) -> (r: Direction)
        ensures
            r == turned(self, rhs),
    {
        match (self, rhs) {
            (Direction::North, Rotation::CW) => Direction::East,
            (Direction::East, Rotation::CW) => Direction::South,
            (Direction::South, Rotation::CW) => Direction::West,
            (Direction::West, Rotation::CW) => Direction::North,
            (Direction::North, Rotation::CCW) => Direction::West,
            (Direction::West, Rotation::CCW) => Direction::South,
            (Direction::South, Rotation::CCW) => Direction::East,
            (Direction::East, Rotation::CCW) => Direction::North,
            (_, _) => Direction::DirectionMax,
        }
    }
}

/// A turn followed by the opposite turn gives back the heading.
pub proof fn lemma_turn_undone(d: Direction)
    ensures
        turned(turned(d, Rotation::CW), Rotation::CCW) == d,
        turned(turned(d, Rotation::CCW), Rotation::CW) == d,
{
}

/// A quarter turn always changes a heading, and so do two quarter turns the
/// same way (they face the ant the opposite way); the two turns are different.
pub proof fn lemma_turn_changes_heading(d: Direction, r: Rotation)
    requires
        d != Direction::DirectionMax,
    ensures
        turned(d, r) != d,
        turned(d, r) != Direction::DirectionMax,
        turned(turned(d, r), r) != d,
        turned(d, Rotation::CW) != turned(d, Rotation::CCW),
{
}

/// Four quarter turns the same way give back the heading.
pub proof fn lemma_four_turns(d: Direction, r: Rotation)
    ensures
        turned(turned(turned(turned(d, r), r), r), r) == d,
{
}

/// A tile position on the board.
#[derive(Clone, Copy, PartialEq, Eq, Debug, Structural)]
pub struct Position {
    pub x: usize,
    pub y: usize,
}

/// The ant: where it stands and where it is heading.
#[derive(Clone, Copy, PartialEq, Eq, Debug, Structural)]
pub struct Ant {
    pub pos: Position,
    pub dir: Direction,
}

/// Where a step forward from `p` in heading `d` leads on a board of side
/// `dim`: one tile further, or to the opposite edge once the last tile in
/// that heading is passed.
pub open spec fn stepped(p: Position, d: Direction, dim: usize) -> Position {
    match d {
        Direction::North => Position { x: p.x, y: if p.y < dim - 1 { (p.y + 1) as usize } else { 0 } },
        Direction::East => Position { x: if p.x < dim - 1 { (p.x + 1) as usize } else { 0 }, y: p.y },
        Direction::South => Position { x: p.x, y: if p.y != 0 { (p.y - 1) as usize } else { (dim - 1) as usize } },
        Direction::West => Position { x: if p.x != 0 { (p.x - 1) as usize } else { (dim - 1) as usize }, y: p.y },
        Direction::DirectionMax => p,
    }
}

impl Ant {
    /// An ant at `position` heading `direction`.
    pub fn new(position: Position, direction: Direction) -> (a: Ant)
        ensures
            a.pos == position,
            a.dir == direction,
    {
        Ant { pos: position, dir: direction }
    }

    /// Steps the ant one tile forward on a board of side `dim` that wraps
    /// around at its edges.
    pub fn move_forward(&mut self, dim: usize)
        requires
            dim > 0,
        ensures
            final(self).dir == old(self).dir,
            final(self).pos == stepped(old(self).pos, old(self).dir, dim),
    {
        match self.dir {
            Direction::North => {
                if self.pos.y < dim - 1 {
                    self.pos.y = self.pos.y + 1;
                } else {
                    self.pos.y = 0;
                }
            },
            Direction::East => {
                if self.pos.x < dim - 1 {
                    self.pos.x = self.pos.x + 1;
                } else {
                    self.pos.x = 0;
                }
            },
            Direction::South => {
                if self.pos.y != 0 {
                    self.pos.y = self.pos.y - 1;
                } else {
                    self.pos.y = dim - 1;
                }
            },
            Direction::West => {
                if self.pos.x != 0 {
                    self.pos.x = self.pos.x - 1;
                } else {
                    self.pos.x = dim - 1;
                }
            },
            _ => {},
        }
    }
}

/// On the board, a step is modular arithmetic: North adds one to `y` and South
/// takes one away, East and West do the same to `x`, all modulo the side; the
/// ant never leaves the board.
pub proof fn lemma_step_is_modular(p: Position, d: Direction, dim: usize)
    requires
        dim > 0,
        p.x < dim,
        p.y < dim,
    ensures
        stepped(p, d, dim).x < dim,
        stepped(p, d, dim).y < dim,
        d == Direction::North ==> stepped(p, d, dim).y == (p.y + 1) % (dim as int),
        d == Direction::South ==> stepped(p, d, dim).y == (p.y + dim - 1) % (dim as int),
        d == Direction::East ==> stepped(p, d, dim).x == (p.x + 1) % (dim as int),
        d == Direction::West ==> stepped(p, d, dim).x == (p.x + dim - 1) % (dim as int),
        d == Direction::North || d == Direction::South ==> stepped(p, d, dim).x == p.x,
        d == Direction::East || d == Direction::West ==> stepped(p, d, dim).y == p.y,
{
    let m = dim as int;
    lemma_wrap_up(p.y as int, m);
    lemma_wrap_up(p.x as int, m);
    lemma_wrap_down(p.y as int, m);
    lemma_wrap_down(p.x as int, m);
}

/// One up, modulo `m`, from a value below `m`.
proof fn lemma_wrap_up(v: int, m: int)
    requires
        0 <= v < m,
    ensures
        (v + 1) % m == if v < m - 1 { v + 1 } else { 0 },
{
    if v < m - 1 {
        lemma_fundamental_div_mod_converse(v + 1, m, 0, v + 1);
    } else {
        lemma_fundamental_div_mod_converse(v + 1, m, 1, 0);
    }
}

/// One down, modulo `m`, from a value below `m`.
proof fn lemma_wrap_down(v: int, m: int)
    requires
        0 <= v < m,
    ensures
        (v + m - 1) % m == if v != 0 { v - 1 } else { m - 1 },
{
    if v != 0 {
        lemma_fundamental_div_mod_converse(v + m - 1, m, 1, v - 1);
    } else {
        lemma_fundamental_div_mod_converse(v + m - 1, m, 0, m - 1);
    }
}

/// A step forward, a half turn and a step forward bring the ant back.
pub proof fn lemma_step_back(p: Position, d: Direction, dim: usize)
    requires
        dim > 0,
        p.x < dim,
        p.y < dim,
    ensures
        stepped(stepped(p, d, dim), turned(turned(d, Rotation::CW), Rotation::CW), dim) == p,
{
}

/// A tile kind: its colour number and the turn it makes the ant take.
#[derive(Clone, Copy, PartialEq, Eq, Debug, Structural)]
pub struct Tile {
    pub color: u8,
    pub rotation: Rotation,
}

/// The turn that an instruction letter stands for: `L` or `l` counter-clockwise,
/// any other letter clockwise.
pub open spec fn rotation_of(c: char) -> Rotation {
    if c == 'L' || c == 'l' {
        Rotation::CCW
    } else {
        Rotation::CW
    }
}

/// The tile kinds that an instruction string describes, one per letter,
/// coloured by their position.
pub open spec fn tiles_of(instruction: Seq<char>) -> Seq<Tile> {
    Seq::new(
        instruction.len(),
        |i: int| Tile { color: i as u8, rotation: rotation_of(instruction[i]) },
    )
}

/// The half of the board's side: the board has `2 * MID` tiles on each side.
pub const MID: usize = 40;

/// The board: a square of tile kinds, each cell holding the index of its kind.
pub struct Plane {
    pub dim: usize,
    pub board: Vec<Vec<usize>>,
    pub tiles: Vec<Tile>,
}

impl Plane {
    /// The board's cells, row `x` then column `y`.
    pub open spec fn cells(&self) -> Seq<Seq<usize>> {
        self.board@.map_values(|row: Vec<usize>| row@)
    }

    /// The board is `dim` by `dim` and every cell names a tile kind (or is
    /// 0 while there is none).
    pub open spec fn wf(&self) -> bool {
        &&& self.board@.len() == self.dim
        &&& forall|x: int| 0 <= x < self.dim ==> #[trigger] self.board@[x]@.len() == self.dim
        &&& forall|x: int, y: int|
            0 <= x < self.dim && 0 <= y < self.dim ==> {
                let c = #[trigger] self.board@[x]@[y];
                c == 0 || c < self.tiles@.len()
            }
    }

    /// A fresh board of side `2 * MID`, all cells of the first kind, with one
    /// tile kind per letter of an ASCII instruction.
    pub fn new(instruction: &String) -> (p: Plane)
        requires
            instruction.is_ascii(),
        ensures
            p.wf(),
            p.dim == 2 * MID,
            p.tiles@ == tiles_of(instruction@),
            forall|x: int, y: int| 0 <= x < p.dim && 0 <= y < p.dim ==> #[trigger] p.board@[x]@[y] == 0,
    {
        let mid: usize = MID;
        let text = instruction.as_str();
        let bytes = text.as_bytes();
        proof {
            vstd::string::is_ascii_spec_bytes(text);
        }
        let n: usize = bytes.len();
        let mut tiles: Vec<Tile> = Vec::new();
        let mut i: usize = 0;
        while i < n
            invariant
                n == bytes@.len(),
                n == instruction@.len(),
                forall|j: int| 0 <= j < n ==> bytes@[j] == #[trigger] instruction@[j] as u8,
                vstd::utf8::is_ascii_chars(instruction@),
                i <= n,
                tiles@ == tiles_of(instruction@).subrange(0, i as int),
            decreases n - i,
        {
            let b: u8 = bytes[i];
            let rotation = if b == 76u8 || b == 108u8 {
                Rotation::CCW
            } else {
                Rotation::CW
            };
            proof {
                let c = instruction@[i as int];
                assert('\0' <= c <= '\u{7f}');
                assert(b == c as u8);
                assert((c == 'L' || c == 'l') <==> (b == 76u8 || b == 108u8));
            }
            tiles.push(Tile { color: i as u8, rotation });
            i = i + 1;
            assert(tiles@ =~= tiles_of(instruction@).subrange(0, i as int));
        }
        assert(tiles@ =~= tiles_of(instruction@));
        let dim: usize = 2 * mid;
        let mut board: Vec<Vec<usize>> = Vec::new();
        let mut x: usize = 0;
        while x < dim
            invariant
                dim == 2 * MID,
                x <= dim,
                board@.len() == x,
                forall|a: int| 0 <= a < x ==> #[trigger] board@[a]@ == Seq::new(dim as nat, |k: int| 0usize),
            decreases dim - x,
        {
            let mut row: Vec<usize> = Vec::new();
            let mut y: usize = 0;
            while y < dim
                invariant
                    y <= dim,
                    row@ == Seq::new(y as nat, |k: int| 0usize),
                decreases dim - y,
            {
                row.push(0);
                y = y + 1;
                assert(row@ =~= Seq::new(y as nat, |k: int| 0usize));
            }
            board.push(row);
            x = x + 1;
        }
        Plane { dim, board, tiles }
    }

    /// The side of the board along `y`.
    pub fn y_dim(&self) -> (d: usize)
        ensures
            d == self.dim,
    {
        self.dim
    }

    /// The side of the board along `x`.
    pub fn x_dim(&self) -> (d: usize)
        ensures
            d == self.dim,
    {
        self.dim
    }

    /// Every cell of every row names a tile kind.
    pub open spec fn cells_name_tiles(&self) -> bool {
        forall|x: int, y: int|
            0 <= x < self.board@.len() && 0 <= y < self.board@[x]@.len() ==> #[trigger] self.board@[x]@[y] < self.tiles@.len()
    }

    /// The turn that the tile at `pos` makes the ant take.
    pub fn get_tile_rotation(&self, pos: Position) -> (r: Rotation)
        requires
            pos.x < self.board@.len(),
            pos.y < self.board@[pos.x as int]@.len(),
            self.board@[pos.x as int]@[pos.y as int] < self.tiles@.len(),
        ensures
            r == self.tiles@[self.board@[pos.x as int]@[pos.y as int] as int].rotation,
    {
        let kind: usize = self.board[pos.x][pos.y];
        self.tiles[kind].rotation
    }

    /// Moves the tile at `pos` on to the next kind, the last kind going back
    /// to the first.
    pub fn flip_tile(&mut self, pos: Position)
        requires
            old(self).tiles@.len() > 0,
            pos.x < old(self).board@.len(),
            pos.y < old(self).board@[pos.x as int]@.len(),
        ensures
            old(self).wf() ==> final(self).wf(),
            old(self).cells_name_tiles() ==> final(self).cells_name_tiles(),
            final(self).dim == old(self).dim,
            final(self).tiles@ == old(self).tiles@,
            final(self).cells() == flipped(old(self).cells(), old(self).tiles@.len(), pos),
    {
        let n: usize = self.tiles.len();
        let current: usize = self.board[pos.x][pos.y];
        let next: usize = if current < usize::MAX { current + 1 } else { 0 };
        let kind: usize = next % n;
        self.board[pos.x].set(pos.y, kind);
        assert(self.cells() =~= old(self).cells().update(
            pos.x as int,
            old(self).cells()[pos.x as int].update(pos.y as int, kind),
        ));
        assert(self.board@.len() == old(self).board@.len());
        assert forall|x: int| 0 <= x < self.board@.len() implies #[trigger] self.board@[x]@.len() == old(self).board@[x]@.len() by {
        }
    }
}

/// The kind after kind `c` among `n` kinds (a machine word wraps around).
pub open spec fn next_kind(c: usize, n: nat) -> usize {
    ((if c < usize::MAX { c + 1 } else { 0 }) % (n as int)) as usize
}

/// The cells after the tile at `p` has moved on to the next of `n` kinds.
pub open spec fn flipped(cells: Seq<Seq<usize>>, n: nat, p: Position) -> Seq<Seq<usize>> {
    cells.update(p.x as int, cells[p.x as int].update(p.y as int, next_kind(cells[p.x as int][p.y as int], n)))
}

/// The cells after the tile at `p` has moved on `m` times.
pub open spec fn flipped_times(cells: Seq<Seq<usize>>, n: nat, p: Position, m: nat) -> Seq<Seq<usize>>
    decreases m,
{
    if m == 0 {
        cells
    } else {
        flipped(flipped_times(cells, n, p, (m - 1) as nat), n, p)
    }
}

/// After `m` moves on, the tile at `p` is `m` kinds further, modulo the
/// number of kinds, and every other cell is unchanged.
proof fn lemma_flipped_times(cells: Seq<Seq<usize>>, n: nat, p: Position, m: nat)
    requires
        0 < n <= usize::MAX,
        p.x < cells.len(),
        p.y < cells[p.x as int].len(),
        cells[p.x as int][p.y as int] < n,
    ensures
        flipped_times(cells, n, p, m) == cells.update(
            p.x as int,
            cells[p.x as int].update(p.y as int, ((cells[p.x as int][p.y as int] + m) % (n as int)) as usize),
        ),
    decreases m,
{
    let c = cells[p.x as int][p.y as int] as int;
    if m == 0 {
        vstd::arithmetic::div_mod::lemma_small_mod(c as nat, n);
        assert(cells[p.x as int].update(p.y as int, cells[p.x as int][p.y as int]) =~= cells[p.x as int]);
        assert(cells.update(p.x as int, cells[p.x as int]) =~= cells);
        assert(flipped_times(cells, n, p, m) == cells);
    } else {
        lemma_flipped_times(cells, n, p, (m - 1) as nat);
        vstd::arithmetic::div_mod::lemma_add_mod_noop(c + m - 1, 1, n as int);
        vstd::arithmetic::div_mod::lemma_mod_bound(c + m - 1, n as int);
        let r = (c + m - 1) % (n as int);
        if n > 1 {
            vstd::arithmetic::div_mod::lemma_small_mod(1, n);
        } else {
            vstd::arithmetic::div_mod::lemma_mod_bound(r + 1, 1);
            vstd::arithmetic::div_mod::lemma_mod_bound(c + m, 1);
        }
        assert((r + 1) % (n as int) == (c + m) % (n as int));
        let prev = flipped_times(cells, n, p, (m - 1) as nat);
        assert(prev[p.x as int][p.y as int] == ((c + m - 1) % (n as int)) as usize);
        let goal_row = cells[p.x as int].update(p.y as int, ((c + m) % (n as int)) as usize);
        let now = flipped_times(cells, n, p, m);
        assert(now == flipped(prev, n, p));
        assert(now[p.x as int] =~= goal_row);
        assert(now =~= cells.update(p.x as int, goal_row));
    }
}

/// Moving a tile on as many times as there are kinds brings the board back.
pub proof fn lemma_flips_restore(cells: Seq<Seq<usize>>, n: nat, p: Position)
    requires
        0 < n <= usize::MAX,
        p.x < cells.len(),
        p.y < cells[p.x as int].len(),
        cells[p.x as int][p.y as int] < n,
    ensures
        flipped_times(cells, n, p, n) == cells,
{
    lemma_flipped_times(cells, n, p, n);
    let c = cells[p.x as int][p.y as int] as int;
    lemma_fundamental_div_mod_converse(c + n, n as int, 1, c);
    assert(cells[p.x as int].update(p.y as int, c as usize) =~= cells[p.x as int]);
    assert(cells.update(p.x as int, cells[p.x as int]) =~= cells);
}

/// The ant after one move: it turns as the tile under it says, then steps forward.
pub open spec fn ant_after(tiles: Seq<Tile>, cells: Seq<Seq<usize>>, dim: usize, ant: Ant) -> Ant {
    let d = turned(ant.dir, tiles[cells[ant.pos.x as int][ant.pos.y as int] as int].rotation);
    Ant { pos: stepped(ant.pos, d, dim), dir: d }
}

/// The cells and the ant after `steps` moves: at each move the ant turns as
/// the tile under it says, that tile moves on to the next kind, and the ant
/// steps forward.
pub open spec fn simulate(tiles: Seq<Tile>, dim: usize, cells: Seq<Seq<usize>>, ant: Ant, steps: nat) -> (Seq<Seq<usize>>, Ant)
    decreases steps,
{
    if steps == 0 {
        (cells, ant)
    } else {
        let (c, a) = simulate(tiles, dim, cells, ant, (steps - 1) as nat);
        (flipped(c, tiles.len(), a.pos), ant_after(tiles, c, dim, a))
    }
}

/// Running the ant for `n` moves and then for `m` more is running it for
/// `n + m` moves.
pub proof fn lemma_simulate_compose(tiles: Seq<Tile>, dim: usize, cells: Seq<Seq<usize>>, ant: Ant, n: nat, m: nat)
    ensures
        simulate(tiles, dim, cells, ant, n + m) == {
            let (c, a) = simulate(tiles, dim, cells, ant, n);
            simulate(tiles, dim, c, a, m)
        },
    decreases m,
{
    if m > 0 {
        lemma_simulate_compose(tiles, dim, cells, ant, n, (m - 1) as nat);
        assert((n + m - 1) as nat == n + (m - 1) as nat);
    }
}

impl Plane {
    /// Runs the ant for `iterations` moves.
    pub fn run(&mut self, ant: &mut Ant, iterations: u64)
        requires
            old(self).wf(),
            old(self).dim > 0,
            iterations == 0 || old(self).tiles@.len() > 0,
            old(ant).pos.x < old(self).dim,
            old(ant).pos.y < old(self).dim,
        ensures
            final(self).wf(),
            final(self).dim == old(self).dim,
            final(self).tiles@ == old(self).tiles@,
            final(ant).pos.x < old(self).dim,
            final(ant).pos.y < old(self).dim,
            (final(self).cells(), *final(ant)) == simulate(old(self).tiles@, old(self).dim, old(self).cells(), *old(ant), iterations as nat),
    {
        let ghost tiles = self.tiles@;
        let ghost dim = self.dim;
        let ghost cells0 = self.cells();
        let ghost ant0 = *ant;
        let mut i: u64 = 0;
        while i < iterations
            invariant
                self.wf(),
                self.dim == dim,
                dim > 0,
                self.tiles@ == tiles,
                iterations == 0 || tiles.len() > 0,
                i <= iterations,
                ant.pos.x < dim,
                ant.pos.y < dim,
                (self.cells(), *ant) == simulate(tiles, dim, cells0, ant0, i as nat),
            decreases iterations - i,
        {
            let rotation = self.get_tile_rotation(ant.pos);
            ant.dir = ant.dir.add(rotation);
            self.flip_tile(ant.pos);
            let ghost before = ant.pos;
            ant.move_forward(self.dim);
            proof {
                lemma_step_is_modular(before, ant.dir, dim);
            }
            i = i + 1;
        }
    }
}

/// Sets a board up from an instruction string and runs the ant for
/// `iterations` moves from the centre of the board, heading North.
pub fn langton(instruction: &String, iterations: u64) -> (res: (Plane, Ant))
    requires
        instruction.is_ascii(),
        iterations == 0 || instruction@.len() > 0,
    ensures
        res.0.wf(),
        res.0.dim == 2 * MID,
        res.0.tiles@ == tiles_of(instruction@),
        res.1.pos.x < 2 * MID,
        res.1.pos.y < 2 * MID,
        (res.0.cells(), res.1) == simulate(
            tiles_of(instruction@),
            (2 * MID) as usize,
            Seq::new((2 * MID) as nat, |x: int| Seq::new((2 * MID) as nat, |y: int| 0usize)),
            Ant { pos: Position { x: MID, y: MID }, dir: Direction::North },
            iterations as nat,
        ),
{
    let mut plane = Plane::new(instruction);
    let mut ant = Ant::new(Position { x: plane.x_dim() / 2, y: plane.y_dim() / 2 }, Direction::North);
    let ghost zeros = Seq::new((2 * MID) as nat, |x: int| Seq::new((2 * MID) as nat, |y: int| 0usize));
    assert forall|x: int| 0 <= x < 2 * MID implies #[trigger] plane.cells()[x] == zeros[x] by {
        assert(plane.cells()[x] =~= zeros[x]);
    }
    assert(plane.cells() =~= zeros);
    plane.run(&mut ant, iterations);
    (plane, ant)
}

/// The control sequence introducer: escape, then `[`.
pub open spec fn csi_text() -> Seq<u8> {
    seq![27u8, 91u8]
}

/// The control sequence that sets the background to colour `40 + offset`
/// (counted modulo 256, as a byte).
pub open spec fn bg_color_text(offset: u8) -> Seq<u8> {
    csi_text() + decimal(((40 + offset) % 256) as nat) + seq![109u8]
}

/// The control sequence that resets all graphics attributes.
pub open spec fn reset_text() -> Seq<u8> {
    csi_text() + seq![48u8, 109u8]
}

/// One cell: its background colour, its kind number and a space.
pub open spec fn cell_text(tiles: Seq<Tile>, v: usize) -> Seq<u8> {
    bg_color_text(tiles[v as int].color) + decimal(v as nat) + seq![32u8]
}

/// The cells of one row, in order.
pub open spec fn row_text(tiles: Seq<Tile>, row: Seq<usize>) -> Seq<u8>
    decreases row.len(),
{
    if row.len() == 0 {
        Seq::empty()
    } else {
        row_text(tiles, row.drop_last()) + cell_text(tiles, row.last())
    }
}

/// The rows, each followed by a line break.
pub open spec fn rows_text(tiles: Seq<Tile>, rows: Seq<Seq<usize>>) -> Seq<u8>
    decreases rows.len(),
{
    if rows.len() == 0 {
        Seq::empty()
    } else {
        rows_text(tiles, rows.drop_last()) + row_text(tiles, rows.last()) + seq![10u8]
    }
}

/// The whole board as terminal text.
pub open spec fn plane_text(tiles: Seq<Tile>, cells: Seq<Seq<usize>>) -> Seq<u8> {
    reset_text() + rows_text(tiles, cells) + reset_text() + seq![10u8]
}

/// Appends the control sequence introducer to `f`.
pub fn csi(f: &mut Vec<u8>)
    ensures
        final(f)@ == old(f)@ + csi_text(),
{
    f.push(27u8);
    f.push(91u8);
    assert(f@ =~= old(f)@ + csi_text());
}

/// Appends the control sequence that sets the background colour to `40 + offset`.
pub fn set_bg_color(f: &mut Vec<u8>, offset: u8)
    ensures
        final(f)@ == old(f)@ + bg_color_text(offset),
{
    csi(f);
    let code: u8 = ((40u16 + offset as u16) % 256) as u8;
    push_decimal(f, code as u64);
    f.push(109u8);
    assert(f@ =~= old(f)@ + bg_color_text(offset));
}

/// Appends the control sequence that resets all graphics attributes.
pub fn reset_graphics(f: &mut Vec<u8>)
    ensures
        final(f)@ == old(f)@ + reset_text(),
{
    csi(f);
    f.push(48u8);
    f.push(109u8);
    assert(f@ =~= old(f)@ + reset_text());
}

/// The name of a turn.
pub open spec fn rotation_text(r: Rotation) -> Seq<u8> {
    match r {
        Rotation::CW => seq![67u8, 87u8],
        Rotation::CCW => seq![67u8, 67u8, 87u8],
    }
}

/// A tile kind as text: its colour, a colon and its turn.
pub open spec fn tile_text(t: Tile) -> Seq<u8> {
    decimal(t.color as nat) + seq![58u8] + rotation_text(t.rotation)
}

/// The tile kinds as a bracketed list, separated by a comma and a space.
pub open spec fn tiles_list_text(tiles: Seq<Tile>) -> Seq<u8>
    decreases tiles.len(),
{
    if tiles.len() == 0 {
        Seq::empty()
    } else if tiles.len() == 1 {
        tile_text(tiles[0])
    } else {
        tiles_list_text(tiles.drop_last()) + seq![44u8, 32u8] + tile_text(tiles.last())
    }
}

impl Tile {
    /// This tile kind as text, such as `3:CCW`.
    pub fn render(&self) -> (r: Vec<u8>)
        ensures
            r@ == tile_text(*self),
    {
        let mut out: Vec<u8> = Vec::new();
        push_decimal(&mut out, self.color as u64);
        out.push(58u8);
        match self.rotation {
            Rotation::CW => {
                out.push(67u8);
                out.push(87u8);
            },
            Rotation::CCW => {
                out.push(67u8);
                out.push(67u8);
                out.push(87u8);
            },
        }
        assert(out@ =~= tile_text(*self));
        out
    }
}

impl Plane {
    /// The tile kinds as text, such as `[0:CCW, 1:CW]`.
    pub fn tiles_text(&self) -> (r: Vec<u8>)
        ensures
            r@ == seq![91u8] + tiles_list_text(self.tiles@) + seq![93u8],
    {
        let mut out: Vec<u8> = Vec::new();
        out.push(91u8);
        let mut i: usize = 0;
        while i < self.tiles.len()
            invariant
                i <= self.tiles@.len(),
                out@ == seq![91u8] + tiles_list_text(self.tiles@.subrange(0, i as int)),
            decreases self.tiles@.len() - i,
        {
            let ghost before = out@;
            if i > 0 {
                out.push(44u8);
                out.push(32u8);
            }
            let t = self.tiles[i].render();
            let mut k: usize = 0;
            let ghost mid = out@;
            while k < t.len()
                invariant
                    k <= t@.len(),
                    out@ == mid + t@.subrange(0, k as int),
                decreases t@.len() - k,
            {
                out.push(t[k]);
                k = k + 1;
                assert(out@ =~= mid + t@.subrange(0, k as int));
            }
            assert(t@.subrange(0, t@.len() as int) =~= t@);
            let ghost pre = self.tiles@.subrange(0, i as int);
            let ghost next = self.tiles@.subrange(0, i + 1);
            assert(next.drop_last() =~= pre);
            i = i + 1;
            assert(out@ =~= seq![91u8] + tiles_list_text(next));
        }
        assert(self.tiles@.subrange(0, self.tiles@.len() as int) =~= self.tiles@);
        out.push(93u8);
        out
    }

    /// The board as terminal text: each cell's kind number on that kind's
    /// background colour, one row per line, with graphics reset before and
    /// after.
    pub fn render(&self) -> (r: Vec<u8>)
        requires
            self.cells_name_tiles(),
        ensures
            r@ == plane_text(self.tiles@, self.cells()),
    {
        let ghost tiles = self.tiles@;
        let ghost cells = self.cells();
        let mut f: Vec<u8> = Vec::new();
        reset_graphics(&mut f);
        let mut x: usize = 0;
        while x < self.board.len()
            invariant
                self.cells_name_tiles(),
                tiles == self.tiles@,
                cells == self.cells(),
                x <= self.board@.len(),
                f@ == reset_text() + rows_text(tiles, cells.subrange(0, x as int)),
            decreases self.board@.len() - x,
        {
            let row: &Vec<usize> = &self.board[x];
            let ghost before_row = f@;
            let mut y: usize = 0;
            while y < row.len()
                invariant
                    self.cells_name_tiles(),
                    tiles == self.tiles@,
                    x < self.board@.len(),
                    cells == self.cells(),
                    row@ == self.board@[x as int]@,
                    row@ == cells[x as int],
                    y <= row@.len(),
                    f@ == before_row + row_text(tiles, row@.subrange(0, y as int)),
                decreases row@.len() - y,
            {
                let value: usize = row[y];
                assert(value == self.board@[x as int]@[y as int]);
                assert(value < self.tiles@.len());
                set_bg_color(&mut f, self.tiles[value].color);
                push_decimal(&mut f, value as u64);
                f.push(32u8);
                let ghost next = row@.subrange(0, y + 1);
                assert(next.drop_last() =~= row@.subrange(0, y as int));
                y = y + 1;
                assert(f@ =~= before_row + row_text(tiles, next));
            }
            assert(row@.subrange(0, row@.len() as int) =~= row@);
            f.push(10u8);
            let ghost next_rows = cells.subrange(0, x + 1);
            assert(next_rows.drop_last() =~= cells.subrange(0, x as int));
            x = x + 1;
            assert(f@ =~= reset_text() + rows_text(tiles, next_rows));
        }
        assert(cells.subrange(0, cells.len() as int) =~= cells);
        reset_graphics(&mut f);
        f.push(10u8);
        assert(f@ =~= plane_text(tiles, cells));
        f
    }
}

/// Exactly the letters `L` and `l` make a counter-clockwise tile kind: every
/// other letter, `R` and `r` among them, makes a clockwise one.
pub proof fn lemma_instruction_letters(instruction: Seq<char>, i: int)
    requires
        0 <= i < instruction.len(),
    ensures
        tiles_of(instruction)[i].rotation == Rotation::CCW <==> (instruction[i] == 'L' || instruction[i] == 'l'),
        tiles_of(instruction)[i].rotation == Rotation::CW <==> (instruction[i] != 'L' && instruction[i] != 'l'),
{
}

/// A run keeps the ant on the board.
pub proof fn lemma_simulate_in_bounds(tiles: Seq<Tile>, dim: usize, cells: Seq<Seq<usize>>, ant: Ant, n: nat)
    requires
        dim > 0,
        ant.pos.x < dim,
        ant.pos.y < dim,
    ensures
        simulate(tiles, dim, cells, ant, n).1.pos.x < dim,
        simulate(tiles, dim, cells, ant, n).1.pos.y < dim,
    decreases n,
{
    if n > 0 {
        lemma_simulate_in_bounds(tiles, dim, cells, ant, (n - 1) as nat);
        let (c, a) = simulate(tiles, dim, cells, ant, (n - 1) as nat);
        let d = turned(a.dir, tiles[c[a.pos.x as int][a.pos.y as int] as int].rotation);
        lemma_step_is_modular(a.pos, d, dim);
    }
}

/// Each move of a run turns the ant as the tile under it says, moves that
/// tile on to the next kind, and steps the ant one tile on the board of side
/// `dim`, wrapping around modulo that side: heading East from column
/// `dim - 2` it lands on column `dim - 1`, and only from column `dim - 1` it
/// wraps to column 0.
pub proof fn lemma_run_move(tiles: Seq<Tile>, dim: usize, cells: Seq<Seq<usize>>, ant: Ant, n: nat)
    requires
        dim > 0,
        ant.pos.x < dim,
        ant.pos.y < dim,
    ensures
        ({
            let (c, a) = simulate(tiles, dim, cells, ant, n);
            let (c2, a2) = simulate(tiles, dim, cells, ant, n + 1);
            let d = turned(a.dir, tiles[c[a.pos.x as int][a.pos.y as int] as int].rotation);
            let m = dim as int;
            &&& a2.dir == d
            &&& c2 == flipped(c, tiles.len(), a.pos)
            &&& d == Direction::North ==> a2.pos.x == a.pos.x && a2.pos.y == (a.pos.y + 1) % m
            &&& d == Direction::South ==> a2.pos.x == a.pos.x && a2.pos.y == (a.pos.y + m - 1) % m
            &&& d == Direction::East ==> a2.pos.y == a.pos.y && a2.pos.x == (a.pos.x + 1) % m
            &&& d == Direction::West ==> a2.pos.y == a.pos.y && a2.pos.x == (a.pos.x + m - 1) % m
            &&& d == Direction::DirectionMax ==> a2.pos == a.pos
            &&& a2.pos.x < dim && a2.pos.y < dim
        }),
{
    lemma_simulate_in_bounds(tiles, dim, cells, ant, n);
    let (c, a) = simulate(tiles, dim, cells, ant, n);
    let d = turned(a.dir, tiles[c[a.pos.x as int][a.pos.y as int] as int].rotation);
    lemma_step_is_modular(a.pos, d, dim);
    assert(simulate(tiles, dim, cells, ant, n + 1) == (flipped(c, tiles.len(), a.pos), ant_after(tiles, c, dim, a)));
}

/// The ASCII digit bytes.
pub open spec fn is_digit(b: u8) -> bool {
    48 <= b <= 57
}

/// The number that a string of ASCII digits spells in base ten.
pub open spec fn digits_value(s: Seq<u8>) -> nat
    decreases s.len(),
{
    if s.len() == 0 {
        0
    } else {
        digits_value(s.drop_last()) * 10 + (s.last() - 48) as nat
    }
}

/// The decimal text of `n` is a non-empty string of digits, without a
/// leading zero unless it is zero itself, that spells `n`.
pub proof fn lemma_decimal_spells(n: nat)
    ensures
        decimal(n).len() >= 1,
        forall|i: int| 0 <= i < decimal(n).len() ==> is_digit(#[trigger] decimal(n)[i]),
        decimal(n)[0] != 48u8 || n == 0,
        digits_value(decimal(n)) == n,
    decreases n,
{
    let d = decimal(n);
    if n >= 10 {
        lemma_decimal_spells(n / 10);
        assert(d.drop_last() =~= decimal(n / 10));
        assert(d[0] == decimal(n / 10)[0]);
        assert(d.last() == (48 + n % 10) as u8);
        assert(digits_value(d) == digits_value(decimal(n / 10)) * 10 + (d.last() - 48) as nat);
        assert((n / 10) * 10 + n % 10 == n);
    } else {
        assert(d.drop_last() =~= Seq::<u8>::empty());
        assert(digits_value(d) == digits_value(d.drop_last()) * 10 + (d.last() - 48) as nat);
    }
}

/// The text of a cell is its background sequence, then the digits that spell
/// its kind number in full (no leading zero), then a space.
pub proof fn lemma_cell_text_spells_kind(tiles: Seq<Tile>, v: usize)
    ensures
        ({
            let t = cell_text(tiles, v);
            let bg = bg_color_text(tiles[v as int].color);
            let digits = t.subrange(bg.len() as int, t.len() - 1);
            &&& t.len() >= bg.len() + 2
            &&& t.subrange(0, bg.len() as int) == bg
            &&& t.last() == 32u8
            &&& forall|i: int| 0 <= i < digits.len() ==> is_digit(#[trigger] digits[i])
            &&& digits[0] != 48u8 || v == 0
            &&& digits_value(digits) == v
        }),
{
    lemma_decimal_spells(v as nat);
    let t = cell_text(tiles, v);
    let bg = bg_color_text(tiles[v as int].color);
    assert(t.subrange(0, bg.len() as int) =~= bg);
    assert(t.subrange(bg.len() as int, t.len() - 1) =~= decimal(v as nat));
}

} // verus!
