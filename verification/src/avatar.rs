//! An avatar generator: a small square of colours is painted with a
//! symmetric pattern (a four-fold windmill or a mirror), each orbit of the
//! pattern getting one colour drawn from a colour pair, and the square is then
//! blown up to the requested size.

use vstd::prelude::*;
use vstd::arithmetic::power2::{pow2, lemma2_to64};
use vstd::bits::lemma_usize_shr_is_div;
use vstd::arithmetic::div_mod::lemma_fundamental_div_mod_converse;
use vstd::utf8::encode_utf8_decode_utf8;
use crate::rng::{gen_index, next_u32, sip_hash, spec_sip_hash, isaac_word, isaac_index, Generator};
use crate::decimal::{decimal, push_decimal};

verus! {

/// Byte `offset / 8` of `data`: the eight bits of `data` from bit `offset` up.
pub fn sel_u8_from(data: usize, offset: usize) -> (r: u8)
    requires
        offset < usize::BITS,
    ensures
        r == (data as nat / pow2(offset as nat)) % 256,
{
    let v: usize = data >> offset;
    proof {
        lemma_usize_shr_is_div(data, offset);
        assert((v as u8) as int == v % 256) by (bit_vector);
    }
    v as u8
}

/// Two byte strings are equal.
fn bytes_equal(a: &[u8], b: &[u8]) -> (r: bool)
    ensures
        r == (a@ == b@),
{
    if a.len() != b.len() {
        return false;
    }
    let mut i: usize = 0;
    while i < a.len()
        invariant
            a@.len() == b@.len(),
            i <= a@.len(),
            forall|j: int| 0 <= j < i ==> a@[j] == b@[j],
        decreases a@.len() - i,
    {
        if a[i] != b[i] {
            return false;
        }
        i = i + 1;
    }
    assert(a@ =~= b@);
    true
}

/// Two strings hold the same characters.
fn str_equal(a: &str, b: &str) -> (r: bool)
    ensures
        r == (a@ == b@),
{
    proof {
        encode_utf8_decode_utf8(a@);
        encode_utf8_decode_utf8(b@);
    }
    bytes_equal(a.as_bytes(), b.as_bytes())
}

/// A colour with eight bits for each of red, green and blue.
#[derive(Clone, Copy, PartialEq, Eq, Debug, Structural)]
pub struct Color {
    pub r: u8,
    pub g: u8,
    pub b: u8,
}

/// Black.
pub open spec fn black() -> Color {
    Color { r: 0, g: 0, b: 0 }
}

/// The colour packed in the low 24 bits of `data`, red highest.
pub open spec fn rgb888(data: usize) -> Color {
    Color {
        r: ((data as nat / pow2(16)) % 256) as u8,
        g: ((data as nat / pow2(8)) % 256) as u8,
        b: ((data as nat / pow2(0)) % 256) as u8,
    }
}

impl Color {
    /// The colour that `data` holds in the format named `format`: with
    /// `RGB888` (or `rgb888`) red, green and blue are bytes 2, 1 and 0 of
    /// `data`; any other format gives black.
    pub fn new(format: &str, data: usize) -> (c: Color)
        ensures
            c == (if format@ == "RGB888"@ || format@ == "rgb888"@ { rgb888(data) } else { black() }),
    {
        if str_equal(format, "RGB888") || str_equal(format, "rgb888") {
            Color { r: sel_u8_from(data, 16), g: sel_u8_from(data, 8), b: sel_u8_from(data, 0) }
        } else {
            Color { r: 0, g: 0, b: 0 }
        }
    }
}

/// The field of `input` that a bounded mask compares: `input` shifted right
/// by `offset`, then masked with `mask`.
pub open spec fn mask_key(input: usize, offset: usize, mask: usize) -> usize {
    (input >> offset) & mask
}

/// `i` is the index that a key selects: the key lies below every bound
/// before index `i`, and not below the bound at `i` if there is one.
pub open spec fn is_selected(bounds: Seq<usize>, key: usize, i: int) -> bool {
    &&& 0 <= i <= bounds.len()
    &&& forall|j: int| 0 <= j < i ==> key < #[trigger] bounds[j]
    &&& i < bounds.len() ==> key >= bounds[i]
}

/// A key selects one index only.
pub proof fn lemma_selection_unique(bounds: Seq<usize>, key: usize, i: int, j: int)
    requires
        is_selected(bounds, key, i),
        is_selected(bounds, key, j),
    ensures
        i == j,
{
    if i < j {
        assert(key < bounds[i]);
    } else if j < i {
        assert(key < bounds[j]);
    }
}

/// A larger key never selects a later index.
pub proof fn lemma_selection_monotone(bounds: Seq<usize>, ka: usize, kb: usize, i: int, j: int)
    requires
        is_selected(bounds, ka, i),
        is_selected(bounds, kb, j),
        ka <= kb,
    ensures
        j <= i,
{
    if j > i {
        assert(kb < bounds[i]);
    }
}

/// Over colours, two selections with the same key give the same colour.
pub proof fn lemma_same_key_same_color(data: Seq<Color>, bounds: Seq<usize>, key: usize, i: int, j: int, c1: Color, c2: Color)
    requires
        0 <= i < data.len(),
        0 <= j < data.len(),
        is_selected(bounds, key, i) && cloned(data[i], c1),
        is_selected(bounds, key, j) && cloned(data[j], c2),
    ensures
        c1 == c2,
{
    lemma_selection_unique(bounds, key, i, j);
}

/// The index that a key selects: the first index whose bound the key does
/// not lie below, or the number of bounds when it lies below them all.
pub open spec fn selected_index(bounds: Seq<usize>, key: usize) -> int
    decreases bounds.len(),
{
    if bounds.len() == 0 || key >= bounds[0] {
        0
    } else {
        1 + selected_index(bounds.drop_first(), key)
    }
}

/// `selected_index` is the index that the key selects.
pub proof fn lemma_selected_index(bounds: Seq<usize>, key: usize)
    ensures
        is_selected(bounds, key, selected_index(bounds, key)),
    decreases bounds.len(),
{
    if bounds.len() > 0 && key < bounds[0] {
        let rest = bounds.drop_first();
        lemma_selected_index(rest, key);
        let i = selected_index(bounds, key);
        assert forall|j: int| 0 <= j < i implies key < #[trigger] bounds[j] by {
            if j > 0 {
                assert(bounds[j] == rest[j - 1]);
            }
        }
        if i < bounds.len() {
            assert(bounds[i] == rest[i - 1]);
        }
    }
}

/// The generator's state after one index below `bound` has been drawn, with
/// the index drawn.
pub open spec fn index_draw(s: (u32, u32, nat), bound: usize) -> (usize, (u32, u32, nat)) {
    let (r, k) = isaac_index(s.0, s.1, s.2, bound);
    (r, (s.0, s.1, k))
}

/// The generator's state after one word has been drawn, with the word drawn.
pub open spec fn word_draw(s: (u32, u32, nat)) -> (u32, (u32, u32, nat)) {
    (isaac_word(s.0, s.1, s.2), (s.0, s.1, s.2 + 1))
}

/// `count` bounds drawn one after the other, each below `mask`, and the
/// generator's state after them.
pub open spec fn bounds_draw(s: (u32, u32, nat), count: nat, mask: usize) -> (Seq<usize>, (u32, u32, nat))
    decreases count,
{
    if count == 0 {
        (Seq::empty(), s)
    } else {
        let (prev, s1) = bounds_draw(s, (count - 1) as nat, mask);
        let (b, s2) = index_draw(s1, mask);
        (prev.push(b), s2)
    }
}

/// A set of values together with bounds that split the range of a masked
/// field into one part per value.
pub struct BoundedMask<T> {
    pub data: Vec<T>,
    pub bounds: Vec<usize>,
    pub mask: usize,
    pub offset: usize,
}

impl<T: Clone> BoundedMask<T> {
    /// There is one bound fewer than there are values.
    pub open spec fn wf(&self) -> bool {
        self.bounds@.len() + 1 == self.data@.len()
    }

    /// The value that `input` selects: the field of `input` under the mask is
    /// compared with the bounds in order, and the first bound that it does not
    /// lie below gives the value at its index; the value after the last bound
    /// when it lies below them all.
    pub fn select(&self, input: usize) -> (r: T)
        requires
            self.bounds@.len() < self.data@.len(),
            self.offset < usize::BITS,
        ensures
            cloned(self.data@[selected_index(self.bounds@, mask_key(input, self.offset, self.mask))], r),
    {
        let key: usize = (input >> self.offset) & self.mask;
        let mut i: usize = 0;
        while i < self.bounds.len() && key < self.bounds[i]
            invariant
                self.bounds@.len() < self.data@.len(),
                key == mask_key(input, self.offset, self.mask),
                i <= self.bounds@.len(),
                forall|j: int| 0 <= j < i ==> key < #[trigger] self.bounds@[j],
            decreases self.bounds@.len() - i,
        {
            i = i + 1;
        }
        let r = self.data[i].clone();
        proof {
            assert(is_selected(self.bounds@, key, i as int));
            lemma_selected_index(self.bounds@, key);
            lemma_selection_unique(self.bounds@, key, i as int, selected_index(self.bounds@, key));
        }
        r
    }

    /// The bounded mask over the value list `set[k]`, with the given bounds,
    /// the low `mask_size` bits as mask, and the given offset.
    pub fn from_draws(set: &Vec<Vec<T>>, k: usize, bounds: Vec<usize>, mask_size: usize, offset: usize) -> (m: BoundedMask<T>)
        requires
            k < set@.len(),
            mask_size < usize::BITS,
        ensures
            m.data@.len() == set@[k as int]@.len(),
            forall|i: int| 0 <= i < m.data@.len() ==> cloned(set@[k as int]@[i], #[trigger] m.data@[i]),
            m.bounds@ == bounds@,
            m.mask == pow2(mask_size as nat) - 1,
            m.offset == offset,
    {
        proof {
            vstd::bits::lemma_usize_pow2_no_overflow(mask_size as nat);
            vstd::bits::lemma_usize_shl_is_mul(1, mask_size);
        }
        let mask: usize = (1usize << mask_size) - 1;
        let data: Vec<T> = set[k].clone();
        BoundedMask { data, bounds, mask, offset }
    }

    /// A bounded mask over one of the value lists of `set`, drawn at random,
    /// with the low `mask_size` bits as mask and one bound below the mask
    /// drawn at random between each two values.
    pub fn new(rng: &mut Generator, set: &Vec<Vec<T>>, mask_size: usize, offset: usize) -> (m: BoundedMask<T>)
        requires
            usize::BITS == 64,
            set@.len() > 0,
            forall|k: int| 0 <= k < set@.len() ==> #[trigger] set@[k]@.len() > 0,
            mask_size < usize::BITS,
            mask_size > 0 || forall|k: int| 0 <= k < set@.len() ==> #[trigger] set@[k]@.len() == 1,
        ensures
            ({
                let (k, s1) = index_draw(old(rng)@, set@.len() as usize);
                let (bounds, s2) = bounds_draw(s1, (set@[k as int]@.len() - 1) as nat, m.mask);
                &&& k < set@.len()
                &&& m.data@.len() == set@[k as int]@.len()
                &&& forall|i: int| 0 <= i < m.data@.len() ==> cloned(set@[k as int]@[i], #[trigger] m.data@[i])
                &&& m.bounds@ == bounds
                &&& final(rng)@ == s2
            }),
            m.wf(),
            m.mask == pow2(mask_size as nat) - 1,
            m.offset == offset,
            forall|j: int| 0 <= j < m.bounds@.len() ==> #[trigger] m.bounds@[j] < m.mask,
    {
        proof {
            vstd::bits::lemma_usize_pow2_no_overflow(mask_size as nat);
            vstd::bits::lemma_usize_shl_is_mul(1, mask_size);
        }
        let mask: usize = (1usize << mask_size) - 1;
        let ghost s0 = rng@;
        let k: usize = gen_index(rng, set.len());
        let ghost s1 = rng@;
        assert(set@[k as int]@.len() > 0);
        let count: usize = set[k].len() - 1;
        proof {
            if mask_size > 0 {
                vstd::arithmetic::power2::lemma_pow2_unfold(mask_size as nat);
                vstd::arithmetic::power2::lemma_pow2_pos((mask_size - 1) as nat);
            } else {
                assert(set@[k as int]@.len() == 1);
            }
        }
        let mut bounds: Vec<usize> = Vec::new();
        let mut j: usize = 0;
        while j < count
            invariant
                usize::BITS == 64,
                j <= count,
                count > 0 ==> mask > 0,
                bounds@.len() == j,
                (bounds@, rng@) == bounds_draw(s1, j as nat, mask),
                forall|i: int| 0 <= i < j ==> #[trigger] bounds@[i] < mask,
            decreases count - j,
        {
            let bound: usize = gen_index(rng, mask);
            bounds.push(bound);
            j = j + 1;
        }
        BoundedMask::from_draws(set, k, bounds, mask_size, offset)
    }
}

/// A point of a square of pixels, as `(x, y)`.
#[derive(Clone, Copy, Debug)]
pub struct Position {
    pub p: (usize, usize),
}

impl Position {
    /// The point `input`.
    pub fn new(input: (usize, usize)) -> (r: Position)
        ensures
            r.p == input,
    {
        Position { p: input }
    }

    /// The first coordinate.
    pub fn x(&self) -> (r: usize)
        ensures
            r == self.p.0,
    {
        self.p.0
    }

    /// The second coordinate.
    pub fn y(&self) -> (r: usize)
        ensures
            r == self.p.1,
    {
        self.p.1
    }

    /// The product of the coordinates: the area of a rectangle with these sides.
    pub fn area(&self) -> (r: usize)
        requires
            self.p.0 * self.p.1 <= usize::MAX,
        ensures
            r == self.p.0 * self.p.1,
    {
        self.p.0 * self.p.1
    }
}

/// A point of a square of side `dim`, numbered row by row.
#[derive(Clone, Copy, Debug)]
pub struct SquarePosition {
    pub dim: usize,
    pub p: Position,
}

impl SquarePosition {
    /// The point with number `index` in a square of side `dim`.
    pub fn from_index(dim: usize, index: usize) -> (r: SquarePosition)
        requires
            dim > 0,
        ensures
            r.dim == dim,
            r.p.p == (index % dim, index / dim),
    {
        SquarePosition { dim, p: Position::new((index % dim, index / dim)) }
    }

    /// The point `pos` of a square of side `dim`.
    pub fn from_position(dim: usize, pos: Position) -> (r: SquarePosition)
        ensures
            r.dim == dim,
            r.p == pos,
    {
        SquarePosition { dim, p: pos }
    }

    /// The number of this point, counting row by row.
    pub fn index(&self) -> (r: usize)
        requires
            self.p.p.0 + self.p.p.1 * self.dim <= usize::MAX,
        ensures
            r == self.p.p.0 + self.p.p.1 * self.dim,
    {
        proof {
            vstd::arithmetic::mul::lemma_mul_nonnegative(self.p.p.1 as int, self.dim as int);
        }
        self.p.x() + self.p.y() * self.dim
    }

    /// The point itself.
    pub fn position(&self) -> (r: Position)
        ensures
            r == self.p,
    {
        self.p
    }
}

/// Numbering the points of a square row by row and back gives the same number.
pub proof fn lemma_index_round_trip(dim: usize, index: usize)
    requires
        dim > 0,
    ensures
        index % dim + (index / dim) * dim == index,
        index % dim < dim,
{
    vstd::arithmetic::div_mod::lemma_fundamental_div_mod(index as int, dim as int);
    vstd::arithmetic::mul::lemma_mul_is_commutative(dim as int, (index / dim) as int);
}

/// A point of the square gets back its coordinates from its number.
pub proof fn lemma_position_round_trip(dim: usize, x: usize, y: usize)
    requires
        x < dim,
    ensures
        (x + y * dim) % (dim as int) == x,
        (x + y * dim) / (dim as int) == y,
{
    lemma_fundamental_div_mod_converse((x + y * dim) as int, dim as int, y as int, x as int);
}

/// `v` as a machine word: negative values wrap around from the top.
pub open spec fn wrapped(v: int) -> usize {
    if v < 0 {
        (v + usize::MAX + 1) as usize
    } else {
        v as usize
    }
}

/// The mirror image of `v` in the range `[0, 2 * bound)`: `2 * bound - 1 - v`,
/// wrapping around when `v` lies beyond the range.
fn reflect(bound: usize, v: usize) -> (r: usize)
    requires
        bound <= usize::MAX / 2,
    ensures
        r == wrapped(2 * bound - 1 - v),
{
    let t: usize = bound + bound;
    if v < t {
        t - 1 - v
    } else {
        usize::MAX - (v - t)
    }
}

/// A four-fold rotation pattern over a square: a point of the top-left
/// quarter is turned a quarter at a time around the centre.
#[derive(Clone, Copy, Debug)]
pub struct WindmillPattern {
    pub out: Position,
    pub iter: usize,
}

/// A mirror pattern: a point of the left half is reflected to the right half.
#[derive(Clone, Copy, Debug)]
pub struct VertMirrorPattern {
    pub out: Position,
    pub iter: usize,
}

/// A mirror pattern: a point of the top half is reflected to the bottom half.
#[derive(Clone, Copy, Debug)]
pub struct HorizMirrorPattern {
    pub out: Position,
    pub iter: usize,
}

impl WindmillPattern {
    /// A windmill over a picture of size `output_dim`, whose sides are even.
    pub fn new(output_dim: Position) -> (r: WindmillPattern)
        requires
            output_dim.p.0 % 2 == 0,
            output_dim.p.1 % 2 == 0,
        ensures
            r.out == output_dim,
            r.iter == 4,
    {
        WindmillPattern { out: output_dim, iter: 4 }
    }

    /// The point of the top-left quarter with number `input`, counted row by row.
    pub fn place(&self, input: usize) -> (r: Position)
        requires
            self.out.p.0 / 2 > 0,
        ensures
            r.p == (input % (self.out.p.0 / 2), input / (self.out.p.0 / 2)),
    {
        let x_win: usize = self.out.x() / 2;
        Position::new((input % x_win, input / x_win))
    }

    /// The point a quarter turn clockwise around the centre.
    pub fn step(&self, input: Position) -> (r: Position)
        ensures
            r.p == (wrapped(2 * (self.out.p.0 / 2) - 1 - input.p.1), input.p.0),
    {
        let temp = Position::new((input.y(), input.x()));
        let x_bound: usize = self.out.x() / 2;
        let new_x: usize = reflect(x_bound, temp.x());
        Position::new((new_x, temp.y()))
    }

    /// The number of points to place: a quarter of the picture.
    pub fn required_size(&self) -> (r: usize)
        requires
            self.out.p.0 * self.out.p.1 <= usize::MAX,
        ensures
            r == self.out.p.0 * self.out.p.1 / 4,
    {
        self.out.area() / 4
    }

    /// The number of points in each orbit.
    pub fn iter(&self) -> (r: usize)
        ensures
            r == self.iter,
    {
        self.iter
    }
}

impl VertMirrorPattern {
    /// A left-right mirror over a picture of size `output_dim`.
    pub fn new(output_dim: Position) -> (r: VertMirrorPattern)
        ensures
            r.out == output_dim,
            r.iter == 2,
    {
        VertMirrorPattern { out: output_dim, iter: 2 }
    }

    /// The point of the left half with number `input`, counted row by row.
    pub fn place(&self, input: usize) -> (r: Position)
        requires
            self.out.p.0 / 2 > 0,
        ensures
            r.p == (input % (self.out.p.0 / 2), input / (self.out.p.0 / 2)),
    {
        let x_win: usize = self.out.x() / 2;
        Position::new((input % x_win, input / x_win))
    }

    /// The mirror image across the vertical middle line.
    pub fn step(&self, input: Position) -> (r: Position)
        ensures
            r.p == (wrapped(2 * (self.out.p.0 / 2) - 1 - input.p.0), input.p.1),
    {
        let x_bound: usize = self.out.x() / 2;
        let new_x: usize = reflect(x_bound, input.x());
        Position::new((new_x, input.y()))
    }

    /// The number of points to place: half of the picture.
    pub fn required_size(&self) -> (r: usize)
        requires
            self.out.p.0 * self.out.p.1 <= usize::MAX,
        ensures
            r == self.out.p.0 * self.out.p.1 / 2,
    {
        self.out.area() / 2
    }

    /// The number of points in each orbit.
    pub fn iter(&self) -> (r: usize)
        ensures
            r == self.iter,
    {
        self.iter
    }
}

impl HorizMirrorPattern {
    /// A top-bottom mirror over a picture of size `output_dim`.
    pub fn new(output_dim: Position) -> (r: HorizMirrorPattern)
        ensures
            r.out == output_dim,
            r.iter == 2,
    {
        HorizMirrorPattern { out: output_dim, iter: 2 }
    }

    /// The point with number `input`, counted in rows as long as the
    /// picture is high.
    pub fn place(&self, input: usize) -> (r: Position)
        requires
            self.out.p.1 > 0,
        ensures
            r.p == (input % self.out.p.1, input / self.out.p.1),
    {
        Position::new((input % self.out.y(), input / self.out.y()))
    }

    /// The mirror image across the horizontal middle line.
    pub fn step(&self, input: Position) -> (r: Position)
        ensures
            r.p == (input.p.0, wrapped(2 * (self.out.p.1 / 2) - 1 - input.p.1)),
    {
        let y_bound: usize = self.out.y() / 2;
        let new_y: usize = reflect(y_bound, input.y());
        Position::new((input.x(), new_y))
    }

    /// The number of points to place: half of the picture.
    pub fn required_size(&self) -> (r: usize)
        requires
            self.out.p.0 * self.out.p.1 <= usize::MAX,
        ensures
            r == self.out.p.0 * self.out.p.1 / 2,
    {
        self.out.area() / 2
    }

    /// The number of points in each orbit.
    pub fn iter(&self) -> (r: usize)
        ensures
            r == self.iter,
    {
        self.iter
    }
}

/// One of the patterns, chosen while the program runs.
#[derive(Clone, Copy, Debug)]
pub enum Pattern {
    Windmill(WindmillPattern),
    VertMirror(VertMirrorPattern),
    HorizMirror(HorizMirrorPattern),
}

/// The pattern can place points: the divisor it numbers points by is not zero.
pub open spec fn can_place(t: Pattern) -> bool {
    match t {
        Pattern::Windmill(w) => w.out.p.0 / 2 > 0,
        Pattern::VertMirror(v) => v.out.p.0 / 2 > 0,
        Pattern::HorizMirror(h) => h.out.p.1 > 0,
    }
}

/// The point where the pattern places point number `input`.
pub open spec fn placed(t: Pattern, input: usize) -> (usize, usize) {
    match t {
        Pattern::Windmill(w) => (input % (w.out.p.0 / 2), input / (w.out.p.0 / 2)),
        Pattern::VertMirror(v) => (input % (v.out.p.0 / 2), input / (v.out.p.0 / 2)),
        Pattern::HorizMirror(h) => (input % h.out.p.1, input / h.out.p.1),
    }
}

/// The image of point `q` under the pattern's symmetry.
pub open spec fn moved(t: Pattern, q: (usize, usize)) -> (usize, usize) {
    match t {
        Pattern::Windmill(w) => (wrapped(2 * (w.out.p.0 / 2) - 1 - q.1), q.0),
        Pattern::VertMirror(v) => (wrapped(2 * (v.out.p.0 / 2) - 1 - q.0), q.1),
        Pattern::HorizMirror(h) => (q.0, wrapped(2 * (h.out.p.1 / 2) - 1 - q.1)),
    }
}

/// The number of points in each orbit of the pattern.
pub open spec fn orbit_len(t: Pattern) -> usize {
    match t {
        Pattern::Windmill(w) => w.iter,
        Pattern::VertMirror(v) => v.iter,
        Pattern::HorizMirror(h) => h.iter,
    }
}

/// The size of the picture that the pattern covers.
pub open spec fn pattern_out(t: Pattern) -> (usize, usize) {
    match t {
        Pattern::Windmill(w) => w.out.p,
        Pattern::VertMirror(v) => v.out.p,
        Pattern::HorizMirror(h) => h.out.p,
    }
}

/// The number of points that the pattern places.
pub open spec fn points_of(t: Pattern) -> int {
    let (a, b) = pattern_out(t);
    match t {
        Pattern::Windmill(_) => a * b / 4,
        _ => a * b / 2,
    }
}

/// The `k`-th point of the orbit of point number `input`: where it is
/// placed, moved `k` times by the symmetry.
pub open spec fn orbit(t: Pattern, input: usize, k: nat) -> (usize, usize)
    decreases k,
{
    if k == 0 {
        placed(t, input)
    } else {
        moved(t, orbit(t, input, (k - 1) as nat))
    }
}

impl Pattern {
    /// The point where this pattern places point number `input`.
    pub fn place(&self, input: usize) -> (r: Position)
        requires
            can_place(*self),
        ensures
            r.p == placed(*self, input),
    {
        match self {
            Pattern::Windmill(w) => w.place(input),
            Pattern::VertMirror(v) => v.place(input),
            Pattern::HorizMirror(h) => h.place(input),
        }
    }

    /// The image of `input` under this pattern's symmetry.
    pub fn step(&self, input: Position) -> (r: Position)
        ensures
            r.p == moved(*self, input.p),
    {
        match self {
            Pattern::Windmill(w) => w.step(input),
            Pattern::VertMirror(v) => v.step(input),
            Pattern::HorizMirror(h) => h.step(input),
        }
    }

    /// The number of points that this pattern places.
    pub fn required_size(&self) -> (r: usize)
        requires
            pattern_out(*self).0 * pattern_out(*self).1 <= usize::MAX,
        ensures
            r == points_of(*self),
    {
        match self {
            Pattern::Windmill(w) => w.required_size(),
            Pattern::VertMirror(v) => v.required_size(),
            Pattern::HorizMirror(h) => h.required_size(),
        }
    }

    /// The number of points in each orbit.
    pub fn iter(&self) -> (r: usize)
        ensures
            r == orbit_len(*self),
    {
        match self {
            Pattern::Windmill(w) => w.iter(),
            Pattern::VertMirror(v) => v.iter(),
            Pattern::HorizMirror(h) => h.iter(),
        }
    }
}

/// The orbit of point number `p`: where it is placed, then each image under
/// the symmetry in turn, as many points as the pattern's orbits hold.
pub fn tessle(t: &Pattern, p: usize) -> (r: Vec<Position>)
    requires
        can_place(*t),
    ensures
        r@.len() == orbit_len(*t),
        forall|k: int| 0 <= k < r@.len() ==> (#[trigger] r@[k]).p == orbit(*t, p, k as nat),
{
    let mut pos = t.place(p);
    let n: usize = t.iter();
    let mut out: Vec<Position> = Vec::new();
    let mut i: usize = 0;
    while i < n
        invariant
            n == orbit_len(*t),
            i <= n,
            out@.len() == i,
            pos.p == orbit(*t, p, i as nat),
            forall|k: int| 0 <= k < i ==> (#[trigger] out@[k]).p == orbit(*t, p, k as nat),
        decreases n - i,
    {
        out.push(pos);
        pos = t.step(pos);
        i = i + 1;
    }
    out
}

/// The side of the small square that an avatar is painted on.
pub const SIZE: usize = 8;

/// The pattern covers a square of even side `n`, with orbits of four points
/// for the windmill and of two points for the mirrors.
pub open spec fn square_pattern(t: Pattern, n: usize) -> bool {
    &&& pattern_out(t) == (n, n)
    &&& n % 2 == 0
    &&& n >= 2
    &&& n * n <= usize::MAX
    &&& orbit_len(t) == (match t {
        Pattern::Windmill(_) => 4usize,
        _ => 2usize,
    })
}

/// The pattern covers the small square.
pub open spec fn fits_square(t: Pattern) -> bool {
    square_pattern(t, SIZE)
}

/// The side of the square that the pattern covers.
pub open spec fn side(t: Pattern) -> int {
    pattern_out(t).0 as int
}

/// The number of the orbit that point `(x, y)` of the square lies on: the
/// number, counted row by row, of the point of the orbit that the pattern
/// places first.
pub open spec fn orbit_of(t: Pattern, x: int, y: int) -> int {
    let n = side(t);
    let h = n / 2;
    match t {
        Pattern::Windmill(_) => if x < h && y < h {
            x + h * y
        } else if x >= h && y < h {
            y + h * (n - 1 - x)
        } else if x >= h && y >= h {
            (n - 1 - x) + h * (n - 1 - y)
        } else {
            (n - 1 - y) + h * x
        },
        Pattern::VertMirror(_) => if x < h {
            x + h * y
        } else {
            (n - 1 - x) + h * y
        },
        Pattern::HorizMirror(_) => if y < h {
            x + n * y
        } else {
            x + n * (n - 1 - y)
        },
    }
}

/// How many times the symmetry moves the first point of its orbit to reach
/// point `(x, y)` of the square.
pub open spec fn turn_of(t: Pattern, x: int, y: int) -> int {
    let h = side(t) / 2;
    match t {
        Pattern::Windmill(_) => if x < h && y < h {
            0
        } else if x >= h && y < h {
            1
        } else if x >= h && y >= h {
            2
        } else {
            3
        },
        Pattern::VertMirror(_) => if x < h { 0 } else { 1 },
        Pattern::HorizMirror(_) => if y < h { 0 } else { 1 },
    }
}

/// A number below `d * m` splits into a remainder below `d` and a quotient
/// below `m`.
proof fn lemma_split(i: int, d: int, m: int)
    requires
        d > 0,
        0 <= i < d * m,
    ensures
        0 <= i % d < d,
        0 <= i / d < m,
        i == i % d + d * (i / d),
{
    vstd::arithmetic::div_mod::lemma_fundamental_div_mod(i, d);
    assert(0 <= i / d < m) by (nonlinear_arith)
        requires
            d > 0,
            0 <= i < d * m,
            i == d * (i / d) + i % d,
            0 <= i % d < d,
    {
        if i / d >= m {
            assert(d * (i / d) >= d * m);
        }
        if i / d < 0 {
            assert(d * (i / d) <= -d);
        }
    }
}

/// A remainder below `d` and a quotient below `m` join into a number below
/// `d * m` that splits back into them.
proof fn lemma_join(a: int, b: int, d: int, m: int)
    requires
        0 <= a < d,
        0 <= b < m,
    ensures
        0 <= a + d * b < d * m,
        (a + d * b) % d == a,
        (a + d * b) / d == b,
{
    assert(0 <= a + d * b < d * m) by (nonlinear_arith)
        requires
            0 <= a < d,
            0 <= b < m,
    {
        assert(d * b <= d * (m - 1));
    }
    vstd::arithmetic::mul::lemma_mul_is_commutative(d, b);
    lemma_fundamental_div_mod_converse(a + d * b, d, b, a);
}

/// The number of points that a square pattern places, in terms of half the side.
proof fn lemma_points_of_square(t: Pattern, n: usize)
    requires
        square_pattern(t, n),
    ensures
        points_of(t) == (match t {
            Pattern::Windmill(_) => (n / 2) * (n / 2),
            Pattern::VertMirror(_) => (n / 2) * n,
            Pattern::HorizMirror(_) => n * (n / 2),
        }),
{
    let h = (n / 2) as int;
    assert(n == 2 * h);
    assert((2 * h) * (2 * h) == 4 * (h * h)) by (nonlinear_arith);
    assert((2 * h) * (2 * h) == 2 * (h * (2 * h))) by (nonlinear_arith);
    assert((2 * h) * (2 * h) == 2 * ((2 * h) * h)) by (nonlinear_arith);
}

/// The points of each orbit lie in the square, on that orbit, in turn.
proof fn lemma_orbit_points(t: Pattern, n: usize, i: usize, k: nat)
    requires
        square_pattern(t, n),
        i < points_of(t),
        k < orbit_len(t),
    ensures
        orbit(t, i, k).0 < n,
        orbit(t, i, k).1 < n,
        orbit_of(t, orbit(t, i, k).0 as int, orbit(t, i, k).1 as int) == i,
        turn_of(t, orbit(t, i, k).0 as int, orbit(t, i, k).1 as int) == k,
{
    lemma_points_of_square(t, n);
    let ni = n as int;
    let h = ni / 2;
    let o0 = orbit(t, i, 0);
    let o1 = orbit(t, i, 1);
    let o2 = orbit(t, i, 2);
    let o3 = orbit(t, i, 3);
    assert(o0 == placed(t, i));
    assert(o1 == moved(t, o0));
    assert(o2 == moved(t, o1));
    assert(o3 == moved(t, o2));
    match t {
        Pattern::Windmill(_) => {
            lemma_split(i as int, h, h);
            let a = i as int % h;
            let b = i as int / h;
            assert(o0 == (a as usize, b as usize));
            assert(o1 == ((ni - 1 - b) as usize, a as usize));
            assert(o2 == ((ni - 1 - a) as usize, (ni - 1 - b) as usize));
            assert(o3 == (b as usize, (ni - 1 - a) as usize));
        },
        Pattern::VertMirror(_) => {
            lemma_split(i as int, h, ni);
            let a = i as int % h;
            let b = i as int / h;
            assert(o0 == (a as usize, b as usize));
            assert(o1 == ((ni - 1 - a) as usize, b as usize));
        },
        Pattern::HorizMirror(_) => {
            lemma_split(i as int, ni, h);
            let a = i as int % ni;
            let b = i as int / ni;
            assert(o0 == (a as usize, b as usize));
            assert(o1 == (a as usize, (ni - 1 - b) as usize));
        },
    }
}

/// Every point of the square lies on an orbit, at a turn within it.
proof fn lemma_point_orbit(t: Pattern, n: usize, x: usize, y: usize)
    requires
        square_pattern(t, n),
        x < n,
        y < n,
    ensures
        0 <= orbit_of(t, x as int, y as int) < points_of(t),
        0 <= turn_of(t, x as int, y as int) < orbit_len(t),
        orbit(t, orbit_of(t, x as int, y as int) as usize, turn_of(t, x as int, y as int) as nat) == (x, y),
{
    lemma_points_of_square(t, n);
    let ni = n as int;
    let h = ni / 2;
    let xi = x as int;
    let yi = y as int;
    let i = orbit_of(t, xi, yi);
    let k = turn_of(t, xi, yi);
    match t {
        Pattern::Windmill(_) => {
            let (a, b) = if k == 0 {
                (xi, yi)
            } else if k == 1 {
                (yi, ni - 1 - xi)
            } else if k == 2 {
                (ni - 1 - xi, ni - 1 - yi)
            } else {
                (ni - 1 - yi, xi)
            };
            assert(0 <= a < h && 0 <= b < h && i == a + h * b);
            lemma_join(a, b, h, h);
        },
        Pattern::VertMirror(_) => {
            let a = if k == 0 { xi } else { ni - 1 - xi };
            assert(0 <= a < h && i == a + h * yi);
            lemma_join(a, yi, h, ni);
        },
        Pattern::HorizMirror(_) => {
            let b = if k == 0 { yi } else { ni - 1 - yi };
            assert(0 <= b < h && i == xi + ni * b);
            lemma_join(xi, b, ni, h);
        },
    }
    let iu = i as usize;
    let o0 = orbit(t, iu, 0);
    let o1 = orbit(t, iu, 1);
    let o2 = orbit(t, iu, 2);
    let o3 = orbit(t, iu, 3);
    assert(o0 == placed(t, iu));
    assert(o1 == moved(t, o0));
    assert(o2 == moved(t, o1));
    assert(o3 == moved(t, o2));
}

/// Point `(x, y)` is a point of one of the pattern's orbits.
pub open spec fn on_some_orbit(t: Pattern, x: usize, y: usize) -> bool {
    exists|i: usize, k: nat| i < points_of(t) && k < orbit_len(t) && #[trigger] orbit(t, i, k) == (x, y)
}

/// The orbits of a pattern over a square of even side `n` paint the square
/// exactly once: every point of every orbit lies in the square, two points of
/// orbits are the same point only when they are the same point of the same
/// orbit, and every point of the square lies on some orbit.
pub proof fn lemma_orbits_partition_square(t: Pattern, n: usize)
    requires
        square_pattern(t, n),
    ensures
        forall|i: usize, k: nat|
            i < points_of(t) && k < orbit_len(t) ==> (#[trigger] orbit(t, i, k)).0 < n && orbit(t, i, k).1 < n,
        forall|i1: usize, k1: nat, i2: usize, k2: nat|
            i1 < points_of(t) && k1 < orbit_len(t) && i2 < points_of(t) && k2 < orbit_len(t)
                && #[trigger] orbit(t, i1, k1) == #[trigger] orbit(t, i2, k2) ==> i1 == i2 && k1 == k2,
        forall|x: usize, y: usize| x < n && y < n ==> #[trigger] on_some_orbit(t, x, y),
{
    assert forall|i: usize, k: nat| i < points_of(t) && k < orbit_len(t) implies (#[trigger] orbit(t, i, k)).0 < n
        && orbit(t, i, k).1 < n by {
        lemma_orbit_points(t, n, i, k);
    }
    assert forall|i1: usize, k1: nat, i2: usize, k2: nat|
        i1 < points_of(t) && k1 < orbit_len(t) && i2 < points_of(t) && k2 < orbit_len(t)
            && #[trigger] orbit(t, i1, k1) == #[trigger] orbit(t, i2, k2) implies i1 == i2 && k1 == k2 by {
        lemma_orbit_points(t, n, i1, k1);
        lemma_orbit_points(t, n, i2, k2);
    }
    assert forall|x: usize, y: usize| x < n && y < n implies #[trigger] on_some_orbit(t, x, y) by {
        lemma_point_orbit(t, n, x, y);
        let i = orbit_of(t, x as int, y as int) as usize;
        let k = turn_of(t, x as int, y as int) as nat;
        assert(orbit(t, i, k) == (x, y));
    }
}

/// The small square painted with one colour per orbit: point `c`, numbered
/// row by row, gets the colour of its orbit.
pub open spec fn square_colors(t: Pattern, pallete: Seq<Color>) -> Seq<Color> {
    Seq::new((SIZE * SIZE) as nat, |c: int| pallete[orbit_of(t, c % 8, c / 8)])
}

/// Paints the small square: every point of orbit `i` gets colour `pallete[i]`.
pub fn paint_square(t: &Pattern, pallete: &Vec<Color>) -> (mini: Vec<Color>)
    requires
        fits_square(*t),
        pallete@.len() == points_of(*t),
    ensures
        mini@ == square_colors(*t, pallete@),
{
    let mut mini: Vec<Color> = Vec::new();
    let mut c: usize = 0;
    while c < SIZE * SIZE
        invariant
            c <= SIZE * SIZE,
            mini@ == Seq::new(c as nat, |j: int| black()),
        decreases SIZE * SIZE - c,
    {
        mini.push(Color { r: 0, g: 0, b: 0 });
        c = c + 1;
        assert(mini@ =~= Seq::new(c as nat, |j: int| black()));
    }
    let points: usize = t.required_size();
    let mut i: usize = 0;
    while i < points
        invariant
            fits_square(*t),
            points == points_of(*t),
            pallete@.len() == points,
            i <= points,
            mini@.len() == SIZE * SIZE,
            forall|c: int| 0 <= c < SIZE * SIZE ==> #[trigger] mini@[c] == (if orbit_of(*t, c % 8, c / 8) < i {
                pallete@[orbit_of(*t, c % 8, c / 8)]
            } else {
                black()
            }),
        decreases points - i,
    {
        let orbit_points = tessle(t, i);
        let mut k: usize = 0;
        while k < orbit_points.len()
            invariant
                fits_square(*t),
                points == points_of(*t),
                pallete@.len() == points,
                i < points,
                k <= orbit_points@.len(),
                orbit_points@.len() == orbit_len(*t),
                forall|j: int| 0 <= j < orbit_points@.len() ==> (#[trigger] orbit_points@[j]).p == orbit(*t, i, j as nat),
                mini@.len() == SIZE * SIZE,
                forall|c: int| 0 <= c < SIZE * SIZE ==> #[trigger] mini@[c] == (if orbit_of(*t, c % 8, c / 8) < i
                    || (orbit_of(*t, c % 8, c / 8) == i && turn_of(*t, c % 8, c / 8) < k) {
                    pallete@[orbit_of(*t, c % 8, c / 8)]
                } else {
                    black()
                }),
            decreases orbit_points@.len() - k,
        {
            let q = orbit_points[k];
            proof {
                lemma_orbit_points(*t, SIZE, i, k as nat);
            }
            let sp = SquarePosition::from_position(SIZE, q);
            let idx: usize = sp.index();
            let ghost old_mini = mini@;
            mini.set(idx, pallete[i]);
            proof {
                let (x0, y0) = q.p;
                lemma_position_round_trip(SIZE, x0, y0);
                assert forall|c: int| 0 <= c < SIZE * SIZE implies #[trigger] mini@[c] == (if orbit_of(*t, c % 8, c / 8) < i
                    || (orbit_of(*t, c % 8, c / 8) == i && turn_of(*t, c % 8, c / 8) < k + 1) {
                    pallete@[orbit_of(*t, c % 8, c / 8)]
                } else {
                    black()
                }) by {
                    if c != idx {
                        assert(mini@[c] == old_mini[c]);
                        lemma_point_orbit(*t, SIZE, (c % 8) as usize, (c / 8) as usize);
                        if orbit_of(*t, c % 8, c / 8) == i && turn_of(*t, c % 8, c / 8) == k {
                            assert(c % 8 + 8 * (c / 8) == c);
                            assert(false);
                        }
                    }
                }
            }
            k = k + 1;
        }
        proof {
            assert forall|c: int| 0 <= c < SIZE * SIZE implies #[trigger] mini@[c] == (if orbit_of(*t, c % 8, c / 8) < i + 1 {
                pallete@[orbit_of(*t, c % 8, c / 8)]
            } else {
                black()
            }) by {
                lemma_point_orbit(*t, SIZE, (c % 8) as usize, (c / 8) as usize);
            }
        }
        i = i + 1;
    }
    proof {
        assert forall|c: int| 0 <= c < SIZE * SIZE implies #[trigger] mini@[c] == square_colors(*t, pallete@)[c] by {
            lemma_point_orbit(*t, SIZE, (c % 8) as usize, (c / 8) as usize);
        }
    }
    assert(mini@ =~= square_colors(*t, pallete@));
    mini
}

/// The small square blown up to a square of side `dim`: pixel `i`, numbered
/// row by row, takes the colour of the point of the small square that it
/// falls in.
pub open spec fn blown_up(mini: Seq<Color>, dim: int) -> Seq<Color> {
    let e = dim / 8;
    Seq::new((dim * dim) as nat, |i: int| mini[(i % dim) / e + ((i / dim) / e) * 8])
}

/// The small square lands on pixel `(x, y)` at point `(x / e, y / e)` where
/// `e` is an eighth of the side, and that point lies in the small square.
proof fn lemma_scaled_point(dim: int, x: int, y: int)
    requires
        dim > 0,
        dim % 8 == 0,
        0 <= x < dim,
        0 <= y < dim,
    ensures
        0 <= x / (dim / 8) < 8,
        0 <= y / (dim / 8) < 8,
        0 <= x / (dim / 8) + (y / (dim / 8)) * 8 < 64,
{
    let e = dim / 8;
    assert(dim == 8 * e);
    assert(0 <= x / e < 8) by (nonlinear_arith)
        requires
            e > 0,
            0 <= x < 8 * e,
    {
        if x / e >= 8 {
            assert(x >= e * (x / e));
            assert(e * (x / e) >= e * 8);
        }
    }
    assert(0 <= y / e < 8) by (nonlinear_arith)
        requires
            e > 0,
            0 <= y < 8 * e,
    {
        if y / e >= 8 {
            assert(y >= e * (y / e));
            assert(e * (y / e) >= e * 8);
        }
    }
}

/// A pixel number splits into a column and a row below the side.
proof fn lemma_pixel_split(dim: int, i: int)
    requires
        dim > 0,
        0 <= i < dim * dim,
    ensures
        0 <= i % dim < dim,
        0 <= i / dim < dim,
{
    assert(0 <= i / dim < dim) by (nonlinear_arith)
        requires
            dim > 0,
            0 <= i < dim * dim,
    {
        if i / dim >= dim {
            assert(i >= dim * (i / dim));
            assert(dim * (i / dim) >= dim * dim);
        }
    }
}

/// Blows the small square up to a square of side `dim`, a multiple of its side.
pub fn blow_up(mini: &Vec<Color>, dim: usize) -> (image: Vec<Color>)
    requires
        mini@.len() == SIZE * SIZE,
        dim % 8 == 0,
        dim * dim <= usize::MAX,
    ensures
        image@ == blown_up(mini@, dim as int),
{
    let expand: usize = dim / SIZE;
    let total: usize = dim * dim;
    let mut image: Vec<Color> = Vec::new();
    let mut i: usize = 0;
    while i < total
        invariant
            mini@.len() == SIZE * SIZE,
            dim % 8 == 0,
            expand == dim / 8,
            total == dim * dim,
            i <= total,
            image@.len() == i,
            forall|j: int| 0 <= j < i ==> #[trigger] image@[j] == blown_up(mini@, dim as int)[j],
        decreases total - i,
    {
        proof {
            assert(dim > 0) by (nonlinear_arith)
                requires
                    i < dim * dim,
            ;
            lemma_pixel_split(dim as int, i as int);
            lemma_scaled_point(dim as int, (i % dim) as int, (i / dim) as int);
        }
        let sp = SquarePosition::from_index(dim, i);
        let mini_sp = SquarePosition::from_position(
            SIZE,
            Position::new((sp.position().x() / expand, sp.position().y() / expand)),
        );
        let k: usize = mini_sp.index();
        image.push(mini[k]);
        i = i + 1;
    }
    assert(image@ =~= blown_up(mini@, dim as int));
    image
}

/// `n` is a power of two.
pub open spec fn is_power_of_two(n: int) -> bool {
    exists|k: nat| pow2(k) == n
}

/// The picture of an avatar of side `dim` painted with pattern `t` and one
/// colour per orbit.
pub open spec fn avatar_image(t: Pattern, pallete: Seq<Color>, dim: int) -> Seq<Color> {
    blown_up(square_colors(t, pallete), dim)
}

/// The windmill over the small square.
pub open spec fn windmill_square() -> Pattern {
    Pattern::Windmill(WindmillPattern { out: Position { p: (SIZE, SIZE) }, iter: 4 })
}

/// The left-right mirror over the small square.
pub open spec fn mirror_square() -> Pattern {
    Pattern::VertMirror(VertMirrorPattern { out: Position { p: (SIZE, SIZE) }, iter: 2 })
}

/// A square picture: its side and its pixels row by row.
pub struct Avatar {
    pub dim: usize,
    pub image: Vec<Color>,
}

impl Avatar {
    /// The avatar of side `dim` painted with pattern `t`, orbit `i` of the
    /// small square in colour `pallete[i]`.
    pub fn from_pallete(t: &Pattern, pallete: &Vec<Color>, dim: usize) -> (a: Avatar)
        requires
            fits_square(*t),
            pallete@.len() == points_of(*t),
            dim % 8 == 0,
            dim * dim <= usize::MAX,
        ensures
            a.dim == dim,
            a.image@ == avatar_image(*t, pallete@, dim as int),
    {
        let mini = paint_square(t, pallete);
        let image = blow_up(&mini, dim);
        Avatar { dim, image }
    }

    /// A random avatar of side `dim`: a windmill or a left-right mirror,
    /// drawn at random, painted with colours drawn at random from one of the
    /// colour lists of `colors`, itself drawn at random. The picture is the
    /// one that the draws from `rng` give (`drawn_avatar`).
    pub fn new(colors: &Vec<Vec<Color>>, _hash: u64, dim: usize, rng: &mut Generator) -> (a: Avatar)
        requires
            usize::BITS == 64,
            colors@.len() > 0,
            forall|k: int| 0 <= k < colors@.len() ==> #[trigger] colors@[k]@.len() > 0,
            dim == 0 || (is_power_of_two(dim as int) && dim >= 8),
            dim * dim <= usize::MAX,
        ensures
            a.dim == dim,
            a.image@ == drawn_avatar(colors@, dim as int, old(rng)@),
            exists|t: Pattern, pallete: Seq<Color>|
                #![trigger avatar_image(t, pallete, dim as int)]
                (t == windmill_square() || t == mirror_square())
                    && pallete.len() == points_of(t)
                    && drawn_from(colors@, pallete)
                    && a.image@ == avatar_image(t, pallete, dim as int),
            drawn_from(colors@, a.image@),
    {
        proof {
            lemma_side_multiple_of_size(dim);
            vstd::arithmetic::power2::lemma2_to64();
        }
        let ghost s0 = rng@;
        let windmill = WindmillPattern::new(Position::new((SIZE, SIZE)));
        let vert = VertMirrorPattern::new(Position::new((SIZE, SIZE)));
        let patterns: Vec<Pattern> = vec![Pattern::Windmill(windmill), Pattern::VertMirror(vert)];
        let choice: usize = gen_index(rng, patterns.len());
        let pattern: Pattern = patterns[choice];
        assert(pattern == drawn_pattern(choice));
        let points: usize = pattern.required_size();
        let bits: usize = 32;
        let ghost s1 = rng@;
        let color_mask: BoundedMask<Color> = BoundedMask::new(rng, colors, bits, 0);
        let ghost k = index_draw(s1, colors@.len() as usize).0;
        proof {
            assert(color_mask.data@ =~= colors@[k as int]@);
        }
        let ghost s3 = rng@;
        let inputs: Vec<u32> = draw_inputs(rng, points);
        let pallete: Vec<Color> = pallete_from_inputs(&color_mask, &inputs);
        let a = Avatar::from_pallete(&pattern, &pallete, dim);
        proof {
            assert(color_mask.mask == mask_of_width(32));
            assert(a.image@ == drawn_avatar(colors@, dim as int, s0));
            assert forall|j: int| 0 <= j < pallete@.len() implies colors@[k as int]@.contains(#[trigger] pallete@[j]) by {
                let key = mask_key(inputs@[j] as usize, 0, color_mask.mask);
                lemma_selected_index(color_mask.bounds@, key);
                assert(pallete@[j] == colors@[k as int]@[selected_index(color_mask.bounds@, key)]);
            }
            assert(drawn_from(colors@, pallete@));
            if dim > 0 {
                assert forall|i: int| 0 <= i < a.image@.len() implies colors@[k as int]@.contains(#[trigger] a.image@[i]) by {
                    lemma_pixels_from_pallete(pattern, pallete@, dim as int, i);
                    let j = choose|j: int| 0 <= j < pallete@.len() && pallete@[j] == a.image@[i];
                    assert(colors@[k as int]@.contains(pallete@[j]));
                }
            }
            assert(drawn_from(colors@, a.image@));
        }
        a
    }

    /// The avatar of a name: the name is hashed with SipHash under the keys
    /// `NAME_KEY0` and `NAME_KEY1`, the low and high halves of the hash seed
    /// the generator (`name_seed`), and the generator draws the avatar as
    /// `Avatar::new` does.
    pub fn avatar_for_name(name: &str, colors: &Vec<Vec<Color>>, dim: usize) -> (a: Avatar)
        requires
            usize::BITS == 64,
            colors@.len() > 0,
            forall|k: int| 0 <= k < colors@.len() ==> #[trigger] colors@[k]@.len() > 0,
            dim == 0 || (is_power_of_two(dim as int) && dim >= 8),
            dim * dim <= usize::MAX,
        ensures
            a.dim == dim,
            a.image@ == drawn_avatar(colors@, dim as int, (name_seed_of(name@).0, name_seed_of(name@).1, 0nat)),
            exists|t: Pattern, pallete: Seq<Color>|
                #![trigger avatar_image(t, pallete, dim as int)]
                (t == windmill_square() || t == mirror_square())
                    && pallete.len() == points_of(t)
                    && drawn_from(colors@, pallete)
                    && a.image@ == avatar_image(t, pallete, dim as int),
            drawn_from(colors@, a.image@),
    {
        let (low, high) = name_seed(name);
        let mut rng = Generator::seeded(low, high);
        let hash: u64 = sip_hash(NAME_KEY0, NAME_KEY1, name);
        Avatar::new(colors, hash, dim, &mut rng)
    }
}

/// The first key under which names are hashed.
pub const NAME_KEY0: u64 = 0xFEED_DEAD_BEEF_BAFFu64;

/// The second key under which names are hashed.
pub const NAME_KEY1: u64 = 0xDEAD_BEE5_DECA_DE00u64;

/// All colours of `s` come from one of the lists of `colors`.
pub open spec fn drawn_from(colors: Seq<Vec<Color>>, s: Seq<Color>) -> bool {
    exists|k: int|
        #![trigger colors[k]]
        0 <= k < colors.len() && forall|i: int| 0 <= i < s.len() ==> colors[k]@.contains(#[trigger] s[i])
}

/// The header of a binary portable pixmap of side `dim` with 255 levels
/// per channel.
pub open spec fn ppm_header(dim: nat) -> Seq<u8> {
    seq![80u8, 54u8, 10u8] + decimal(dim) + seq![32u8] + decimal(dim) + seq![10u8] + decimal(255) + seq![10u8]
}

/// Channel `c` (0 red, 1 green, 2 blue) of a colour.
pub open spec fn channel(color: Color, c: int) -> u8 {
    if c == 0 {
        color.r
    } else if c == 1 {
        color.g
    } else {
        color.b
    }
}

/// The pixels as bytes: red, green and blue of each pixel in turn.
pub open spec fn pixel_bytes(image: Seq<Color>) -> Seq<u8> {
    Seq::new(3 * image.len(), |i: int| channel(image[i / 3], i % 3))
}

impl Avatar {
    /// The avatar as a binary portable pixmap (`P6`).
    pub fn ppm(&self) -> (r: Vec<u8>)
        requires
            3 * self.image@.len() <= usize::MAX,
        ensures
            r@ == ppm_header(self.dim as nat) + pixel_bytes(self.image@),
    {
        let mut out: Vec<u8> = Vec::new();
        out.push(80u8);
        out.push(54u8);
        out.push(10u8);
        push_decimal(&mut out, self.dim as u64);
        out.push(32u8);
        push_decimal(&mut out, self.dim as u64);
        out.push(10u8);
        push_decimal(&mut out, 255);
        out.push(10u8);
        let ghost header = out@;
        assert(header =~= ppm_header(self.dim as nat));
        let mut i: usize = 0;
        while i < self.image.len()
            invariant
                i <= self.image@.len(),
                out@ =~= header + pixel_bytes(self.image@.subrange(0, i as int)),
            decreases self.image@.len() - i,
        {
            let c = self.image[i];
            out.push(c.r);
            out.push(c.g);
            out.push(c.b);
            i = i + 1;
            assert(out@ =~= header + pixel_bytes(self.image@.subrange(0, i as int)));
        }
        assert(self.image@.subrange(0, self.image@.len() as int) =~= self.image@);
        out
    }
}

/// The colour pairs that avatars are painted with, as packed `RGB888` words.
pub open spec fn pair_words() -> Seq<Seq<usize>> {
    seq![
        seq![0xEDB231usize, 0x4AF0A9usize],
        seq![0x77E761usize, 0xA1DFE1usize],
        seq![0x8E14BAusize, 0x4AF0A9usize],
        seq![0x0D5799usize, 0xFF4C22usize],
        seq![0x93648Dusize, 0xF16745usize],
        seq![0xFFC65Dusize, 0x404040usize],
        seq![0x666699usize, 0xBEF243usize],
    ]
}

/// The colour pairs that avatars are painted with.
pub fn color_pairs() -> (r: Vec<Vec<Color>>)
    ensures
        r@.len() == pair_words().len(),
        forall|k: int| 0 <= k < r@.len() ==> (#[trigger] r@[k])@ == pair_words()[k].map_values(|w: usize| rgb888(w)),
{
    let words: Vec<Vec<usize>> = vec![
        vec![0xEDB231usize, 0x4AF0A9usize],
        vec![0x77E761usize, 0xA1DFE1usize],
        vec![0x8E14BAusize, 0x4AF0A9usize],
        vec![0x0D5799usize, 0xFF4C22usize],
        vec![0x93648Dusize, 0xF16745usize],
        vec![0xFFC65Dusize, 0x404040usize],
        vec![0x666699usize, 0xBEF243usize],
    ];
    assert(words@.map_values(|v: Vec<usize>| v@) =~= pair_words());
    let mut out: Vec<Vec<Color>> = Vec::new();
    let mut k: usize = 0;
    while k < words.len()
        invariant
            words@.map_values(|v: Vec<usize>| v@) == pair_words(),
            k <= words@.len(),
            out@.len() == k,
            forall|m: int| 0 <= m < k ==> (#[trigger] out@[m])@ == pair_words()[m].map_values(|w: usize| rgb888(w)),
        decreases words@.len() - k,
    {
        let row: &Vec<usize> = &words[k];
        assert(row@ == pair_words()[k as int]);
        let mut colors: Vec<Color> = Vec::new();
        let mut j: usize = 0;
        while j < row.len()
            invariant
                j <= row@.len(),
                colors@ == row@.subrange(0, j as int).map_values(|w: usize| rgb888(w)),
            decreases row@.len() - j,
        {
            colors.push(Color::new("rgb888", row[j]));
            j = j + 1;
            assert(colors@ =~= row@.subrange(0, j as int).map_values(|w: usize| rgb888(w)));
        }
        assert(row@.subrange(0, row@.len() as int) =~= row@);
        out.push(colors);
        k = k + 1;
    }
    out
}

/// The side of an avatar is a multiple of the small square's side.
proof fn lemma_side_multiple_of_size(dim: usize)
    requires
        dim == 0 || (is_power_of_two(dim as int) && dim >= 8),
    ensures
        dim % 8 == 0,
{
    if dim != 0 {
        let e = choose|e: nat| pow2(e) == dim as int;
        lemma2_to64();
        if e < 3 {
            if e == 0 {
            } else if e == 1 {
            } else {
            }
            assert(false);
        }
        vstd::arithmetic::power2::lemma_pow2_adds(3, (e - 3) as nat);
        assert(dim == 8 * pow2((e - 3) as nat));
    }
}

/// The field that a bounded mask compares is the `mask_size`-bit field of
/// `input` starting at bit `offset`, when the mask is the low `mask_size` bits.
pub proof fn lemma_mask_key_is_bit_field(input: usize, offset: usize, mask_size: usize, mask: usize)
    requires
        offset < usize::BITS,
        mask_size < usize::BITS,
        mask == pow2(mask_size as nat) - 1,
    ensures
        mask_key(input, offset, mask) == (input as nat / pow2(offset as nat)) % pow2(mask_size as nat),
{
    lemma_usize_shr_is_div(input, offset);
    vstd::bits::lemma_usize_pow2_no_overflow(mask_size as nat);
    vstd::bits::lemma_usize_low_bits_mask_is_mod(input >> offset, mask_size as nat);
}

/// Mirroring a pixel coordinate across the middle of a side of `8 * e`
/// mirrors the point of the small square that it falls in.
proof fn lemma_scaled_mirror(dim: int, x: int)
    requires
        dim > 0,
        dim % 8 == 0,
        0 <= x < dim,
    ensures
        (dim - 1 - x) / (dim / 8) == 7 - x / (dim / 8),
{
    let e = dim / 8;
    let q = x / e;
    let r = x % e;
    vstd::arithmetic::div_mod::lemma_fundamental_div_mod(x, e);
    vstd::arithmetic::mul::lemma_mul_is_distributive_sub(e, 7, q);
    vstd::arithmetic::mul::lemma_mul_is_commutative(e, q);
    vstd::arithmetic::mul::lemma_mul_is_commutative(e, 7 - q);
    assert(dim - 1 - x == (7 - q) * e + (e - 1 - r));
    lemma_fundamental_div_mod_converse(dim - 1 - x, e, 7 - q, e - 1 - r);
}

/// The colour of pixel `(x, y)` of an avatar picture.
pub open spec fn pixel(t: Pattern, pallete: Seq<Color>, dim: int, x: int, y: int) -> Color {
    avatar_image(t, pallete, dim)[x + y * dim]
}

/// Pixel `(x, y)` of an avatar picture has the colour of the orbit that the
/// point `(x / e, y / e)` of the small square lies on.
proof fn lemma_pixel_color(t: Pattern, pallete: Seq<Color>, dim: int, x: int, y: int)
    requires
        dim > 0,
        dim % 8 == 0,
        0 <= x < dim,
        0 <= y < dim,
    ensures
        0 <= x + y * dim < dim * dim,
        pixel(t, pallete, dim, x, y) == pallete[orbit_of(t, x / (dim / 8), y / (dim / 8))],
{
    lemma_fundamental_div_mod_converse(x + y * dim, dim, y, x);
    lemma_scaled_point(dim, x, y);
    assert(0 <= x + y * dim < dim * dim) by (nonlinear_arith)
        requires
            0 <= x < dim,
            0 <= y < dim,
    ;
    let a = x / (dim / 8);
    let b = y / (dim / 8);
    assert(0 <= a + b * 8 < 64);
    assert((a + b * 8) % 8 == a && (a + b * 8) / 8 == b);
}

/// An avatar painted with the windmill looks the same turned a quarter:
/// pixel `(x, y)` has the colour of pixel `(dim - 1 - y, x)`.
pub proof fn lemma_windmill_symmetry(t: Pattern, pallete: Seq<Color>, dim: int, x: int, y: int)
    requires
        t is Windmill,
        fits_square(t),
        dim > 0,
        dim % 8 == 0,
        0 <= x < dim,
        0 <= y < dim,
    ensures
        pixel(t, pallete, dim, x, y) == pixel(t, pallete, dim, dim - 1 - y, x),
{
    lemma_pixel_color(t, pallete, dim, x, y);
    lemma_pixel_color(t, pallete, dim, dim - 1 - y, x);
    lemma_scaled_mirror(dim, y);
    lemma_scaled_point(dim, x, y);
}

/// An avatar painted with the left-right mirror looks the same mirrored:
/// pixel `(x, y)` has the colour of pixel `(dim - 1 - x, y)`.
pub proof fn lemma_vert_mirror_symmetry(t: Pattern, pallete: Seq<Color>, dim: int, x: int, y: int)
    requires
        t is VertMirror,
        fits_square(t),
        dim > 0,
        dim % 8 == 0,
        0 <= x < dim,
        0 <= y < dim,
    ensures
        pixel(t, pallete, dim, x, y) == pixel(t, pallete, dim, dim - 1 - x, y),
{
    lemma_pixel_color(t, pallete, dim, x, y);
    lemma_pixel_color(t, pallete, dim, dim - 1 - x, y);
    lemma_scaled_mirror(dim, x);
    lemma_scaled_point(dim, x, y);
}

/// An avatar painted with the top-bottom mirror looks the same upside down:
/// pixel `(x, y)` has the colour of pixel `(x, dim - 1 - y)`.
pub proof fn lemma_horiz_mirror_symmetry(t: Pattern, pallete: Seq<Color>, dim: int, x: int, y: int)
    requires
        t is HorizMirror,
        fits_square(t),
        dim > 0,
        dim % 8 == 0,
        0 <= x < dim,
        0 <= y < dim,
    ensures
        pixel(t, pallete, dim, x, y) == pixel(t, pallete, dim, x, dim - 1 - y),
{
    lemma_pixel_color(t, pallete, dim, x, y);
    lemma_pixel_color(t, pallete, dim, x, dim - 1 - y);
    lemma_scaled_mirror(dim, y);
    lemma_scaled_point(dim, x, y);
}

/// Every pixel of an avatar picture has one of the colours of the pallete.
pub proof fn lemma_pixels_from_pallete(t: Pattern, pallete: Seq<Color>, dim: int, i: int)
    requires
        fits_square(t),
        pallete.len() == points_of(t),
        dim > 0,
        dim % 8 == 0,
        0 <= i < dim * dim,
    ensures
        pallete.contains(avatar_image(t, pallete, dim)[i]),
{
    lemma_pixel_split(dim, i);
    let x = i % dim;
    let y = i / dim;
    lemma_scaled_point(dim, x, y);
    let a = x / (dim / 8);
    let b = y / (dim / 8);
    assert((a + b * 8) % 8 == a && (a + b * 8) / 8 == b);
    lemma_point_orbit(t, SIZE, a as usize, b as usize);
    let j = orbit_of(t, a, b);
    assert(avatar_image(t, pallete, dim)[i] == pallete[j]);
}

/// The seed that a name gives: the low and high halves of its keyed SipHash.
pub open spec fn name_seed_of(name: Seq<char>) -> (u32, u32) {
    let h = spec_sip_hash(NAME_KEY0, NAME_KEY1, name);
    ((h % 0x1_0000_0000) as u32, (h / 0x1_0000_0000) as u32)
}

/// The seed that a name gives: the low and high halves of its SipHash under
/// the keys `NAME_KEY0` and `NAME_KEY1`.
pub fn name_seed(name: &str) -> (r: (u32, u32))
    ensures
        r == name_seed_of(name@),
{
    let hash: u64 = sip_hash(NAME_KEY0, NAME_KEY1, name);
    let low: u32 = (hash % 0x1_0000_0000) as u32;
    let high: u32 = (hash / 0x1_0000_0000) as u32;
    (low, high)
}

/// The mask of the low `w` bits.
pub open spec fn mask_of_width(w: nat) -> usize {
    (pow2(w) - 1) as usize
}

/// `count` selection inputs drawn one after the other, and the generator's
/// state after them: for each, two words are drawn, the generator is seeded
/// anew with them, and the first word of the new stream is the input.
pub open spec fn inputs_draw(s: (u32, u32, nat), count: nat) -> (Seq<u32>, (u32, u32, nat))
    decreases count,
{
    if count == 0 {
        (Seq::empty(), s)
    } else {
        let (prev, s1) = inputs_draw(s, (count - 1) as nat);
        let (a, s2) = word_draw(s1);
        let (b, s3) = word_draw(s2);
        let (v, s4) = word_draw((a, b, 0nat));
        (prev.push(v), s4)
    }
}

/// The colours that a bounded mask over `data` selects for `inputs`.
pub open spec fn pallete_of(data: Seq<Color>, bounds: Seq<usize>, mask: usize, offset: usize, inputs: Seq<u32>) -> Seq<Color> {
    Seq::new(inputs.len(), |j: int| data[selected_index(bounds, mask_key(inputs[j] as usize, offset, mask))])
}

/// The pattern with number `choice`: the windmill first, then the mirror.
pub open spec fn drawn_pattern(choice: usize) -> Pattern {
    if choice == 0 {
        windmill_square()
    } else {
        mirror_square()
    }
}

/// The avatar picture of side `dim` that the draws from a generator in state
/// `s` give: the pattern's number below 2, the colour list's number, the
/// bounds of a 32-bit mask between its colours, and one selection input per
/// orbit of the pattern.
pub open spec fn drawn_avatar(colors: Seq<Vec<Color>>, dim: int, s: (u32, u32, nat)) -> Seq<Color> {
    let (choice, s1) = index_draw(s, 2);
    let t = drawn_pattern(choice);
    let (k, s2) = index_draw(s1, colors.len() as usize);
    let data = colors[k as int]@;
    let mask = mask_of_width(32);
    let (bounds, s3) = bounds_draw(s2, (data.len() - 1) as nat, mask);
    let (inputs, s4) = inputs_draw(s3, points_of(t) as nat);
    avatar_image(t, pallete_of(data, bounds, mask, 0, inputs), dim)
}

/// Draws `count` selection inputs: for each, two words are drawn, the
/// generator is seeded anew with them, and one more word is drawn.
pub fn draw_inputs(rng: &mut Generator, count: usize) -> (r: Vec<u32>)
    ensures
        r@.len() == count,
        (r@, final(rng)@) == inputs_draw(old(rng)@, count as nat),
{
    let ghost s0 = rng@;
    let mut out: Vec<u32> = Vec::new();
    let mut j: usize = 0;
    while j < count
        invariant
            j <= count,
            out@.len() == j,
            (out@, rng@) == inputs_draw(s0, j as nat),
        decreases count - j,
    {
        let a: u32 = next_u32(rng);
        let b: u32 = next_u32(rng);
        rng.reseed(a, b);
        let input: u32 = next_u32(rng);
        out.push(input);
        j = j + 1;
    }
    out
}

/// The colours that the bounded mask selects for each input in turn.
pub fn pallete_from_inputs(mask: &BoundedMask<Color>, inputs: &Vec<u32>) -> (r: Vec<Color>)
    requires
        mask.bounds@.len() < mask.data@.len(),
        mask.offset < usize::BITS,
    ensures
        r@ == pallete_of(mask.data@, mask.bounds@, mask.mask, mask.offset, inputs@),
{
    let mut out: Vec<Color> = Vec::new();
    let mut j: usize = 0;
    while j < inputs.len()
        invariant
            mask.bounds@.len() < mask.data@.len(),
            mask.offset < usize::BITS,
            j <= inputs@.len(),
            out@ == pallete_of(mask.data@, mask.bounds@, mask.mask, mask.offset, inputs@.subrange(0, j as int)),
        decreases inputs@.len() - j,
    {
        let c: Color = mask.select(inputs[j] as usize);
        out.push(c);
        j = j + 1;
        assert(out@ =~= pallete_of(mask.data@, mask.bounds@, mask.mask, mask.offset, inputs@.subrange(0, j as int)));
    }
    assert(inputs@.subrange(0, inputs@.len() as int) =~= inputs@);
    out
}

/// `count` inputs are drawn.
proof fn lemma_inputs_draw_len(s: (u32, u32, nat), count: nat)
    ensures
        inputs_draw(s, count).0.len() == count,
    decreases count,
{
    if count > 0 {
        lemma_inputs_draw_len(s, (count - 1) as nat);
    }
}

/// Each bound of a freshly drawn mask is what `gen_range(0..mask)` draws from
/// the generator at that point of its stream: bound `j` is the value that
/// `isaac_index` gives with bound `mask` from the state after the first `j`
/// bounds, and `count` bounds are drawn.
pub proof fn lemma_bounds_are_range_draws(s: (u32, u32, nat), count: nat, mask: usize)
    ensures
        bounds_draw(s, count, mask).0.len() == count,
        forall|j: int|
            0 <= j < count ==> #[trigger] bounds_draw(s, count, mask).0[j] == ({
                let t = bounds_draw(s, j as nat, mask).1;
                isaac_index(t.0, t.1, t.2, mask).0
            }),
    decreases count,
{
    if count > 0 {
        lemma_bounds_are_range_draws(s, (count - 1) as nat, mask);
        let prev = bounds_draw(s, (count - 1) as nat, mask).0;
        let all = bounds_draw(s, count, mask).0;
        assert forall|j: int| 0 <= j < count implies #[trigger] all[j] == ({
            let t = bounds_draw(s, j as nat, mask).1;
            isaac_index(t.0, t.1, t.2, mask).0
        }) by {
            if j < count - 1 {
                assert(all[j] == prev[j]);
            }
        }
    }
}

/// The pattern of a drawn avatar is the one that the first draw,
/// `gen_range(0..2)` over the windmill and the mirror, picks: a 0 gives a
/// windmill, which looks the same turned a quarter, and a 1 gives a
/// left-right mirror, which looks the same mirrored.
pub proof fn lemma_drawn_pattern(colors: Seq<Vec<Color>>, dim: int, s: (u32, u32, nat))
    requires
        dim > 0,
        dim % 8 == 0,
    ensures
        exists|p: Seq<Color>|
            #![trigger avatar_image(drawn_pattern(isaac_index(s.0, s.1, s.2, 2).0), p, dim)]
            p.len() == points_of(drawn_pattern(isaac_index(s.0, s.1, s.2, 2).0))
                && drawn_avatar(colors, dim, s) == avatar_image(drawn_pattern(isaac_index(s.0, s.1, s.2, 2).0), p, dim),
        isaac_index(s.0, s.1, s.2, 2).0 == 0 ==> forall|x: int, y: int|
            0 <= x < dim && 0 <= y < dim ==> #[trigger] drawn_avatar(colors, dim, s)[x + y * dim]
                == drawn_avatar(colors, dim, s)[(dim - 1 - y) + x * dim],
        isaac_index(s.0, s.1, s.2, 2).0 == 1 ==> forall|x: int, y: int|
            0 <= x < dim && 0 <= y < dim ==> #[trigger] drawn_avatar(colors, dim, s)[x + y * dim]
                == drawn_avatar(colors, dim, s)[(dim - 1 - x) + y * dim],
{
    let (choice, s1) = index_draw(s, 2);
    let t = drawn_pattern(choice);
    let (k, s2) = index_draw(s1, colors.len() as usize);
    let data = colors[k as int]@;
    let mask = mask_of_width(32);
    let (bounds, s3) = bounds_draw(s2, (data.len() - 1) as nat, mask);
    let (inputs, s4) = inputs_draw(s3, points_of(t) as nat);
    let p = pallete_of(data, bounds, mask, 0, inputs);
    lemma_inputs_draw_len(s3, points_of(t) as nat);
    assert(points_of(t) >= 0) by {
        assert(points_of(windmill_square()) == 16);
        assert(points_of(mirror_square()) == 32);
    }
    assert(drawn_avatar(colors, dim, s) == avatar_image(t, p, dim));
    assert(p.len() == points_of(t));
    assert(choice == isaac_index(s.0, s.1, s.2, 2).0);
    if choice == 0 {
        assert forall|x: int, y: int| 0 <= x < dim && 0 <= y < dim implies #[trigger] drawn_avatar(colors, dim, s)[x
            + y * dim] == drawn_avatar(colors, dim, s)[(dim - 1 - y) + x * dim] by {
            lemma_windmill_symmetry(t, p, dim, x, y);
        }
    }
    if choice == 1 {
        assert forall|x: int, y: int| 0 <= x < dim && 0 <= y < dim implies #[trigger] drawn_avatar(colors, dim, s)[x
            + y * dim] == drawn_avatar(colors, dim, s)[(dim - 1 - x) + y * dim] by {
            lemma_vert_mirror_symmetry(t, p, dim, x, y);
        }
    }
}

} // verus!

