use vstd::prelude::*;

use crate::error::QuadtreeError;
use crate::quadrant::{lemma_code_round_trip, Quadrant};

verus! {

/// Deepest level that an address can describe.
pub const RESOLUTION: u32 = 12;

/// The level field of a raw address (bits 24 to 27).
pub open spec fn level_of(loc: u32) -> u32 {
    (loc >> 24) & 0xf
}

/// The coordinate field of a raw address (bits 0 to 23).
pub open spec fn coord_of(loc: u32) -> u32 {
    loc & 0xffffff
}

/// The overflow field of a raw address (bits 28 to 31).
pub open spec fn overflow_of(loc: u32) -> u32 {
    loc >> 28
}

/// How far the code of level `k` sits from bit 0 (levels 1 to 12).
pub open spec fn shift_of(k: u32) -> u32 {
    (24 - 2 * k) as u32
}

/// The two-bit quadrant code that a raw address holds for level `k`.
pub open spec fn code_at(loc: u32, k: u32) -> u32 {
    (loc >> shift_of(k)) & 3
}

/// The coordinate bits that lie deeper than `level`.
pub open spec fn below_mask(level: u32) -> u32 {
    ((1u32 << shift_of(level)) - 1) as u32
}

/// A raw address is well formed when its level is at most the resolution,
/// the coordinate bits deeper than its level are zero, and the overflow
/// counter is used only at the deepest level.
pub open spec fn loc_wf(loc: u32) -> bool {
    &&& level_of(loc) <= 12
    &&& loc & below_mask(level_of(loc)) == 0
    &&& overflow_of(loc) != 0 ==> level_of(loc) == 12
}

/// The sequence of quadrants that leads from the root to a raw address.
pub open spec fn path_of(loc: u32) -> Seq<Quadrant> {
    Seq::new(level_of(loc) as nat, |j: int| Quadrant::from_code(code_at(loc, (j + 1) as u32)))
}

/// The raw address one level deeper than `loc` in quadrant code `c`.
pub open spec fn child_loc(loc: u32, c: u32) -> u32 {
    ((loc | (c << shift_of((level_of(loc) + 1) as u32))) + 0x1000000) as u32
}

/// The raw address one level shallower than `loc` (overflow-free, level at least 1).
pub open spec fn parent_loc(loc: u32) -> u32 {
    ((loc & !(3u32 << shift_of(level_of(loc)))) - 0x1000000) as u32
}

proof fn lemma_code_small(x: u32, s: u32)
    by (bit_vector)
    ensures
        (x >> s) & 3 < 4,
        ((x >> s) & 3) & 3 == (x >> s) & 3,
{
}

proof fn lemma_write_fields(loc: u32, c: u32, l: u32)
    by (bit_vector)
    requires
        (loc >> 24) & 0xf == l,
        l < 12,
        loc & (((1u32 << ((24 - 2 * l) as u32)) - 1) as u32) == 0,
        loc >> 28 == 0,
        c < 4,
    ensures
        (loc | (c << ((24 - 2 * (l + 1)) as u32))) + 0x1000000 < 0x1_0000_0000,
        ((((loc | (c << ((24 - 2 * (l + 1)) as u32))) + 0x1000000) as u32) >> 24) & 0xf == l + 1,
        (((loc | (c << ((24 - 2 * (l + 1)) as u32))) + 0x1000000) as u32) >> 28 == 0,
        (((loc | (c << ((24 - 2 * (l + 1)) as u32))) + 0x1000000) as u32) & (((1u32 << ((24
            - 2 * (l + 1)) as u32)) - 1) as u32) == 0,
        ((((loc | (c << ((24 - 2 * (l + 1)) as u32))) + 0x1000000) as u32) >> ((24 - 2 * (l
            + 1)) as u32)) & 3 == c,
{
}

proof fn lemma_write_codes(loc: u32, c: u32, l: u32, k: u32)
    by (bit_vector)
    requires
        (loc >> 24) & 0xf == l,
        l < 12,
        loc >> 28 == 0,
        c < 4,
        1 <= k <= l,
    ensures
        ((((loc | (c << ((24 - 2 * (l + 1)) as u32))) + 0x1000000) as u32) >> ((24 - 2
            * k) as u32)) & 3 == (loc >> ((24 - 2 * k) as u32)) & 3,
{
}

proof fn lemma_clear_fields(loc: u32, l: u32)
    by (bit_vector)
    requires
        (loc >> 24) & 0xf == l,
        1 <= l <= 12,
        loc & (((1u32 << ((24 - 2 * l) as u32)) - 1) as u32) == 0,
        loc >> 28 == 0,
    ensures
        loc & !(3u32 << ((24 - 2 * l) as u32)) >= 0x1000000,
        (((loc & !(3u32 << ((24 - 2 * l) as u32))) - 0x1000000) as u32 >> 24) & 0xf == l - 1,
        ((loc & !(3u32 << ((24 - 2 * l) as u32))) - 0x1000000) as u32 >> 28 == 0,
        ((loc & !(3u32 << ((24 - 2 * l) as u32))) - 0x1000000) as u32 & (((1u32 << ((24 - 2
            * (l - 1)) as u32)) - 1) as u32) == 0,
{
}

proof fn lemma_clear_codes(loc: u32, l: u32, k: u32)
    by (bit_vector)
    requires
        (loc >> 24) & 0xf == l,
        1 <= l <= 12,
        loc >> 28 == 0,
        1 <= k < l,
    ensures
        ((((loc & !(3u32 << ((24 - 2 * l) as u32))) - 0x1000000) as u32) >> ((24 - 2
            * k) as u32)) & 3 == (loc >> ((24 - 2 * k) as u32)) & 3,
{
}

proof fn lemma_overflow_step(loc: u32, o: u32, k: u32)
    by (bit_vector)
    requires
        o < 16,
        1 <= k <= 12,
    ensures
        ((loc & 0x0fffffff) | (o << 28)) >> 28 == o,
        (((loc & 0x0fffffff) | (o << 28)) >> 24) & 0xf == (loc >> 24) & 0xf,
        ((loc & 0x0fffffff) | (o << 28)) & 0xffffff == loc & 0xffffff,
        (((loc & 0x0fffffff) | (o << 28)) >> ((24 - 2 * k) as u32)) & 3 == (loc >> ((24 - 2
            * k) as u32)) & 3,
{
}

proof fn lemma_overflow_keeps_low(loc: u32, o: u32, l: u32)
    by (bit_vector)
    requires
        o < 16,
        l <= 12,
    ensures
        loc >> 28 < 16,
        ((loc & 0x0fffffff) | (o << 28)) & (((1u32 << ((24 - 2 * l) as u32)) - 1) as u32) == loc
            & (((1u32 << ((24 - 2 * l) as u32)) - 1) as u32),
{
}

/// Spreads the low 12 bits of `v` onto the even bit positions.
pub open spec fn spread(v: u32) -> u32 {
    (v & 0x1) | ((v & 0x2) << 1) | ((v & 0x4) << 2) | ((v & 0x8) << 3) | ((v & 0x10) << 4) | ((v
        & 0x20) << 5) | ((v & 0x40) << 6) | ((v & 0x80) << 7) | ((v & 0x100) << 8) | ((v & 0x200)
        << 9) | ((v & 0x400) << 10) | ((v & 0x800) << 11)
}

/// Gathers the even bit positions of `c` into the low 12 bits.
pub open spec fn compact(c: u32) -> u32 {
    (c & 0x1) | ((c >> 1) & 0x2) | ((c >> 2) & 0x4) | ((c >> 3) & 0x8) | ((c >> 4) & 0x10) | ((c
        >> 5) & 0x20) | ((c >> 6) & 0x40) | ((c >> 7) & 0x80) | ((c >> 8) & 0x100) | ((c >> 9)
        & 0x200) | ((c >> 10) & 0x400) | ((c >> 11) & 0x800)
}

/// The column of a raw address among the `2^level` columns of its level,
/// counted from the smallest x.
pub open spec fn x_index(loc: u32) -> u32 {
    compact(coord_of(loc) >> shift_of(level_of(loc)))
}

/// The row of a raw address among the `2^level` rows of its level,
/// counted from the smallest y.
pub open spec fn y_index(loc: u32) -> u32 {
    compact(coord_of(loc) >> ((shift_of(level_of(loc)) + 1) as u32))
}

/// The overflow-free raw address of the cell in column `x` and row `y` at `level`.
pub open spec fn cell_loc(level: u32, x: u32, y: u32) -> u32 {
    (level << 24) | ((spread(x) | (spread(y) << 1)) << shift_of(level))
}

/// The step in x of compass direction `d`: east, north-east, north,
/// north-west, west, south-west, south, south-east.
pub open spec fn dir_dx(d: int) -> int {
    if d == 0 || d == 1 || d == 7 {
        1
    } else if d == 3 || d == 4 || d == 5 {
        -1
    } else {
        0
    }
}

/// The step in y of compass direction `d` (see `dir_dx`).
pub open spec fn dir_dy(d: int) -> int {
    if d == 1 || d == 2 || d == 3 {
        1
    } else if d == 5 || d == 6 || d == 7 {
        -1
    } else {
        0
    }
}

/// The number of columns, and of rows, at `level`: 2 to the power `level`.
pub open spec fn side(level: u32) -> int {
    (1u32 << level) as int
}

/// The raw address of the neighbour of equal level in direction `d`, or
/// `None` where it would lie outside the domain.
pub open spec fn neighbor_loc(loc: u32, d: int) -> Option<u32> {
    let l = level_of(loc);
    let x = x_index(loc) + dir_dx(d);
    let y = y_index(loc) + dir_dy(d);
    if 0 <= x < side(l) && 0 <= y < side(l) {
        Some(cell_loc(l, x as u32, y as u32))
    } else {
        None
    }
}

proof fn lemma_cell_split(loc: u32, l: u32)
    by (bit_vector)
    requires
        (loc >> 24) & 0xf == l,
        l <= 12,
        loc & (((1u32 << ((24 - 2 * l) as u32)) - 1) as u32) == 0,
    ensures
        (loc & 0xffffff) == (spread(compact((loc & 0xffffff) >> ((24 - 2 * l) as u32))) | (spread(
            compact((loc & 0xffffff) >> ((24 - 2 * l + 1) as u32)),
        ) << 1)) << ((24 - 2 * l) as u32),
        compact((loc & 0xffffff) >> ((24 - 2 * l) as u32)) < (1u32 << l),
        compact((loc & 0xffffff) >> ((24 - 2 * l + 1) as u32)) < (1u32 << l),
        loc >> 28 == 0 ==> loc == (l << 24) | (loc & 0xffffff),
        (1u32 << l) <= 4096,
{
}

proof fn lemma_cell_fields(l: u32, x: u32, y: u32)
    by (bit_vector)
    requires
        l <= 12,
        x < (1u32 << l),
        y < (1u32 << l),
    ensures
        ((spread(x) | (spread(y) << 1)) << ((24 - 2 * l) as u32)) <= 0xffffff,
        ((spread(x) | (spread(y) << 1)) << ((24 - 2 * l) as u32)) & (((1u32 << ((24 - 2
            * l) as u32)) - 1) as u32) == 0,
        compact(((spread(x) | (spread(y) << 1)) << ((24 - 2 * l) as u32)) >> ((24 - 2
            * l) as u32)) == x,
        compact(((spread(x) | (spread(y) << 1)) << ((24 - 2 * l) as u32)) >> ((24 - 2 * l
            + 1) as u32)) == y,
{
}

proof fn lemma_cell_loc_fields(l: u32, c: u32)
    by (bit_vector)
    requires
        l <= 12,
        c <= 0xffffff,
        c & (((1u32 << ((24 - 2 * l) as u32)) - 1) as u32) == 0,
    ensures
        ((l << 24) | c) == (l << 24) + c,
        (((l << 24) | c) >> 24) & 0xf == l,
        ((l << 24) | c) >> 28 == 0,
        ((l << 24) | c) & 0xffffff == c,
        ((l << 24) | c) & (((1u32 << ((24 - 2 * l) as u32)) - 1) as u32) == 0,
{
}

proof fn lemma_x_step(x: u32, y: u32, l: u32, inc: u32, dd: u32)
    by (bit_vector)
    requires
        l <= 12,
        x < (1u32 << l),
        y < (1u32 << l),
        inc & 0x555555 == spread(dd),
        dd == 0 || dd == 1 || dd == 0xfff,
    ensures
        dd == 1 && x + 1 < (1u32 << l) ==> (((((spread(x) | (spread(y) << 1)) << ((24 - 2
            * l) as u32)) | 0xaaaaaa) + ((inc << ((24 - 2 * l) as u32)) & 0x555555)) as u32)
            & 0x555555 == spread((x + 1) as u32) << ((24 - 2 * l) as u32),
        dd == 0xfff && x >= 1 ==> (((((spread(x) | (spread(y) << 1)) << ((24 - 2 * l) as u32))
            | 0xaaaaaa) + ((inc << ((24 - 2 * l) as u32)) & 0x555555)) as u32) & 0x555555
            == spread((x - 1) as u32) << ((24 - 2 * l) as u32),
        dd == 0 ==> (((((spread(x) | (spread(y) << 1)) << ((24 - 2 * l) as u32)) | 0xaaaaaa)
            + ((inc << ((24 - 2 * l) as u32)) & 0x555555)) as u32) & 0x555555 == spread(x) << ((24
            - 2 * l) as u32),
{
}

proof fn lemma_or_shift(a: u32, b: u32, s: u32)
    by (bit_vector)
    ensures
        (a << s) | (b << s) == (a | b) << s,
{
}

/// The step in x of direction `d` as a 12-bit two's-complement number.
pub open spec fn step_bits(delta: int) -> u32 {
    if delta == 1 {
        1
    } else if delta == -1 {
        0xfff
    } else {
        0
    }
}

/// The raw address held in an optional node.
pub open spec fn opt_loc(o: Option<LinearQuadTreeNode>) -> Option<u32> {
    match o {
        Some(n) => Some(n@),
        None => None,
    }
}

/// The increment that moves a deepest-level coordinate one cell in
/// direction `d`: its x bits hold the step in x, its y bits the step in y,
/// each as a dilated two's-complement number.
fn direction_increment(d: u32) -> (r: u32)
    requires
        d < 8,
    ensures
        r & 0x555555 == spread(step_bits(dir_dx(d as int))),
        r & 0xaaaaaa == spread(step_bits(dir_dy(d as int))) << 1,
{
    assert(0x000001u32 & 0x555555 == spread(1) && 0x000001u32 & 0xaaaaaa == spread(0) << 1
        && 0x000003u32 & 0x555555 == spread(1) && 0x000003u32 & 0xaaaaaa == spread(1) << 1
        && 0x000002u32 & 0x555555 == spread(0) && 0x000002u32 & 0xaaaaaa == spread(1) << 1
        && 0x555557u32 & 0x555555 == spread(0xfff) && 0x555557u32 & 0xaaaaaa == spread(1) << 1
        && 0x555555u32 & 0x555555 == spread(0xfff) && 0x555555u32 & 0xaaaaaa == spread(0) << 1
        && 0xffffffu32 & 0x555555 == spread(0xfff) && 0xffffffu32 & 0xaaaaaa == spread(0xfff)
        << 1 && 0xaaaaaau32 & 0x555555 == spread(0) && 0xaaaaaau32 & 0xaaaaaa == spread(0xfff)
        << 1 && 0xaaaaabu32 & 0x555555 == spread(1) && 0xaaaaabu32 & 0xaaaaaa == spread(0xfff)
        << 1) by (bit_vector);
    if d == 0 {
        0x000001  // east

    } else if d == 1 {
        0x000003  // north-east

    } else if d == 2 {
        0x000002  // north

    } else if d == 3 {
        0x555557  // north-west

    } else if d == 4 {
        0x555555  // west

    } else if d == 5 {
        0xffffff  // south-west

    } else if d == 6 {
        0xaaaaaa  // south

    } else {
        0xaaaaab  // south-east

    }
}

proof fn lemma_y_step(x: u32, y: u32, l: u32, inc: u32, dd: u32)
    by (bit_vector)
    requires
        l <= 12,
        x < (1u32 << l),
        y < (1u32 << l),
        inc & 0xaaaaaa == spread(dd) << 1,
        dd == 0 || dd == 1 || dd == 0xfff,
    ensures
        dd == 1 && y + 1 < (1u32 << l) ==> (((((spread(x) | (spread(y) << 1)) << ((24 - 2
            * l) as u32)) | 0x555555) + ((inc << ((24 - 2 * l) as u32)) & 0xaaaaaa)) as u32)
            & 0xaaaaaa == (spread((y + 1) as u32) << 1) << ((24 - 2 * l) as u32),
        dd == 0xfff && y >= 1 ==> (((((spread(x) | (spread(y) << 1)) << ((24 - 2 * l) as u32))
            | 0x555555) + ((inc << ((24 - 2 * l) as u32)) & 0xaaaaaa)) as u32) & 0xaaaaaa
            == (spread((y - 1) as u32) << 1) << ((24 - 2 * l) as u32),
        dd == 0 ==> (((((spread(x) | (spread(y) << 1)) << ((24 - 2 * l) as u32)) | 0x555555)
            + ((inc << ((24 - 2 * l) as u32)) & 0xaaaaaa)) as u32) & 0xaaaaaa == (spread(y) << 1)
            << ((24 - 2 * l) as u32),
        (spread(x) << ((24 - 2 * l) as u32)) | ((spread(y) << 1) << ((24 - 2 * l) as u32))
            == (spread(x) | (spread(y) << 1)) << ((24 - 2 * l) as u32),
{
}

/// An address in a linear quadtree: the path from the root to a node,
/// packed into 32 bits.
///
/// Bits 28 to 31 hold an overflow counter, bits 24 to 27 the level, and
/// bits 0 to 23 one two-bit quadrant code per level, the first level in
/// the highest pair.
///
/// Neighbours of equal size are found in constant time by the method of
/// G. Schrack, "Finding neighbors of equal size in linear quadtrees and
/// octrees in constant time" (1991).
#[derive(Clone, Copy, Debug, PartialEq, Eq, Structural, Hash)]
pub struct LinearQuadTreeNode {
    location: u32,
}

impl View for LinearQuadTreeNode {
    type V = u32;

    closed spec fn view(&self) -> u32 {
        self.location
    }
}

impl Default for LinearQuadTreeNode {
    /// The root: level 0, empty path.
    fn default() -> (r: LinearQuadTreeNode)
        ensures
            r@ == 0,
    {
        LinearQuadTreeNode { location: 0 }
    }
}

impl LinearQuadTreeNode {
    /// The node is well formed (see `loc_wf`).
    pub open spec fn wf(self) -> bool {
        loc_wf(self@)
    }

    pub open spec fn spec_level(self) -> u32 {
        level_of(self@)
    }

    pub open spec fn spec_overflow(self) -> u32 {
        overflow_of(self@)
    }

    /// The quadrants from the root to this node, one per level.
    pub open spec fn path(self) -> Seq<Quadrant> {
        path_of(self@)
    }

    /// Creates a node from its coordinate bits and its level.
    pub fn new(coordinate: u32, level: u32) -> (r: LinearQuadTreeNode)
        requires
            coordinate <= 0xffffff,
            level <= 15,
        ensures
            r@ == (level << 24) + coordinate,
            level_of(r@) == level,
            coord_of(r@) == coordinate,
            overflow_of(r@) == 0,
    {
        assert((level << 24) + coordinate < 0x1_0000_0000) by (bit_vector)
            requires
                coordinate <= 0xffffff,
                level <= 15,
        ;
        let location = (level << 24) + coordinate;
        assert((((level << 24) + coordinate) as u32 >> 24) & 0xf == level && ((level << 24)
            + coordinate) as u32 & 0xffffff == coordinate && ((level << 24)
            + coordinate) as u32 >> 28 == 0) by (bit_vector)
            requires
                coordinate <= 0xffffff,
                level <= 15,
        ;
        LinearQuadTreeNode::from_location(location)
    }

    /// Creates a node from its raw address, `coordinate + (level << 24)`.
    pub fn from_location(location: u32) -> (r: LinearQuadTreeNode)
        ensures
            r@ == location,
    {
        LinearQuadTreeNode { location }
    }

    /// The raw address.
    pub fn location(&self) -> (r: u32)
        ensures
            r == self@,
    {
        self.location
    }

    /// The coordinate bits.
    pub fn coordinate(&self) -> (r: u32)
        ensures
            r == coord_of(self@),
    {
        self.location & 0xffffff
    }

    /// The level: 0 for the root.
    pub fn level(&self) -> (r: u32)
        ensures
            r == level_of(self@),
    {
        (self.location >> 24) & 0xf
    }

    /// The overflow counter, or `None` where it is zero.
    pub fn overflow(&self) -> (r: Option<u32>)
        ensures
            overflow_of(self@) == 0 ==> r == None::<u32>,
            overflow_of(self@) != 0 ==> r == Some(overflow_of(self@)),
    {
        let o = self.location >> 28;
        if o == 0 {
            None
        } else {
            Some(o)
        }
    }

    /// Adds one to the overflow counter, keeping level and coordinate.
    pub fn increment_overflow(&mut self)
        requires
            overflow_of(old(self)@) < 15,
            level_of(old(self)@) <= 12,
        ensures
            overflow_of(final(self)@) == overflow_of(old(self)@) + 1,
            final(self)@ & below_mask(level_of(old(self)@)) == old(self)@ & below_mask(
                level_of(old(self)@),
            ),
            level_of(final(self)@) == level_of(old(self)@),
            coord_of(final(self)@) == coord_of(old(self)@),
            path_of(final(self)@) == path_of(old(self)@),
    {
        let o = (self.location >> 28) + 1;
        let loc = self.location;
        self.location = (self.location & 0x0fffffff) | (o << 28);
        proof {
            lemma_overflow_step(loc, o, 1);
            lemma_overflow_keeps_low(loc, o, level_of(loc));
            assert forall|k: u32| 1 <= k <= 12 implies code_at(self.location, k) == code_at(
                loc,
                k,
            ) by {
                lemma_overflow_step(loc, o, k);
            }
            assert(path_of(self.location) =~= path_of(loc));
        }
    }

    /// The quadrant of the path at level `k` (counted from 1).
    pub fn quadrant_at_level(&self, k: u32) -> (r: Quadrant)
        requires
            1 <= k <= level_of(self@),
            level_of(self@) <= 12,
        ensures
            r == self.path()[k - 1],
            r.code() == code_at(self@, k),
    {
        proof {
            lemma_code_small(self.location, shift_of(k));
        }
        Quadrant::from_bits((self.location >> (24 - 2 * k)) & 3)
    }

    /// The path from the root to this node.
    pub fn coordinate_in_quadrants(&self) -> (r: Vec<Quadrant>)
        requires
            level_of(self@) <= 12,
        ensures
            r@ == self.path(),
    {
        let mut ret: Vec<Quadrant> = Vec::new();
        let level = self.level();
        let mut i: u32 = 0;
        while i < level
            invariant
                level == level_of(self@),
                level <= 12,
                i <= level,
                ret@ == self.path().subrange(0, i as int),
            decreases level - i,
        {
            let q = self.quadrant_at_level(i + 1);
            ret.push(q);
            i = i + 1;
            assert(ret@ =~= self.path().subrange(0, i as int));
        }
        assert(ret@ =~= self.path());
        ret
    }

    /// Appends `quadrant` to the path: the node becomes its own child.
    pub fn write_level(&mut self, quadrant: Quadrant)
        requires
            old(self).wf(),
            level_of(old(self)@) < RESOLUTION,
        ensures
            final(self).wf(),
            final(self)@ == child_loc(old(self)@, quadrant.code()),
            overflow_of(final(self)@) == 0,
            final(self).path() == old(self).path().push(quadrant),
    {
        let l = self.level();
        let c = quadrant.to_code();
        let loc = self.location;
        proof {
            lemma_write_fields(loc, c, l);
            lemma_code_round_trip(quadrant);
        }
        self.location = (self.location | (c << (24 - 2 * (l + 1)))) + 0x1000000;
        proof {
            assert forall|k: u32| 1 <= k <= l implies code_at(self.location, k) == code_at(
                loc,
                k,
            ) by {
                lemma_write_codes(loc, c, l, k);
            }
            assert(self.path() =~= path_of(loc).push(quadrant));
        }
    }

    /// Drops the last quadrant of the path; the root stays the root.
    pub fn remove_level(&mut self)
        requires
            old(self).wf(),
            overflow_of(old(self)@) == 0,
        ensures
            final(self).wf(),
            overflow_of(final(self)@) == 0,
            level_of(old(self)@) == 0 ==> final(self)@ == old(self)@,
            level_of(old(self)@) > 0 ==> final(self)@ == parent_loc(old(self)@),
            level_of(old(self)@) > 0 ==> final(self).path() == old(self).path().drop_last(),
            level_of(old(self)@) > 0 ==> level_of(final(self)@) + 1 == level_of(old(self)@),
    {
        let l = self.level();
        if l > 0 {
            let loc = self.location;
            proof {
                lemma_clear_fields(loc, l);
            }
            self.location = (self.location & !(3u32 << (24 - 2 * l))) - 0x1000000;
            proof {
                assert forall|k: u32| 1 <= k < l implies code_at(self.location, k) == code_at(
                    loc,
                    k,
                ) by {
                    lemma_clear_codes(loc, l, k);
                }
                assert(self.path() =~= path_of(loc).drop_last());
            }
        }
    }

    /// The node one level deeper in `quadrant`. At the deepest level the
    /// overflow counter is raised instead; when it is exhausted the result
    /// is `DepthError`.
    pub fn child(&self, quadrant: Quadrant) -> (r: Result<LinearQuadTreeNode, QuadtreeError>)
        requires
            self.wf(),
        ensures
            level_of(self@) < RESOLUTION ==> r.is_ok() && r.unwrap()@ == child_loc(
                self@,
                quadrant.code(),
            ),
            level_of(self@) < RESOLUTION ==> r.unwrap().path() == self.path().push(quadrant),
            level_of(self@) == RESOLUTION && overflow_of(self@) == 15 ==> r == Err::<
                LinearQuadTreeNode,
                QuadtreeError,
            >(QuadtreeError::DepthError),
            level_of(self@) == RESOLUTION && overflow_of(self@) < 15 ==> r.is_ok() && r.unwrap().path()
                == self.path() && overflow_of(r.unwrap()@) == overflow_of(self@) + 1,
            r.is_ok() ==> r.unwrap().wf(),
    {
        let mut ret = *self;
        proof {
            lemma_overflow_keeps_low(self.location, 0, 0);
        }
        if self.level() == RESOLUTION {
            if self.location >> 28 == 15 {
                return Err(QuadtreeError::DepthError);
            }
            ret.increment_overflow();
            Ok(ret)
        } else {
            ret.write_level(quadrant);
            Ok(ret)
        }
    }

    /// The node one level shallower. Where the overflow counter is raised,
    /// it is lowered instead, so that `parent` undoes `child`. The root is
    /// its own parent.
    pub fn parent(&self) -> (r: LinearQuadTreeNode)
        requires
            self.wf(),
        ensures
            r.wf(),
            overflow_of(self@) == 0 && level_of(self@) == 0 ==> r == *self,
            overflow_of(self@) == 0 && level_of(self@) > 0 ==> r@ == parent_loc(self@),
            overflow_of(self@) == 0 && level_of(self@) > 0 ==> r.path() == self.path().drop_last(),
            overflow_of(self@) == 0 ==> overflow_of(r@) == 0,
            overflow_of(self@) == 0 && level_of(self@) > 0 ==> level_of(r@) + 1 == level_of(self@),
            overflow_of(self@) != 0 ==> r.path() == self.path() && overflow_of(r@) + 1
                == overflow_of(self@),
    {
        let mut ret = *self;
        if self.location >> 28 != 0 {
            let loc = self.location;
            proof {
                lemma_overflow_keeps_low(loc, 0, 0);
            }
            let o = (loc >> 28) - 1;
            proof {
                lemma_overflow_keeps_low(loc, o, 12);
                lemma_overflow_step(loc, o, 1);
                assert forall|k: u32| 1 <= k <= 12 implies code_at(
                    ((loc & 0x0fffffff) | (o << 28)),
                    k,
                ) == code_at(loc, k) by {
                    lemma_overflow_step(loc, o, k);
                }
                assert(path_of(((loc & 0x0fffffff) | (o << 28))) =~= path_of(loc));
            }
            ret.location = (loc & 0x0fffffff) | (o << 28);
        } else {
            ret.remove_level();
        }
        ret
    }

    /// The neighbour of equal level in direction `d` (east, north-east,
    /// north, north-west, west, south-west, south, south-east), or `None`
    /// where it would lie outside the domain.
    ///
    /// The x bits and the y bits of the coordinate are stepped separately:
    /// the bits of the other axis are set to one before the addition so
    /// that carries pass over them, and masked off after it.
    fn neighbor_in(&self, d: u32) -> (r: Option<LinearQuadTreeNode>)
        requires
            self.wf(),
            d < 8,
        ensures
            opt_loc(r) == neighbor_loc(self@, d as int),
    {
        let loc = self.location;
        let ni = loc & 0xffffff;
        assert(loc & 0xffffff <= 0xffffff) by (bit_vector);
        let l = self.level();
        let s = 24 - 2 * l;
        let cx = ni >> s;
        let cy = ni >> (s + 1);
        let x = (cx & 0x1) | ((cx >> 1) & 0x2) | ((cx >> 2) & 0x4) | ((cx >> 3) & 0x8) | ((cx >> 4)
            & 0x10) | ((cx >> 5) & 0x20) | ((cx >> 6) & 0x40) | ((cx >> 7) & 0x80) | ((cx >> 8)
            & 0x100) | ((cx >> 9) & 0x200) | ((cx >> 10) & 0x400) | ((cx >> 11) & 0x800);
        let y = (cy & 0x1) | ((cy >> 1) & 0x2) | ((cy >> 2) & 0x4) | ((cy >> 3) & 0x8) | ((cy >> 4)
            & 0x10) | ((cy >> 5) & 0x20) | ((cy >> 6) & 0x40) | ((cy >> 7) & 0x80) | ((cy >> 8)
            & 0x100) | ((cy >> 9) & 0x200) | ((cy >> 10) & 0x400) | ((cy >> 11) & 0x800);
        proof {
            lemma_cell_split(self.location, l);
        }
        let side: u32 = 1u32 << l;
        let x_ok = if d == 0 || d == 1 || d == 7 {
            x + 1 < side
        } else if d == 3 || d == 4 || d == 5 {
            x >= 1
        } else {
            true
        };
        let y_ok = if d == 1 || d == 2 || d == 3 {
            y + 1 < side
        } else if d == 5 || d == 6 || d == 7 {
            y >= 1
        } else {
            true
        };
        if !(x_ok && y_ok) {
            return None;
        }
        let inc = direction_increment(d);
        let delta = inc << s;
        assert((ni | 0xaaaaaa) + (delta & 0x555555) < 0x1_0000_0000 && (ni | 0x555555) + (delta
            & 0xaaaaaa) < 0x1_0000_0000) by (bit_vector)
            requires
                ni <= 0xffffff,
        ;
        let mx = ((ni | 0xaaaaaa) + (delta & 0x555555)) & 0x555555;
        let my = ((ni | 0x555555) + (delta & 0xaaaaaa)) & 0xaaaaaa;
        let ghost nx = (x + dir_dx(d as int)) as u32;
        let ghost ny = (y + dir_dy(d as int)) as u32;
        proof {
            lemma_x_step(x, y, l, inc, step_bits(dir_dx(d as int)));
            lemma_y_step(x, y, l, inc, step_bits(dir_dy(d as int)));
            lemma_or_shift(spread(nx), spread(ny) << 1, s);
            lemma_cell_fields(l, nx, ny);
            lemma_cell_loc_fields(l, mx | my);
        }
        Some(LinearQuadTreeNode::new(mx | my, l))
    }

    /// The eight neighbours of equal level, in the order east, north-east,
    /// north, north-west, west, south-west, south, south-east. A neighbour
    /// is `None` where it would lie outside the domain. The neighbours are
    /// computed from the address alone: they need not be present in a tree.
    pub fn compute_neighbors(&self) -> (r: [Option<LinearQuadTreeNode>; 8])
        requires
            self.wf(),
        ensures
            forall|d: int| 0 <= d < 8 ==> opt_loc(#[trigger] r@[d]) == neighbor_loc(self@, d),
    {
        let r = [
            self.neighbor_in(0),
            self.neighbor_in(1),
            self.neighbor_in(2),
            self.neighbor_in(3),
            self.neighbor_in(4),
            self.neighbor_in(5),
            self.neighbor_in(6),
            self.neighbor_in(7),
        ];
        assert forall|d: int| 0 <= d < 8 implies opt_loc(#[trigger] r@[d]) == neighbor_loc(
            self@,
            d,
        ) by {
            if d == 0 {
            } else if d == 1 {
            } else if d == 2 {
            } else if d == 3 {
            } else if d == 4 {
            } else if d == 5 {
            } else if d == 6 {
            } else {
            }
        }
        r
    }
}

/// A neighbour is a well-formed address without overflow.
pub proof fn lemma_neighbor_wf(a: u32, d: int)
    requires
        loc_wf(a),
        0 <= d < 8,
        neighbor_loc(a, d) is Some,
    ensures
        loc_wf(neighbor_loc(a, d).unwrap()),
        overflow_of(neighbor_loc(a, d).unwrap()) == 0,
        level_of(neighbor_loc(a, d).unwrap()) == level_of(a),
{
    let l = level_of(a);
    lemma_cell_split(a, l);
    let nx = (x_index(a) + dir_dx(d)) as u32;
    let ny = (y_index(a) + dir_dy(d)) as u32;
    lemma_cell_fields(l, nx, ny);
    lemma_cell_loc_fields(l, (spread(nx) | (spread(ny) << 1)) << shift_of(l));
}

/// Neighbours are symmetric: where `b` is the neighbour of `a` in some
/// direction, `b` has the level of `a`, and `a` is the neighbour of `b` in
/// the opposite direction (east and west, north and south, and so on).
pub proof fn lemma_neighbor_symmetry(a: LinearQuadTreeNode, d: int)
    requires
        a.wf(),
        overflow_of(a@) == 0,
        0 <= d < 8,
        neighbor_loc(a@, d) is Some,
    ensures
        level_of(neighbor_loc(a@, d).unwrap()) == level_of(a@),
        neighbor_loc(neighbor_loc(a@, d).unwrap(), (d + 4) % 8) == Some(a@),
{
    let l = level_of(a@);
    lemma_cell_split(a@, l);
    let x = x_index(a@);
    let y = y_index(a@);
    let nx = (x + dir_dx(d)) as u32;
    let ny = (y + dir_dy(d)) as u32;
    lemma_cell_fields(l, nx, ny);
    let c = (spread(nx) | (spread(ny) << 1)) << shift_of(l);
    lemma_cell_loc_fields(l, c);
    let b = neighbor_loc(a@, d).unwrap();
    assert(b == cell_loc(l, nx, ny));
    assert(x_index(b) == nx);
    assert(y_index(b) == ny);
    assert(dir_dx((d + 4) % 8) == -dir_dx(d));
    assert(dir_dy((d + 4) % 8) == -dir_dy(d));
}

} // verus!
