use vstd::prelude::*;

use crate::node::{
    child_loc, code_at, level_of, loc_wf, overflow_of, parent_loc, shift_of, spread,
};

verus! {

/// A point of the domain, given by its cell on the grid of the deepest
/// level: `x` counts columns from the smallest x, `y` rows from the
/// smallest y, each below 4096.
#[derive(Clone, Copy, Debug, PartialEq, Eq, Structural, Hash)]
pub struct GridPoint {
    pub x: u32,
    pub y: u32,
}

/// Number of columns, and of rows, of the deepest grid.
pub const GRID_SIDE: u32 = 4096;

/// The point lies in the domain.
pub open spec fn in_grid(p: GridPoint) -> bool {
    p.x < GRID_SIDE && p.y < GRID_SIDE
}

/// The deepest coordinate of a point: its x bits on the even positions,
/// its y bits on the odd ones.
pub open spec fn morton(p: GridPoint) -> u32 {
    spread(p.x) | (spread(p.y) << 1)
}

/// The address at level `k` on the path of the deepest coordinate `m`.
pub open spec fn key_at(m: u32, k: u32) -> u32 {
    (k << 24) | ((m >> shift_of(k)) << shift_of(k))
}

/// Computes the deepest coordinate of a point.
pub fn morton_of(p: GridPoint) -> (r: u32)
    requires
        in_grid(p),
    ensures
        r == morton(p),
        r <= 0xffffff,
{
    let x = p.x;
    let y = p.y;
    proof {
        lemma_morton_bounds(x, y);
    }
    let sx = (x & 0x1) | ((x & 0x2) << 1) | ((x & 0x4) << 2) | ((x & 0x8) << 3) | ((x & 0x10) << 4)
        | ((x & 0x20) << 5) | ((x & 0x40) << 6) | ((x & 0x80) << 7) | ((x & 0x100) << 8) | ((x
        & 0x200) << 9) | ((x & 0x400) << 10) | ((x & 0x800) << 11);
    let sy = (y & 0x1) | ((y & 0x2) << 1) | ((y & 0x4) << 2) | ((y & 0x8) << 3) | ((y & 0x10) << 4)
        | ((y & 0x20) << 5) | ((y & 0x40) << 6) | ((y & 0x80) << 7) | ((y & 0x100) << 8) | ((y
        & 0x200) << 9) | ((y & 0x400) << 10) | ((y & 0x800) << 11);
    sx | (sy << 1)
}

proof fn lemma_morton_bounds(x: u32, y: u32)
    by (bit_vector)
    requires
        x < 4096,
        y < 4096,
    ensures
        spread(x) | (spread(y) << 1) <= 0xffffff,
{
}

proof fn lemma_morton_injective_bits(x1: u32, y1: u32, x2: u32, y2: u32)
    by (bit_vector)
    requires
        x1 < 4096,
        y1 < 4096,
        x2 < 4096,
        y2 < 4096,
        spread(x1) | (spread(y1) << 1) == spread(x2) | (spread(y2) << 1),
    ensures
        x1 == x2,
        y1 == y2,
{
}

/// The deepest coordinate of a point of the domain fits in 24 bits.
pub proof fn lemma_morton_range(p: GridPoint)
    requires
        in_grid(p),
    ensures
        morton(p) <= 0xffffff,
{
    lemma_morton_bounds(p.x, p.y);
}

/// Distinct points of the domain have distinct deepest coordinates.
pub proof fn lemma_morton_injective(p: GridPoint, q: GridPoint)
    requires
        in_grid(p),
        in_grid(q),
        morton(p) == morton(q),
    ensures
        p == q,
{
    lemma_morton_injective_bits(p.x, p.y, q.x, q.y);
}

proof fn lemma_key_fields_bits(m: u32, k: u32)
    by (bit_vector)
    requires
        m <= 0xffffff,
        k <= 12,
    ensures
        (((k << 24) | ((m >> ((24 - 2 * k) as u32)) << ((24 - 2 * k) as u32))) >> 24) & 0xf == k,
        ((k << 24) | ((m >> ((24 - 2 * k) as u32)) << ((24 - 2 * k) as u32))) >> 28 == 0,
        ((k << 24) | ((m >> ((24 - 2 * k) as u32)) << ((24 - 2 * k) as u32))) & (((1u32 << ((24
            - 2 * k) as u32)) - 1) as u32) == 0,
        1 <= k ==> (((k << 24) | ((m >> ((24 - 2 * k) as u32)) << ((24 - 2 * k) as u32))) >> ((24
            - 2 * k) as u32)) & 3 == (m >> ((24 - 2 * k) as u32)) & 3,
        k == 0 ==> ((k << 24) | ((m >> ((24 - 2 * k) as u32)) << ((24 - 2 * k) as u32))) == 0,
        (m >> ((24 - 2 * k) as u32)) & 3 < 4,
        ((m >> ((24 - 2 * k) as u32)) & 3) & 3 == (m >> ((24 - 2 * k) as u32)) & 3,
{
}

/// An address on a path is well formed, at its level, without overflow,
/// and holds the path's code for its own level.
pub proof fn lemma_key_fields(m: u32, k: u32)
    requires
        m <= 0xffffff,
        k <= 12,
    ensures
        level_of(key_at(m, k)) == k,
        overflow_of(key_at(m, k)) == 0,
        loc_wf(key_at(m, k)),
        1 <= k ==> code_at(key_at(m, k), k) == code_at(m, k),
        k == 0 ==> key_at(m, k) == 0,
        code_at(m, k) < 4,
        code_at(m, k) & 3 == code_at(m, k),
{
    lemma_key_fields_bits(m, k);
}

proof fn lemma_key_prefix_bits(m1: u32, m2: u32, j: u32, k: u32)
    by (bit_vector)
    requires
        m1 <= 0xffffff,
        m2 <= 0xffffff,
        j <= k,
        k <= 12,
        (k << 24) | ((m1 >> ((24 - 2 * k) as u32)) << ((24 - 2 * k) as u32)) == (k << 24) | ((m2
            >> ((24 - 2 * k) as u32)) << ((24 - 2 * k) as u32)),
    ensures
        (j << 24) | ((m1 >> ((24 - 2 * j) as u32)) << ((24 - 2 * j) as u32)) == (j << 24) | ((m2
            >> ((24 - 2 * j) as u32)) << ((24 - 2 * j) as u32)),
        1 <= k ==> (m1 >> ((24 - 2 * k) as u32)) & 3 == (m2 >> ((24 - 2 * k) as u32)) & 3,
{
}

/// Two paths that meet at some level agree at every shallower level.
pub proof fn lemma_key_prefix(m1: u32, m2: u32, j: u32, k: u32)
    requires
        m1 <= 0xffffff,
        m2 <= 0xffffff,
        j <= k <= 12,
        key_at(m1, k) == key_at(m2, k),
    ensures
        key_at(m1, j) == key_at(m2, j),
        1 <= k ==> code_at(m1, k) == code_at(m2, k),
{
    lemma_key_prefix_bits(m1, m2, j, k);
}

proof fn lemma_key_step_bits(m: u32, k: u32)
    by (bit_vector)
    requires
        m <= 0xffffff,
        k < 12,
    ensures
        (((((k << 24) | ((m >> ((24 - 2 * k) as u32)) << ((24 - 2 * k) as u32))) | (((m >> ((24
            - 2 * (k + 1)) as u32)) & 3) << ((24 - 2 * (k + 1)) as u32))) + 0x1000000) as u32)
            == (((k + 1) as u32) << 24) | ((m >> ((24 - 2 * (k + 1)) as u32)) << ((24 - 2 * (k
            + 1)) as u32)),
        ((((((k + 1) as u32) << 24) | ((m >> ((24 - 2 * (k + 1)) as u32)) << ((24 - 2 * (k
            + 1)) as u32))) & !(3u32 << ((24 - 2 * (k + 1)) as u32))) - 0x1000000) as u32 == (k
            << 24) | ((m >> ((24 - 2 * k) as u32)) << ((24 - 2 * k) as u32)),
{
}

/// One step along a path: the child of the address at level `k` in the
/// path's next quadrant is the address at level `k + 1`, and the parent of
/// that is the address at level `k`.
pub proof fn lemma_key_step(m: u32, k: u32)
    requires
        m <= 0xffffff,
        k < 12,
    ensures
        child_loc(key_at(m, k), code_at(m, (k + 1) as u32)) == key_at(m, (k + 1) as u32),
        parent_loc(key_at(m, (k + 1) as u32)) == key_at(m, k),
{
    lemma_key_step_bits(m, k);
    lemma_key_fields(m, k);
    lemma_key_fields(m, (k + 1) as u32);
}

proof fn lemma_key_deepest_bits(m1: u32, m2: u32)
    by (bit_vector)
    requires
        m1 <= 0xffffff,
        m2 <= 0xffffff,
        (12u32 << 24) | ((m1 >> 0u32) << 0u32) == (12u32 << 24) | ((m2 >> 0u32) << 0u32),
    ensures
        m1 == m2,
{
}

/// Paths that meet at the deepest level are the same path.
pub proof fn lemma_key_deepest(m1: u32, m2: u32)
    requires
        m1 <= 0xffffff,
        m2 <= 0xffffff,
        key_at(m1, 12) == key_at(m2, 12),
    ensures
        m1 == m2,
{
    lemma_key_deepest_bits(m1, m2);
}

proof fn lemma_children_bits(a: u32, c1: u32, c2: u32, k: u32)
    by (bit_vector)
    requires
        (a >> 24) & 0xf == k,
        k < 12,
        a >> 28 == 0,
        a & (((1u32 << ((24 - 2 * k) as u32)) - 1) as u32) == 0,
        c1 < 4,
        c2 < 4,
        (((a | (c1 << ((24 - 2 * (k + 1)) as u32))) + 0x1000000) as u32) == (((a | (c2 << ((24
            - 2 * (k + 1)) as u32))) + 0x1000000) as u32),
    ensures
        c1 == c2,
{
}

/// The children of an address in distinct quadrants are distinct.
pub proof fn lemma_children_distinct(a: u32, c1: u32, c2: u32)
    requires
        loc_wf(a),
        overflow_of(a) == 0,
        level_of(a) < 12,
        c1 < 4,
        c2 < 4,
        child_loc(a, c1) == child_loc(a, c2),
    ensures
        c1 == c2,
{
    lemma_children_bits(a, c1, c2, level_of(a));
}

proof fn lemma_parent_of_child_bits(a: u32, c: u32, k: u32)
    by (bit_vector)
    requires
        (a >> 24) & 0xf == k,
        k < 12,
        a >> 28 == 0,
        a & (((1u32 << ((24 - 2 * k) as u32)) - 1) as u32) == 0,
        c < 4,
    ensures
        ((((((a | (c << ((24 - 2 * (k + 1)) as u32))) + 0x1000000) as u32) & !(3u32 << ((24 - 2
            * (k + 1)) as u32))) - 0x1000000) as u32) == a,
{
}

/// The parent of a child is the address it was taken from.
pub proof fn lemma_parent_of_child(a: u32, c: u32)
    requires
        loc_wf(a),
        overflow_of(a) == 0,
        level_of(a) < 12,
        c < 4,
    ensures
        parent_loc(child_loc(a, c)) == a,
        level_of(child_loc(a, c)) == level_of(a) + 1,
{
    lemma_parent_of_child_bits(a, c, level_of(a));
    lemma_child_level_bits(a, c, level_of(a));
}

proof fn lemma_child_level_bits(a: u32, c: u32, k: u32)
    by (bit_vector)
    requires
        (a >> 24) & 0xf == k,
        k < 12,
        a >> 28 == 0,
        c < 4,
    ensures
        (((((a | (c << ((24 - 2 * (k + 1)) as u32))) + 0x1000000) as u32) >> 24) & 0xf) == k + 1,
{
}

} // verus!
