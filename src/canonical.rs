use vstd::prelude::*;

use crate::node::{child_loc, code_at, level_of, parent_loc};
use crate::path::{
    in_grid, key_at, lemma_key_deepest, lemma_morton_injective, lemma_children_distinct, lemma_key_fields, lemma_key_prefix, lemma_key_step,
    lemma_morton_range, lemma_parent_of_child, morton, GridPoint,
};
use crate::store::{key_form, QuadtreeEntry};

verus! {

/// The path of the point of handle `h` passes through address `a`.
pub open spec fn on_path(pts: Map<u64, GridPoint>, h: u64, a: u32) -> bool {
    pts.contains_key(h) && key_at(morton(pts[h]), level_of(a)) == a
}

/// Some point passes through `a`.
pub open spec fn occupied(pts: Map<u64, GridPoint>, a: u32) -> bool {
    exists|h: u64| on_path(pts, h, a)
}

/// Two or more points pass through `a`.
pub open spec fn shared(pts: Map<u64, GridPoint>, a: u32) -> bool {
    exists|h1: u64, h2: u64| h1 != h2 && on_path(pts, h1, a) && on_path(pts, h2, a)
}

/// Address `a` holds an entry in the tree of the points `pts`: some point
/// passes through it, and it is at level 1 or its parent is shared.
pub open spec fn placed(pts: Map<u64, GridPoint>, a: u32) -> bool {
    &&& 1 <= level_of(a) <= 12
    &&& occupied(pts, a)
    &&& level_of(a) == 1 || shared(pts, parent_loc(a))
}

/// The points lie in the domain, their handles are live keys, and no two
/// handles hold the same point.
pub open spec fn points_valid(pts: Map<u64, GridPoint>) -> bool {
    &&& forall|h: u64| #[trigger] pts.contains_key(h) ==> in_grid(pts[h]) && key_form(h)
    &&& forall|h1: u64, h2: u64|
        pts.contains_key(h1) && pts.contains_key(h2) && h1 != h2 ==> pts[h1] != pts[h2]
}

/// Some handle holds point `p`.
pub open spec fn holds_point(pts: Map<u64, GridPoint>, p: GridPoint) -> bool {
    exists|h: u64| pts.contains_key(h) && pts[h] == p
}

/// `sp` is the spatial map of the points `pts`: an address holds an entry
/// exactly where it is placed; the entry is a branch exactly where two or
/// more points pass through; a leaf holds the one point that does.
#[verifier::opaque]
pub open spec fn canonical(pts: Map<u64, GridPoint>, sp: Map<u32, QuadtreeEntry>) -> bool {
    &&& forall|a: u32| #[trigger] sp.contains_key(a) <==> placed(pts, a)
    &&& forall|a: u32| #[trigger]
        sp.contains_key(a) ==> (sp[a] is Branch <==> shared(pts, a))
    &&& forall|a: u32| #[trigger]
        sp.contains_key(a) && sp[a] is Leaf ==> on_path(pts, sp[a]->handle, a) && sp[a]->point
            == pts[sp[a]->handle]
}



/// What the spatial map of a set of points holds at a present address.
pub(crate) proof fn lemma_canonical_at(pts: Map<u64, GridPoint>, sp: Map<u32, QuadtreeEntry>, a: u32)
    requires
        canonical(pts, sp),
    ensures
        sp.contains_key(a) <==> placed(pts, a),
        sp.contains_key(a) ==> (sp[a] is Branch <==> shared(pts, a)),
        sp.contains_key(a) && sp[a] is Leaf ==> on_path(pts, sp[a]->handle, a) && sp[a]->point
            == pts[sp[a]->handle],
{
    reveal(canonical);
}

/// A point whose path passes through an address passes through each of
/// its ancestors.
pub(crate) proof fn lemma_on_path_up(pts: Map<u64, GridPoint>, h: u64, m: u32, j: u32, k: u32)
    requires
        points_valid(pts),
        m <= 0xffffff,
        j <= k <= 12,
        on_path(pts, h, key_at(m, k)),
    ensures
        on_path(pts, h, key_at(m, j)),
{
    lemma_key_fields(m, k);
    lemma_key_fields(m, j);
    lemma_morton_range(pts[h]);
    lemma_key_prefix(morton(pts[h]), m, j, k);
}

/// The ancestors of a shared address are shared.
pub(crate) proof fn lemma_shared_up(pts: Map<u64, GridPoint>, m: u32, j: u32, k: u32)
    requires
        points_valid(pts),
        m <= 0xffffff,
        j <= k <= 12,
        shared(pts, key_at(m, k)),
    ensures
        shared(pts, key_at(m, j)),
{
    let (h1, h2) = choose|h1: u64, h2: u64|
        h1 != h2 && on_path(pts, h1, key_at(m, k)) && on_path(pts, h2, key_at(m, k));
    lemma_on_path_up(pts, h1, m, j, k);
    lemma_on_path_up(pts, h2, m, j, k);
}

/// An address on the path of `m` below an address that no point of `pts`
/// passes through is passed through by no point of `pts`.
pub(crate) proof fn lemma_empty_down(pts: Map<u64, GridPoint>, m: u32, j: u32, k: u32, h: u64)
    requires
        points_valid(pts),
        m <= 0xffffff,
        j <= k <= 12,
        !on_path(pts, h, key_at(m, j)),
    ensures
        !on_path(pts, h, key_at(m, k)),
{
    if on_path(pts, h, key_at(m, k)) {
        lemma_on_path_up(pts, h, m, j, k);
    }
}

/// Adding a point at an empty address on its path, below a shared address
/// (or the root), gives the spatial map of the larger set of points.
pub(crate) proof fn lemma_insert_absent(
    pts: Map<u64, GridPoint>,
    sp: Map<u32, QuadtreeEntry>,
    p: GridPoint,
    hn: u64,
    k: u32,
)
    requires
        points_valid(pts),
        canonical(pts, sp),
        in_grid(p),
        key_form(hn),
        !pts.contains_key(hn),
        k < 12,
        !sp.contains_key(key_at(morton(p), (k + 1) as u32)),
        k == 0 || shared(pts, key_at(morton(p), k)),
    ensures
        !holds_point(pts, p),
        points_valid(pts.insert(hn, p)),
        canonical(
            pts.insert(hn, p),
            sp.insert(
                key_at(morton(p), (k + 1) as u32),
                QuadtreeEntry::Leaf { point: p, handle: hn },
            ),
        ),
{
    reveal(canonical);
    let m = morton(p);
    lemma_morton_range(p);
    let c = key_at(m, (k + 1) as u32);
    let pts2 = pts.insert(hn, p);
    let sp2 = sp.insert(c, QuadtreeEntry::Leaf { point: p, handle: hn });
    lemma_key_fields(m, (k + 1) as u32);
    lemma_key_step(m, k);
    lemma_key_fields(m, k);
    // No point of `pts` passes through `c`.
    assert forall|h: u64| !on_path(pts, h, c) by {
        if on_path(pts, h, c) {
            assert(occupied(pts, c));
            assert(placed(pts, c));
        }
    }
    assert(!holds_point(pts, p)) by {
        if holds_point(pts, p) {
            let h = choose|h: u64| pts.contains_key(h) && pts[h] == p;
            assert(on_path(pts, h, c));
        }
    }
    assert forall|h: u64, b: u32| h != hn implies on_path(pts2, h, b) == on_path(pts, h, b) by {}
    // Below `c` on the path of `p`, no address is shared.
    assert forall|j: u32| k + 1 <= j <= 12 implies !shared(pts2, key_at(m, j)) && !occupied(
        pts,
        key_at(m, j),
    ) by {
        lemma_key_fields(m, j);
        assert forall|h: u64| on_path(pts2, h, key_at(m, j)) implies h == hn by {
            if h != hn {
                lemma_empty_down(pts, m, (k + 1) as u32, j, h);
            }
        }
        assert forall|h: u64| !on_path(pts, h, key_at(m, j)) by {
            lemma_empty_down(pts, m, (k + 1) as u32, j, h);
        }
    }
    assert forall|a: u32| #[trigger] sp2.contains_key(a) <==> placed(pts2, a) by {
        let l = level_of(a);
        if 1 <= l <= 12 {
            lemma_key_fields(m, l);
            if key_at(m, l) != a {
                assert(occupied(pts2, a) == occupied(pts, a)) by {
                    if occupied(pts2, a) {
                        let h = choose|h: u64| on_path(pts2, h, a);
                        assert(on_path(pts, h, a));
                    }
                }
                if l >= 2 && occupied(pts, a) {
                    let pb = parent_loc(a);
                    let h0 = choose|h: u64| on_path(pts, h, a);
                    lemma_morton_range(pts[h0]);
                    lemma_key_step(morton(pts[h0]), (l - 1) as u32);
                    lemma_key_fields(morton(pts[h0]), (l - 1) as u32);
                    assert(shared(pts2, pb) == shared(pts, pb)) by {
                        if key_at(m, (l - 1) as u32) == pb {
                            if l - 1 <= k {
                                lemma_shared_up(pts, m, (l - 1) as u32, k);
                                let (h1, h2) = choose|h1: u64, h2: u64|
                                    h1 != h2 && on_path(pts, h1, pb) && on_path(pts, h2, pb);
                                assert(on_path(pts2, h1, pb) && on_path(pts2, h2, pb));
                            } else {
                                assert(!shared(pts2, key_at(m, (l - 1) as u32)));
                                assert(!occupied(pts, key_at(m, (l - 1) as u32)));
                            }
                        } else {
                            if shared(pts2, pb) {
                                let (h1, h2) = choose|h1: u64, h2: u64|
                                    h1 != h2 && on_path(pts2, h1, pb) && on_path(pts2, h2, pb);
                                assert(on_path(pts, h1, pb) && on_path(pts, h2, pb));
                            }
                            if shared(pts, pb) {
                                let (h1, h2) = choose|h1: u64, h2: u64|
                                    h1 != h2 && on_path(pts, h1, pb) && on_path(pts, h2, pb);
                                assert(on_path(pts2, h1, pb) && on_path(pts2, h2, pb));
                            }
                        }
                    }
                }
                assert(placed(pts2, a) == placed(pts, a));
            } else if l <= k {
                lemma_shared_up(pts, m, l, k);
                let (h1, h2) = choose|h1: u64, h2: u64|
                    h1 != h2 && on_path(pts, h1, a) && on_path(pts, h2, a);
                assert(on_path(pts2, h1, a));
                if l >= 2 {
                    lemma_key_step(m, (l - 1) as u32);
                    lemma_shared_up(pts, m, (l - 1) as u32, k);
                    let (g1, g2) = choose|g1: u64, g2: u64|
                        g1 != g2 && on_path(pts, g1, parent_loc(a)) && on_path(
                            pts,
                            g2,
                            parent_loc(a),
                        );
                    assert(on_path(pts2, g1, parent_loc(a)) && on_path(pts2, g2, parent_loc(a)));
                }
                assert(placed(pts, a));
                assert(placed(pts2, a));
            } else if l == k + 1 {
                assert(on_path(pts2, hn, a));
                if l >= 2 {
                    let (h1, h2) = choose|h1: u64, h2: u64|
                        h1 != h2 && on_path(pts, h1, key_at(m, k)) && on_path(
                            pts,
                            h2,
                            key_at(m, k),
                        );
                    assert(on_path(pts2, h1, parent_loc(a)) && on_path(pts2, h2, parent_loc(a)));
                }
            } else {
                lemma_key_step(m, (l - 1) as u32);
                assert(!shared(pts2, key_at(m, (l - 1) as u32)));
                assert(!occupied(pts, a));
                assert(!placed(pts, a));
            }
        }
    }
    assert forall|a: u32| #[trigger]
        sp2.contains_key(a) implies (sp2[a] is Branch <==> shared(pts2, a)) by {
        let l = level_of(a);
        lemma_key_fields(m, l);
        if a == c {
        } else if key_at(m, l) != a {
            assert(shared(pts2, a) == shared(pts, a)) by {
                if shared(pts2, a) {
                    let (h1, h2) = choose|h1: u64, h2: u64|
                        h1 != h2 && on_path(pts2, h1, a) && on_path(pts2, h2, a);
                    assert(on_path(pts, h1, a) && on_path(pts, h2, a));
                }
                if shared(pts, a) {
                    let (h1, h2) = choose|h1: u64, h2: u64|
                        h1 != h2 && on_path(pts, h1, a) && on_path(pts, h2, a);
                    assert(on_path(pts2, h1, a) && on_path(pts2, h2, a));
                }
            }
        } else {
            assert(sp.contains_key(a));
            if shared(pts, a) {
                let (h1, h2) = choose|h1: u64, h2: u64|
                    h1 != h2 && on_path(pts, h1, a) && on_path(pts, h2, a);
                assert(on_path(pts2, h1, a) && on_path(pts2, h2, a));
            }
            assert(l <= k);
            lemma_shared_up(pts, m, l, k);
        }
    }
    assert forall|a: u32| #[trigger]
        sp2.contains_key(a) && sp2[a] is Leaf implies on_path(pts2, sp2[a]->handle, a)
        && sp2[a]->point == pts2[sp2[a]->handle] by {
        if a != c {
            assert(on_path(pts, sp[a]->handle, a));
        }
    }
}


/// Addresses that the same points pass through are alike.
pub(crate) proof fn lemma_same_through(pts: Map<u64, GridPoint>, pts2: Map<u64, GridPoint>, a: u32)
    requires
        forall|h: u64| on_path(pts2, h, a) == on_path(pts, h, a),
    ensures
        occupied(pts2, a) == occupied(pts, a),
        shared(pts2, a) == shared(pts, a),
{
    if occupied(pts2, a) {
        let h = choose|h: u64| on_path(pts2, h, a);
        assert(on_path(pts, h, a));
    }
    if occupied(pts, a) {
        let h = choose|h: u64| on_path(pts, h, a);
        assert(on_path(pts2, h, a));
    }
    if shared(pts2, a) {
        let (h1, h2) = choose|h1: u64, h2: u64|
            h1 != h2 && on_path(pts2, h1, a) && on_path(pts2, h2, a);
        assert(on_path(pts, h1, a) && on_path(pts, h2, a));
    }
    if shared(pts, a) {
        let (h1, h2) = choose|h1: u64, h2: u64|
            h1 != h2 && on_path(pts, h1, a) && on_path(pts, h2, a);
        assert(on_path(pts2, h1, a) && on_path(pts2, h2, a));
    }
}

/// An address that at most one point passes through is not shared.
pub(crate) proof fn lemma_single(pts: Map<u64, GridPoint>, a: u32, h0: u64)
    requires
        forall|h: u64| on_path(pts, h, a) ==> h == h0,
    ensures
        !shared(pts, a),
{
}

/// `b` lies on the path of `m` at a level from `lo` to `hi`.
pub open spec fn on_chain(m: u32, lo: u32, hi: u32, b: u32) -> bool {
    lo <= level_of(b) <= hi && key_at(m, level_of(b)) == b
}

/// The state in which a new point collides with a leaf (see `lemma_insert_split`).
pub open spec fn split_setup(
    pts: Map<u64, GridPoint>,
    sp: Map<u32, QuadtreeEntry>,
    sp2: Map<u32, QuadtreeEntry>,
    p: GridPoint,
    hn: u64,
    hq: u64,
    k: u32,
    j: u32,
) -> bool {
    &&& points_valid(pts)
    &&& canonical(pts, sp)
    &&& in_grid(p)
    &&& key_form(hn)
    &&& !pts.contains_key(hn)
    &&& k < j < 12 || k + 1 == j < 12
    &&& sp.contains_key(key_at(morton(p), (k + 1) as u32))
    &&& sp[key_at(morton(p), (k + 1) as u32)] == (QuadtreeEntry::Leaf { point: pts[hq], handle: hq })
    &&& pts[hq] != p
    &&& k == 0 || shared(pts, key_at(morton(p), k))
    &&& key_at(morton(p), j) == key_at(morton(pts[hq]), j)
    &&& code_at(morton(p), (j + 1) as u32) != code_at(morton(pts[hq]), (j + 1) as u32)
    &&& forall|b: u32|
            on_chain(morton(p), (k + 1) as u32, j, b) ==> #[trigger] sp2.contains_key(b) && sp2[b]
                is Branch
    &&& sp2.contains_key(key_at(morton(p), (j + 1) as u32))
    &&& sp2[key_at(morton(p), (j + 1) as u32)] == (QuadtreeEntry::Leaf { point: p, handle: hn })
    &&& sp2.contains_key(key_at(morton(pts[hq]), (j + 1) as u32))
    &&& sp2[key_at(morton(pts[hq]), (j + 1) as u32)] == (QuadtreeEntry::Leaf {
        point: pts[hq],
        handle: hq,
    })
    &&& forall|b: u32|
            !on_chain(morton(p), (k + 1) as u32, j, b) && b != key_at(morton(p), (j + 1) as u32)
                && b != key_at(morton(pts[hq]), (j + 1) as u32) ==> (#[trigger] sp2.contains_key(b)
                == sp.contains_key(b) && (sp.contains_key(b) ==> sp2[b] == sp[b]))
}

pub(crate) proof fn lemma_split_facts(
    pts: Map<u64, GridPoint>,
    sp: Map<u32, QuadtreeEntry>,
    sp2: Map<u32, QuadtreeEntry>,
    p: GridPoint,
    hn: u64,
    hq: u64,
    k: u32,
    j: u32,
)
    requires
        split_setup(pts, sp, sp2, p, hn, hq, k, j),
    ensures
        !holds_point(pts, p),
        forall|h: u64| #[trigger] on_path(pts, h, key_at(morton(p), (k + 1) as u32)) ==> h == hq,
        key_at(morton(p), (j + 1) as u32) != key_at(morton(pts[hq]), (j + 1) as u32),
        forall|i: u32| (k + 1) as u32 <= i <= j ==> #[trigger] shared(pts.insert(hn, p), key_at(morton(p), i))
            && on_path(pts, hq, key_at(morton(p), i)),
        forall|i: u32, h: u64|
            (k + 1) as u32 <= i <= j && #[trigger] on_path(pts, h, key_at(morton(p), i)) ==> h == hq,
        forall|i: u32, h: u64|
            (j + 1) as u32 <= i <= 12 && #[trigger] on_path(pts.insert(hn, p), h, key_at(morton(p), i)) ==> h == hn,
        forall|i: u32, h: u64|
            (j + 1) as u32 <= i <= 12 && #[trigger] on_path(pts.insert(hn, p), h, key_at(morton(pts[hq]), i)) ==> h == hq,
{
    reveal(canonical);
    let m = morton(p);
    let q = pts[hq];
    let mq = morton(q);
    lemma_morton_range(p);
    let c = key_at(m, (k + 1) as u32);
    assert(on_path(pts, hq, c));
    lemma_morton_range(q);
    let lp = key_at(m, (j + 1) as u32);
    let lq = key_at(mq, (j + 1) as u32);
    let pts2 = pts.insert(hn, p);
    lemma_key_fields(m, (k + 1) as u32);
    lemma_key_fields(m, k);
    lemma_key_step(m, k);
    lemma_key_fields(m, (j + 1) as u32);
    lemma_key_fields(mq, (j + 1) as u32);
    lemma_key_fields(m, j);
    lemma_key_step(m, j);
    lemma_key_step(mq, j);
    // Only `hq` passes through `c` among the old points.
    assert forall|h: u64| on_path(pts, h, c) implies h == hq by {
        if h != hq {
            assert(shared(pts, c));
        }
    }
    assert(!holds_point(pts, p)) by {
        if holds_point(pts, p) {
            let h = choose|h: u64| pts.contains_key(h) && pts[h] == p;
            assert(on_path(pts, h, c));
        }
    }
    assert(lp != lq) by {
        if lp == lq {
            lemma_key_prefix(m, mq, (j + 1) as u32, (j + 1) as u32);
        }
    }
    assert forall|h: u64, b: u32| h != hn implies on_path(pts2, h, b) == on_path(pts, h, b) by {}
    // Along the chain both points pass through; nothing else does.
    assert forall|i: u32| k + 1 <= i <= j implies #[trigger] shared(pts2, key_at(m, i))
        && on_path(pts, hq, key_at(m, i)) by {
        lemma_key_prefix(m, mq, i, j);
        lemma_key_fields(m, i);
        assert(on_path(pts2, hq, key_at(m, i)) && on_path(pts2, hn, key_at(m, i)));
    }
    assert forall|i: u32, h: u64|
        k + 1 <= i <= j && #[trigger] on_path(pts, h, key_at(m, i)) implies h == hq by {
        lemma_key_fields(m, i);
        lemma_on_path_up(pts, h, m, (k + 1) as u32, i);
    }
    // Below the chain each path holds one point at most.
    assert forall|i: u32, h: u64|
        j + 1 <= i <= 12 && #[trigger] on_path(pts2, h, key_at(m, i)) implies h == hn by {
        lemma_key_fields(m, i);
        if h != hn {
            lemma_on_path_up(pts, h, m, (k + 1) as u32, i);
            lemma_on_path_up(pts, h, m, (j + 1) as u32, i);
            assert(h == hq);
            lemma_key_prefix(m, mq, (j + 1) as u32, (j + 1) as u32);
        }
    }
    assert forall|i: u32, h: u64|
        j + 1 <= i <= 12 && #[trigger] on_path(pts2, h, key_at(mq, i)) implies h == hq by {
        lemma_key_fields(mq, i);
        lemma_key_prefix(mq, m, (k + 1) as u32, j);
        lemma_on_path_up(pts2, h, mq, (j + 1) as u32, i);
        lemma_on_path_up(pts2, h, mq, (k + 1) as u32, i);
        if h == hn {
            lemma_key_prefix(m, mq, (j + 1) as u32, (j + 1) as u32);
        } else {
            assert(on_path(pts, h, key_at(mq, (k + 1) as u32)));
        }
    }
}

#[verifier::rlimit(50)]
pub(crate) proof fn lemma_split_domain(
    pts: Map<u64, GridPoint>,
    sp: Map<u32, QuadtreeEntry>,
    sp2: Map<u32, QuadtreeEntry>,
    p: GridPoint,
    hn: u64,
    hq: u64,
    k: u32,
    j: u32,
)
    requires
        split_setup(pts, sp, sp2, p, hn, hq, k, j),
        !holds_point(pts, p),
        forall|h: u64| #[trigger] on_path(pts, h, key_at(morton(p), (k + 1) as u32)) ==> h == hq,
        key_at(morton(p), (j + 1) as u32) != key_at(morton(pts[hq]), (j + 1) as u32),
        forall|i: u32| (k + 1) as u32 <= i <= j ==> #[trigger] shared(pts.insert(hn, p), key_at(morton(p), i))
            && on_path(pts, hq, key_at(morton(p), i)),
        forall|i: u32, h: u64|
            (k + 1) as u32 <= i <= j && #[trigger] on_path(pts, h, key_at(morton(p), i)) ==> h == hq,
        forall|i: u32, h: u64|
            (j + 1) as u32 <= i <= 12 && #[trigger] on_path(pts.insert(hn, p), h, key_at(morton(p), i)) ==> h == hn,
        forall|i: u32, h: u64|
            (j + 1) as u32 <= i <= 12 && #[trigger] on_path(pts.insert(hn, p), h, key_at(morton(pts[hq]), i)) ==> h == hq,
    ensures
        forall|a: u32| #[trigger] sp2.contains_key(a) <==> placed(pts.insert(hn, p), a),
{
    reveal(canonical);
    let m = morton(p);
    let q = pts[hq];
    let mq = morton(q);
    lemma_morton_range(p);
    let c = key_at(m, (k + 1) as u32);
    assert(on_path(pts, hq, c));
    lemma_morton_range(q);
    let lp = key_at(m, (j + 1) as u32);
    let lq = key_at(mq, (j + 1) as u32);
    let pts2 = pts.insert(hn, p);
    lemma_key_fields(m, (k + 1) as u32);
    lemma_key_fields(m, k);
    lemma_key_step(m, k);
    lemma_key_fields(m, (j + 1) as u32);
    lemma_key_fields(mq, (j + 1) as u32);
    lemma_key_fields(m, j);
    lemma_key_step(m, j);
    lemma_key_step(mq, j);
    assert forall|a: u32| #[trigger] sp2.contains_key(a) <==> placed(pts2, a) by {
        let l = level_of(a);
        if 1 <= l <= 12 {
            lemma_key_fields(m, l);
            lemma_key_fields(mq, l);
            if key_at(m, l) == a {
                if l <= k {
                    lemma_shared_up(pts, m, l, k);
                    let (h1, h2) = choose|h1: u64, h2: u64|
                        h1 != h2 && on_path(pts, h1, a) && on_path(pts, h2, a);
                    assert(on_path(pts2, h1, a));
                    if l >= 2 {
                        lemma_key_step(m, (l - 1) as u32);
                        lemma_shared_up(pts, m, (l - 1) as u32, k);
                        let (g1, g2) = choose|g1: u64, g2: u64|
                            g1 != g2 && on_path(pts, g1, parent_loc(a)) && on_path(
                                pts,
                                g2,
                                parent_loc(a),
                            );
                        assert(on_path(pts2, g1, parent_loc(a)) && on_path(
                            pts2,
                            g2,
                            parent_loc(a),
                        ));
                    }
                    assert(placed(pts, a));
                } else if l <= j {
                    assert(on_path(pts2, hn, a));
                    if l >= 2 {
                        lemma_key_step(m, (l - 1) as u32);
                        if l == k + 1 {
                            let (h1, h2) = choose|h1: u64, h2: u64|
                                h1 != h2 && on_path(pts, h1, key_at(m, k)) && on_path(
                                    pts,
                                    h2,
                                    key_at(m, k),
                                );
                            assert(on_path(pts2, h1, parent_loc(a)) && on_path(
                                pts2,
                                h2,
                                parent_loc(a),
                            ));
                        } else {
                            assert(shared(pts2, key_at(m, (l - 1) as u32)));
                        }
                    }
                } else if l == j + 1 {
                    assert(on_path(pts2, hn, a));
                    assert(shared(pts2, key_at(m, j)));
                } else {
                    lemma_key_step(m, (l - 1) as u32);
                    lemma_single(pts2, key_at(m, (l - 1) as u32), hn);
                    assert(!on_path(pts2, hq, a));
                    assert forall|h: u64| !on_path(pts, h, a) by {
                        if on_path(pts, h, a) {
                            lemma_on_path_up(pts, h, m, (k + 1) as u32, l);
                            lemma_on_path_up(pts2, h, m, (j + 1) as u32, l);
                        }
                    }
                    assert(!placed(pts, a));
                }
            } else if key_at(mq, l) == a {
                assert(l >= j + 1) by {
                    if l <= j {
                        lemma_key_prefix(m, mq, l, j);
                    }
                }
                if l == j + 1 {
                    assert(on_path(pts2, hq, a));
                    assert(shared(pts2, key_at(m, j)));
                } else {
                    lemma_key_step(mq, (l - 1) as u32);
                    lemma_single(pts2, key_at(mq, (l - 1) as u32), hq);
                    lemma_key_prefix(mq, m, (k + 1) as u32, j);
                    lemma_key_fields(mq, (l - 1) as u32);
                    assert forall|h: u64| #[trigger] on_path(pts, h, key_at(mq, (l - 1) as u32)) implies h
                        == hq by {
                        assert(on_path(pts2, h, key_at(mq, (l - 1) as u32)));
                    }
                    lemma_single(pts, key_at(mq, (l - 1) as u32), hq);
                    assert(!placed(pts, a));
                }
            } else {
                lemma_same_through(pts, pts2, a);
                if l >= 2 && occupied(pts, a) {
                    let pb = parent_loc(a);
                    let h0 = choose|h: u64| on_path(pts, h, a);
                    lemma_morton_range(pts[h0]);
                    lemma_key_step(morton(pts[h0]), (l - 1) as u32);
                    lemma_key_fields(morton(pts[h0]), (l - 1) as u32);
                    if key_at(m, (l - 1) as u32) == pb {
                        if l - 1 <= k {
                            lemma_shared_up(pts, m, (l - 1) as u32, k);
                            let (h1, h2) = choose|h1: u64, h2: u64|
                                h1 != h2 && on_path(pts, h1, pb) && on_path(pts, h2, pb);
                            assert(on_path(pts2, h1, pb) && on_path(pts2, h2, pb));
                        } else {
                            lemma_on_path_up(pts, h0, morton(pts[h0]), (l - 1) as u32, l);
                            assert(on_path(pts, h0, key_at(m, (l - 1) as u32)));
                            if l - 1 <= j {
                                assert(h0 == hq);
                                lemma_key_prefix(m, mq, (l - 1) as u32, j);
                            } else {
                                lemma_on_path_up(pts, h0, m, (k + 1) as u32, (l - 1) as u32);
                                lemma_on_path_up(pts2, h0, m, (j + 1) as u32, (l - 1) as u32);
                            }
                        }
                    } else {
                        assert forall|h: u64| on_path(pts2, h, pb) == on_path(pts, h, pb) by {}
                        lemma_same_through(pts, pts2, pb);
                    }
                }
                assert(placed(pts2, a) == placed(pts, a));
            }
        }
    }
}

#[verifier::rlimit(50)]
pub(crate) proof fn lemma_split_entries(
    pts: Map<u64, GridPoint>,
    sp: Map<u32, QuadtreeEntry>,
    sp2: Map<u32, QuadtreeEntry>,
    p: GridPoint,
    hn: u64,
    hq: u64,
    k: u32,
    j: u32,
)
    requires
        split_setup(pts, sp, sp2, p, hn, hq, k, j),
        !holds_point(pts, p),
        forall|h: u64| #[trigger] on_path(pts, h, key_at(morton(p), (k + 1) as u32)) ==> h == hq,
        key_at(morton(p), (j + 1) as u32) != key_at(morton(pts[hq]), (j + 1) as u32),
        forall|i: u32| (k + 1) as u32 <= i <= j ==> #[trigger] shared(pts.insert(hn, p), key_at(morton(p), i))
            && on_path(pts, hq, key_at(morton(p), i)),
        forall|i: u32, h: u64|
            (k + 1) as u32 <= i <= j && #[trigger] on_path(pts, h, key_at(morton(p), i)) ==> h == hq,
        forall|i: u32, h: u64|
            (j + 1) as u32 <= i <= 12 && #[trigger] on_path(pts.insert(hn, p), h, key_at(morton(p), i)) ==> h == hn,
        forall|i: u32, h: u64|
            (j + 1) as u32 <= i <= 12 && #[trigger] on_path(pts.insert(hn, p), h, key_at(morton(pts[hq]), i)) ==> h == hq,
        forall|a: u32| #[trigger] sp2.contains_key(a) <==> placed(pts.insert(hn, p), a),
    ensures
        canonical(pts.insert(hn, p), sp2),
        !sp.contains_key(key_at(morton(pts[hq]), (j + 1) as u32)),
        !sp.contains_key(key_at(morton(p), (j + 1) as u32)),
        forall|b: u32| on_chain(morton(p), (k + 2) as u32, j, b) ==> !sp.contains_key(b),
{
    reveal(canonical);
    let m = morton(p);
    let q = pts[hq];
    let mq = morton(q);
    lemma_morton_range(p);
    let c = key_at(m, (k + 1) as u32);
    assert(on_path(pts, hq, c));
    lemma_morton_range(q);
    let lp = key_at(m, (j + 1) as u32);
    let lq = key_at(mq, (j + 1) as u32);
    let pts2 = pts.insert(hn, p);
    lemma_key_fields(m, (k + 1) as u32);
    lemma_key_fields(m, k);
    lemma_key_step(m, k);
    lemma_key_fields(m, (j + 1) as u32);
    lemma_key_fields(mq, (j + 1) as u32);
    lemma_key_fields(m, j);
    lemma_key_step(m, j);
    lemma_key_step(mq, j);
    assert forall|a: u32| #[trigger]
        sp2.contains_key(a) implies (sp2[a] is Branch <==> shared(pts2, a)) by {
        let l = level_of(a);
        lemma_key_fields(m, l);
        lemma_key_fields(mq, l);
        if on_chain(m, (k + 1) as u32, j, a) {
        } else if a == lp {
            lemma_single(pts2, lp, hn);
        } else if a == lq {
            lemma_single(pts2, lq, hq);
        } else if key_at(m, l) == a {
            assert(sp.contains_key(a));
            assert(placed(pts, a));
            assert(l <= k) by {
                if l > j + 1 {
                    assert forall|h: u64| !on_path(pts, h, a) by {
                        if on_path(pts, h, a) {
                            lemma_on_path_up(pts, h, m, (k + 1) as u32, l);
                            lemma_on_path_up(pts2, h, m, (j + 1) as u32, l);
                        }
                    }
                }
            }
            lemma_shared_up(pts, m, l, k);
            let (h1, h2) = choose|h1: u64, h2: u64|
                h1 != h2 && on_path(pts, h1, a) && on_path(pts, h2, a);
            assert(on_path(pts2, h1, a) && on_path(pts2, h2, a));
        } else {
            assert forall|h: u64| on_path(pts2, h, a) == on_path(pts, h, a) by {}
            lemma_same_through(pts, pts2, a);
        }
    }
    assert forall|a: u32| #[trigger]
        sp2.contains_key(a) && sp2[a] is Leaf implies on_path(pts2, sp2[a]->handle, a)
        && sp2[a]->point == pts2[sp2[a]->handle] by {
        if a != lp && a != lq && !on_chain(m, (k + 1) as u32, j, a) {
            assert(on_path(pts, sp[a]->handle, a));
        }
    }
    assert(!sp.contains_key(lq)) by {
        lemma_single(pts, key_at(mq, j), hq);
        lemma_key_prefix(mq, m, (k + 1) as u32, j);
        if j > k + 1 {
            assert(!placed(pts, lq));
        } else {
            assert(!shared(pts, c));
        }
    }
    assert(!sp.contains_key(lp)) by {
        assert forall|h: u64| !on_path(pts, h, lp) by {
            if on_path(pts, h, lp) {
                lemma_on_path_up(pts, h, m, (k + 1) as u32, (j + 1) as u32);
                lemma_key_prefix(m, mq, (j + 1) as u32, (j + 1) as u32);
            }
        }
    }
    assert forall|b: u32| on_chain(m, (k + 2) as u32, j, b) implies !sp.contains_key(b) by {
        let l = level_of(b);
        lemma_key_step(m, (l - 1) as u32);
        lemma_key_fields(m, (l - 1) as u32);
        lemma_single(pts, key_at(m, (l - 1) as u32), hq);
    }
}

/// Splitting a leaf that the new point collides with: the addresses that
/// both points pass through become branches, and each point takes the
/// first address that it alone passes through.
pub(crate) proof fn lemma_insert_split(
    pts: Map<u64, GridPoint>,
    sp: Map<u32, QuadtreeEntry>,
    sp2: Map<u32, QuadtreeEntry>,
    p: GridPoint,
    hn: u64,
    hq: u64,
    k: u32,
    j: u32,
)
    requires
        split_setup(pts, sp, sp2, p, hn, hq, k, j),
    ensures
        !holds_point(pts, p),
        points_valid(pts.insert(hn, p)),
        canonical(pts.insert(hn, p), sp2),
        !sp.contains_key(key_at(morton(pts[hq]), (j + 1) as u32)),
        !sp.contains_key(key_at(morton(p), (j + 1) as u32)),
        forall|b: u32| on_chain(morton(p), (k + 2) as u32, j, b) ==> !sp.contains_key(b),
{
    lemma_split_facts(pts, sp, sp2, p, hn, hq, k, j);
    lemma_split_domain(pts, sp, sp2, p, hn, hq, k, j);
    lemma_split_entries(pts, sp, sp2, p, hn, hq, k, j);
}


/// A point sitting at a present address passes through each address whose
/// path leads to it, and the parent of a present address at level 2 or
/// deeper is shared.
pub(crate) proof fn lemma_present_facts(pts: Map<u64, GridPoint>, sp: Map<u32, QuadtreeEntry>, b: u32) -> (g: u64)
    requires
        points_valid(pts),
        canonical(pts, sp),
        sp.contains_key(b),
    ensures
        g == present_witness(pts, sp, b),
        on_path(pts, g, b),
        b == key_at(morton(pts[g]), level_of(b)),
        1 <= level_of(b) <= 12,
        level_of(b) >= 2 ==> shared(pts, parent_loc(b)),
        level_of(b) >= 2 ==> parent_loc(b) == key_at(morton(pts[g]), (level_of(b) - 1) as u32),
        sp[b] is Branch ==> shared(pts, b),
{
    lemma_canonical_at(pts, sp, b);
    let g = present_witness(pts, sp, b);
    lemma_morton_range(pts[g]);
    if level_of(b) >= 2 {
        lemma_key_step(morton(pts[g]), (level_of(b) - 1) as u32);
    }
    g
}

/// Removing a point whose parent stays shared (or which sits at level 1)
/// gives the spatial map of the smaller set of points.
#[verifier::rlimit(50)]
pub(crate) proof fn lemma_remove_plain(
    pts: Map<u64, GridPoint>,
    sp: Map<u32, QuadtreeEntry>,
    h: u64,
    a: u32,
)
    requires
        points_valid(pts),
        canonical(pts, sp),
        pts.contains_key(h),
        sp.contains_key(a),
        sp[a] == (QuadtreeEntry::Leaf { point: pts[h], handle: h }),
        level_of(a) == 1 || shared(pts.remove(h), parent_loc(a)),
    ensures
        points_valid(pts.remove(h)),
        canonical(pts.remove(h), sp.remove(a)),
{
    reveal(canonical);
    let pts2 = pts.remove(h);
    let sp2 = sp.remove(a);
    let m = morton(pts[h]);
    lemma_morton_range(pts[h]);
    let k = level_of(a);
    assert(on_path(pts, h, a));
    lemma_key_fields(m, k);
    assert forall|g: u64, b: u32| g != h implies on_path(pts2, g, b) == on_path(pts, g, b) by {}
    assert forall|g: u64| on_path(pts, g, a) implies g == h by {
        if g != h {
            assert(shared(pts, a));
        }
    }
    assert forall|i: u32, g: u64| k <= i <= 12 && #[trigger] on_path(pts, g, key_at(m, i)) implies g
        == h by {
        lemma_on_path_up(pts, g, m, k, i);
    }
    if k >= 2 {
        lemma_key_step(m, (k - 1) as u32);
    }
    assert forall|b: u32| #[trigger] sp2.contains_key(b) <==> placed(pts2, b) by {
        let l = level_of(b);
        if 1 <= l <= 12 {
            lemma_key_fields(m, l);
            if key_at(m, l) == b {
                if l < k {
                    lemma_shared_up(pts2, m, l, (k - 1) as u32);
                    let (g1, g2) = choose|g1: u64, g2: u64|
                        g1 != g2 && on_path(pts2, g1, b) && on_path(pts2, g2, b);
                    assert(on_path(pts, g1, b));
                    if l >= 2 {
                        lemma_key_step(m, (l - 1) as u32);
                        lemma_shared_up(pts2, m, (l - 1) as u32, (k - 1) as u32);
                        let (f1, f2) = choose|f1: u64, f2: u64|
                            f1 != f2 && on_path(pts2, f1, parent_loc(b)) && on_path(
                                pts2,
                                f2,
                                parent_loc(b),
                            );
                        assert(on_path(pts, f1, parent_loc(b)) && on_path(pts, f2, parent_loc(b)));
                    }
                    assert(placed(pts, b));
                } else if l == k {
                    assert(!occupied(pts2, b));
                } else {
                    lemma_key_step(m, (l - 1) as u32);
                    lemma_single(pts, key_at(m, (l - 1) as u32), h);
                    assert(!placed(pts, b));
                    assert(!occupied(pts2, b));
                }
            } else {
                assert forall|g: u64| on_path(pts2, g, b) == on_path(pts, g, b) by {}
                lemma_same_through(pts, pts2, b);
                if l >= 2 && occupied(pts, b) {
                    let pb = parent_loc(b);
                    let g0 = choose|g: u64| on_path(pts, g, b);
                    lemma_morton_range(pts[g0]);
                    lemma_key_step(morton(pts[g0]), (l - 1) as u32);
                    lemma_key_fields(morton(pts[g0]), (l - 1) as u32);
                    if key_at(m, (l - 1) as u32) == pb {
                        if l - 1 < k {
                            lemma_shared_up(pts2, m, (l - 1) as u32, (k - 1) as u32);
                            let (g1, g2) = choose|g1: u64, g2: u64|
                                g1 != g2 && on_path(pts2, g1, pb) && on_path(pts2, g2, pb);
                            assert(on_path(pts, g1, pb) && on_path(pts, g2, pb));
                        } else {
                            lemma_single(pts, pb, h);
                            assert forall|g: u64| on_path(pts2, g, pb) implies false by {
                                assert(on_path(pts, g, pb));
                            }
                        }
                    } else {
                        assert forall|g: u64| on_path(pts2, g, pb) == on_path(pts, g, pb) by {}
                        lemma_same_through(pts, pts2, pb);
                    }
                }
                assert(placed(pts2, b) == placed(pts, b));
            }
        }
    }
    assert forall|b: u32| #[trigger]
        sp2.contains_key(b) implies (sp2[b] is Branch <==> shared(pts2, b)) by {
        let l = level_of(b);
        lemma_key_fields(m, l);
        if key_at(m, l) == b {
            assert(l < k) by {
                if l > k {
                    lemma_key_step(m, (l - 1) as u32);
                    lemma_single(pts, key_at(m, (l - 1) as u32), h);
                }
            }
            lemma_shared_up(pts2, m, l, (k - 1) as u32);
            let (g1, g2) = choose|g1: u64, g2: u64|
                g1 != g2 && on_path(pts2, g1, b) && on_path(pts2, g2, b);
            assert(on_path(pts, g1, b) && on_path(pts, g2, b));
        } else {
            assert forall|g: u64| on_path(pts2, g, b) == on_path(pts, g, b) by {}
            lemma_same_through(pts, pts2, b);
        }
    }
    assert forall|b: u32| #[trigger]
        sp2.contains_key(b) && sp2[b] is Leaf implies on_path(pts2, sp2[b]->handle, b)
        && sp2[b]->point == pts2[sp2[b]->handle] by {
        assert(on_path(pts, sp[b]->handle, b));
        if sp[b]->handle == h {
            lemma_key_fields(m, level_of(b));
            assert(level_of(b) == k) by {
                if level_of(b) < k {
                    lemma_shared_up(pts2, m, level_of(b), (k - 1) as u32);
                    let (g1, g2) = choose|g1: u64, g2: u64|
                        g1 != g2 && on_path(pts2, g1, b) && on_path(pts2, g2, b);
                    assert(on_path(pts, g1, b) && on_path(pts, g2, b));
                } else if level_of(b) > k {
                    lemma_key_step(m, (level_of(b) - 1) as u32);
                    lemma_single(pts, key_at(m, (level_of(b) - 1) as u32), h);
                }
            }
        }
    }
}


/// The state in which the lone sibling `hq` of a removed point `h` moves
/// up to level `t` (see `lemma_remove_compact`).
pub open spec fn compact_setup(
    pts: Map<u64, GridPoint>,
    sp: Map<u32, QuadtreeEntry>,
    sp2: Map<u32, QuadtreeEntry>,
    h: u64,
    hq: u64,
    k: u32,
    t: u32,
) -> bool {
    let m = morton(pts[h]);
    let mq = morton(pts[hq]);
    let pts2 = pts.remove(h);
    let a = key_at(m, k);
    let s = key_at(mq, k);
    let top = key_at(mq, t);
    &&& points_valid(pts)
    &&& canonical(pts, sp)
    &&& pts.contains_key(h)
    &&& pts.contains_key(hq)
    &&& h != hq
    &&& 2 <= k <= 12
    &&& 1 <= t < k
    &&& sp.contains_key(a)
    &&& sp[a] == (QuadtreeEntry::Leaf { point: pts[h], handle: h })
    &&& key_at(mq, (k - 1) as u32) == key_at(m, (k - 1) as u32)
    &&& sp.contains_key(s)
    &&& sp[s] == (QuadtreeEntry::Leaf { point: pts[hq], handle: hq })
    &&& forall|g: u64| #[trigger] on_path(pts2, g, top) ==> g == hq
    &&& t == 1 || shared(pts2, key_at(mq, (t - 1) as u32))
    &&& sp2.contains_key(top)
    &&& sp2[top] == (QuadtreeEntry::Leaf { point: pts[hq], handle: hq })
    &&& forall|b: u32|
        b != top && (on_chain(mq, t, (k - 1) as u32, b) || b == a || b == s)
            ==> !#[trigger] sp2.contains_key(b)
    &&& forall|b: u32|
        !(on_chain(mq, t, (k - 1) as u32, b) || b == a || b == s) ==> (#[trigger] sp2.contains_key(
            b,
        ) == sp.contains_key(b) && (sp.contains_key(b) ==> sp2[b] == sp[b]))
}

/// Facts about who passes through the addresses that compaction touches.
pub(crate) proof fn lemma_compact_facts(
    pts: Map<u64, GridPoint>,
    sp: Map<u32, QuadtreeEntry>,
    sp2: Map<u32, QuadtreeEntry>,
    h: u64,
    hq: u64,
    k: u32,
    t: u32,
)
    requires
        compact_setup(pts, sp, sp2, h, hq, k, t),
    ensures
        forall|i: u32, g: u64|
            t <= i <= 12 && #[trigger] on_path(pts.remove(h), g, key_at(morton(pts[hq]), i)) ==> g
                == hq,
        forall|i: u32, g: u64|
            k <= i <= 12 && #[trigger] on_path(pts, g, key_at(morton(pts[h]), i)) ==> g == h,
        forall|i: u32, g: u64|
            k <= i <= 12 && #[trigger] on_path(pts, g, key_at(morton(pts[hq]), i)) ==> g == hq,
        forall|i: u32| i <= k - 1 ==> #[trigger] key_at(morton(pts[h]), i) == key_at(
            morton(pts[hq]),
            i,
        ),
        forall|g: u64, b: u32| g != h ==> #[trigger] on_path(pts.remove(h), g, b) == on_path(pts, g, b),
{
    reveal(canonical);
    let pts2 = pts.remove(h);
    let m = morton(pts[h]);
    let mq = morton(pts[hq]);
    lemma_morton_range(pts[h]);
    lemma_morton_range(pts[hq]);
    let a = key_at(m, k);
    let s = key_at(mq, k);
    lemma_key_fields(m, k);
    lemma_key_fields(mq, k);
    lemma_key_fields(mq, t);
    assert(on_path(pts, h, a));
    assert(on_path(pts, hq, s));
    assert forall|g: u64| on_path(pts, g, a) implies g == h by {
        if g != h {
            assert(shared(pts, a));
        }
    }
    assert forall|g: u64| on_path(pts, g, s) implies g == hq by {
        if g != hq {
            assert(shared(pts, s));
        }
    }
    assert forall|i: u32, g: u64|
        t <= i <= 12 && #[trigger] on_path(pts2, g, key_at(mq, i)) implies g == hq by {
        lemma_on_path_up(pts2, g, mq, t, i);
    }
    assert forall|i: u32, g: u64| k <= i <= 12 && #[trigger] on_path(pts, g, key_at(m, i)) implies g
        == h by {
        lemma_on_path_up(pts, g, m, k, i);
    }
    assert forall|i: u32, g: u64|
        k <= i <= 12 && #[trigger] on_path(pts, g, key_at(mq, i)) implies g == hq by {
        lemma_on_path_up(pts, g, mq, k, i);
    }
    assert forall|i: u32| i <= k - 1 implies #[trigger] key_at(m, i) == key_at(mq, i) by {
        lemma_key_prefix(mq, m, i, (k - 1) as u32);
    }
}

/// Compaction: after removing `h`, its lone sibling `hq` moves up to the
/// shallowest address that no other point passes through, and the
/// branches between are dropped. The result is the spatial map of the
/// smaller set of points.
#[verifier::rlimit(80)]
pub(crate) proof fn lemma_compact_domain(
    pts: Map<u64, GridPoint>,
    sp: Map<u32, QuadtreeEntry>,
    sp2: Map<u32, QuadtreeEntry>,
    h: u64,
    hq: u64,
    k: u32,
    t: u32,
)
    requires
        compact_setup(pts, sp, sp2, h, hq, k, t),
    ensures
        forall|b: u32| #[trigger] sp2.contains_key(b) <==> placed(pts.remove(h), b),
{
    reveal(canonical);
    lemma_compact_facts(pts, sp, sp2, h, hq, k, t);
    let pts2 = pts.remove(h);
    let m = morton(pts[h]);
    let mq = morton(pts[hq]);
    lemma_morton_range(pts[h]);
    lemma_morton_range(pts[hq]);
    let a = key_at(m, k);
    let s = key_at(mq, k);
    let top = key_at(mq, t);
    lemma_key_fields(m, k);
    lemma_key_fields(mq, k);
    lemma_key_fields(mq, t);
    assert forall|b: u32| #[trigger] sp2.contains_key(b) <==> placed(pts2, b) by {
        let l = level_of(b);
        if 1 <= l <= 12 {
            lemma_key_fields(m, l);
            lemma_key_fields(mq, l);
            if key_at(mq, l) == b {
                if l < t {
                    lemma_shared_up(pts2, mq, l, (t - 1) as u32);
                    let (g1, g2) = choose|g1: u64, g2: u64|
                        g1 != g2 && on_path(pts2, g1, b) && on_path(pts2, g2, b);
                    assert(on_path(pts, g1, b) && on_path(pts, g2, b));
                    if l >= 2 {
                        lemma_key_step(mq, (l - 1) as u32);
                        lemma_shared_up(pts2, mq, (l - 1) as u32, (t - 1) as u32);
                        let (f1, f2) = choose|f1: u64, f2: u64|
                            f1 != f2 && on_path(pts2, f1, parent_loc(b)) && on_path(
                                pts2,
                                f2,
                                parent_loc(b),
                            );
                        assert(on_path(pts, f1, parent_loc(b)) && on_path(pts, f2, parent_loc(b)));
                    }
                    assert(placed(pts, b));
                    assert(placed(pts2, b));
                } else if l == t {
                    assert(on_path(pts2, hq, b));
                    if t >= 2 {
                        lemma_key_step(mq, (t - 1) as u32);
                    }
                } else if l <= k {
                    lemma_key_step(mq, (l - 1) as u32);
                    lemma_key_fields(mq, (l - 1) as u32);
                    lemma_single(pts2, key_at(mq, (l - 1) as u32), hq);
                    assert(on_chain(mq, t, (k - 1) as u32, b) || b == s);
                } else {
                    lemma_key_step(mq, (l - 1) as u32);
                    lemma_key_fields(mq, (l - 1) as u32);
                    lemma_single(pts, key_at(mq, (l - 1) as u32), hq);
                    lemma_single(pts2, key_at(mq, (l - 1) as u32), hq);
                    assert(!placed(pts, b));
                    assert(!(on_chain(mq, t, (k - 1) as u32, b) || b == a));
                }
            } else if key_at(m, l) == b {
                assert(l >= k);
                if l == k {
                    assert forall|g: u64| !on_path(pts2, g, b) by {
                        if on_path(pts2, g, b) {
                            assert(on_path(pts, g, b));
                        }
                    }
                } else {
                    lemma_key_step(m, (l - 1) as u32);
                    lemma_key_fields(m, (l - 1) as u32);
                    lemma_single(pts, key_at(m, (l - 1) as u32), h);
                    assert forall|g: u64| !#[trigger] on_path(pts2, g, key_at(m, (l - 1) as u32)) by {
                        if on_path(pts2, g, key_at(m, (l - 1) as u32)) {
                            assert(on_path(pts, g, key_at(m, (l - 1) as u32)));
                        }
                    }
                    assert(!placed(pts, b));
                }
            } else {
                assert forall|g: u64| on_path(pts2, g, b) == on_path(pts, g, b) by {
                    if g == h {
                        assert(!on_path(pts, h, b));
                    }
                }
                lemma_same_through(pts, pts2, b);
                if l >= 2 && occupied(pts, b) {
                    let pb = parent_loc(b);
                    let g0 = choose|g: u64| on_path(pts, g, b);
                    lemma_morton_range(pts[g0]);
                    lemma_key_step(morton(pts[g0]), (l - 1) as u32);
                    lemma_key_fields(morton(pts[g0]), (l - 1) as u32);
                    lemma_on_path_up(pts, g0, morton(pts[g0]), (l - 1) as u32, l);
                    assert(g0 != h && g0 != hq);
                    if key_at(mq, (l - 1) as u32) == pb {
                        if l - 1 < t {
                            lemma_shared_up(pts2, mq, (l - 1) as u32, (t - 1) as u32);
                            let (g1, g2) = choose|g1: u64, g2: u64|
                                g1 != g2 && on_path(pts2, g1, pb) && on_path(pts2, g2, pb);
                            assert(on_path(pts, g1, pb) && on_path(pts, g2, pb));
                        } else {
                            assert(on_path(pts, g0, key_at(mq, (l - 1) as u32)));
                            assert(on_path(pts2, g0, key_at(mq, (l - 1) as u32)));
                        }
                    } else if key_at(m, (l - 1) as u32) == pb {
                        assert(on_path(pts, g0, key_at(m, (l - 1) as u32)));
                        assert((l - 1) as u32 >= k) by {
                            if ((l - 1) as u32) < k {
                                assert(key_at(m, (l - 1) as u32) == key_at(mq, (l - 1) as u32));
                            }
                        }
                    } else {
                        assert forall|g: u64| on_path(pts2, g, pb) == on_path(pts, g, pb) by {
                            if g == h {
                                lemma_key_fields(m, (l - 1) as u32);
                            }
                        }
                        lemma_same_through(pts, pts2, pb);
                    }
                }
                assert(placed(pts2, b) == placed(pts, b));
                assert(!(on_chain(mq, t, (k - 1) as u32, b) || b == a || b == s));
            }
        }
    }
}

/// The entries that compaction leaves are those of the smaller set of points.
#[verifier::rlimit(50)]
pub(crate) proof fn lemma_compact_entries(
    pts: Map<u64, GridPoint>,
    sp: Map<u32, QuadtreeEntry>,
    sp2: Map<u32, QuadtreeEntry>,
    h: u64,
    hq: u64,
    k: u32,
    t: u32,
)
    requires
        compact_setup(pts, sp, sp2, h, hq, k, t),
        forall|b: u32| #[trigger] sp2.contains_key(b) <==> placed(pts.remove(h), b),
    ensures
        points_valid(pts.remove(h)),
        canonical(pts.remove(h), sp2),
{
    reveal(canonical);
    lemma_compact_facts(pts, sp, sp2, h, hq, k, t);
    let pts2 = pts.remove(h);
    let m = morton(pts[h]);
    let mq = morton(pts[hq]);
    lemma_morton_range(pts[h]);
    lemma_morton_range(pts[hq]);
    let top = key_at(mq, t);
    lemma_key_fields(mq, t);
    assert forall|b: u32| #[trigger]
        sp2.contains_key(b) implies (sp2[b] is Branch <==> shared(pts2, b)) by {
        let l = level_of(b);
        lemma_key_fields(m, l);
        lemma_key_fields(mq, l);
        if b == top {
            lemma_single(pts2, top, hq);
        } else if key_at(mq, l) == b {
            assert(l < t) by {
                if l > t {
                    assert(!placed(pts2, b)) by {
                        lemma_key_step(mq, (l - 1) as u32);
                        lemma_key_fields(mq, (l - 1) as u32);
                        lemma_single(pts2, key_at(mq, (l - 1) as u32), hq);
                    }
                }
            }
            lemma_shared_up(pts2, mq, l, (t - 1) as u32);
            let (g1, g2) = choose|g1: u64, g2: u64|
                g1 != g2 && on_path(pts2, g1, b) && on_path(pts2, g2, b);
            assert(on_path(pts, g1, b) && on_path(pts, g2, b));
        } else {
            assert forall|g: u64| on_path(pts2, g, b) == on_path(pts, g, b) by {
                if g == h && on_path(pts, h, b) {
                    assert(l >= k) by {
                        if l < k {
                            assert(key_at(m, l) == key_at(mq, l));
                        }
                    }
                    assert(!placed(pts2, b)) by {
                        if l == k {
                            assert forall|g2: u64| !on_path(pts2, g2, b) by {
                                if on_path(pts2, g2, b) {
                                    assert(on_path(pts, g2, b));
                                }
                            }
                        } else {
                            lemma_key_step(m, (l - 1) as u32);
                            lemma_key_fields(m, (l - 1) as u32);
                            assert forall|g2: u64| !#[trigger] on_path(pts2, g2, key_at(m, (l - 1) as u32)) by {
                                if on_path(pts2, g2, key_at(m, (l - 1) as u32)) {
                                    assert(on_path(pts, g2, key_at(m, (l - 1) as u32)));
                                }
                            }
                        }
                    }
                }
            }
            lemma_same_through(pts, pts2, b);
        }
    }
    assert forall|b: u32| #[trigger]
        sp2.contains_key(b) && sp2[b] is Leaf implies on_path(pts2, sp2[b]->handle, b)
        && sp2[b]->point == pts2[sp2[b]->handle] by {
        if b != top {
            assert(sp.contains_key(b));
            assert(on_path(pts, sp[b]->handle, b));
            if sp[b]->handle == h {
                let l = level_of(b);
                lemma_key_fields(m, l);
                assert(l >= k) by {
                    if l < k {
                        assert(key_at(m, l) == key_at(mq, l));
                        assert(on_path(pts, hq, b));
                        assert(shared(pts, b));
                    }
                }
                if l > k {
                    lemma_key_step(m, (l - 1) as u32);
                    lemma_key_fields(m, (l - 1) as u32);
                    assert forall|g2: u64| !#[trigger] on_path(pts2, g2, key_at(m, (l - 1) as u32)) by {
                        if on_path(pts2, g2, key_at(m, (l - 1) as u32)) {
                            assert(on_path(pts, g2, key_at(m, (l - 1) as u32)));
                        }
                    }
                } else {
                    assert forall|g2: u64| !on_path(pts2, g2, b) by {
                        if on_path(pts2, g2, b) {
                            assert(on_path(pts, g2, b));
                        }
                    }
                }
            }
        }
    }
}

/// Removing a point whose parent keeps one other point: that point moves
/// up (see `lemma_compact_domain`).
pub(crate) proof fn lemma_remove_compact(
    pts: Map<u64, GridPoint>,
    sp: Map<u32, QuadtreeEntry>,
    sp2: Map<u32, QuadtreeEntry>,
    h: u64,
    hq: u64,
    k: u32,
    t: u32,
)
    requires
        compact_setup(pts, sp, sp2, h, hq, k, t),
    ensures
        points_valid(pts.remove(h)),
        canonical(pts.remove(h), sp2),
{
    lemma_compact_domain(pts, sp, sp2, h, hq, k, t);
    lemma_compact_entries(pts, sp, sp2, h, hq, k, t);
}

/// The child of `parent` in quadrant code `c` with its entry, or `None`
/// where `c` is `own` or the child is absent.
pub open spec fn probe_result(sp: Map<u32, QuadtreeEntry>, parent: u32, own: u32, c: u32) -> Option<
    (u32, QuadtreeEntry),
> {
    if c == own {
        None
    } else if sp.contains_key(child_loc(parent, c)) {
        Some((child_loc(parent, c), sp[child_loc(parent, c)]))
    } else {
        None
    }
}

/// What the siblings of a removed leaf at `a` tell: unless exactly one of
/// them is present and it is a leaf, the parent stays shared; if so, the
/// points below the parent other than the removed one are that leaf's.
#[verifier::rlimit(50)]
pub(crate) proof fn lemma_sibling_census(
    pts: Map<u64, GridPoint>,
    sp: Map<u32, QuadtreeEntry>,
    h: u64,
    a: u32,
    own: u32,
    es: Seq<Option<(u32, QuadtreeEntry)>>,
    lone: Option<(u32, QuadtreeEntry)>,
    lone_leaf: bool,
)
    requires
        points_valid(pts),
        canonical(pts, sp),
        pts.contains_key(h),
        sp.contains_key(a),
        sp[a] == (QuadtreeEntry::Leaf { point: pts[h], handle: h }),
        level_of(a) >= 2,
        own == code_at(a, level_of(a)),
        es.len() == 4,
        forall|c: u32| c < 4 ==> es[c as int] == #[trigger] probe_result(sp.remove(a), parent_loc(a), own, c),
        lone == (if es[0] is Some { es[0] } else if es[1] is Some { es[1] } else if es[2] is Some { es[2] } else { es[3] }),
        lone_leaf == (lone is Some && lone->Some_0.1 is Leaf && (if es[0] is Some { 1int } else { 0 }) + (if es[1] is Some { 1int } else { 0 }) + (if es[2] is Some { 1int } else { 0 }) + (if es[3] is Some { 1int } else { 0 }) == 1),
    ensures
        !lone_leaf ==> shared(pts.remove(h), parent_loc(a)),
        lone_leaf ==> sp.contains_key(lone->Some_0.0) && sp[lone->Some_0.0] == lone->Some_0.1
            && lone->Some_0.0 != a && pts.contains_key(lone->Some_0.1->handle) && lone->Some_0.1->handle != h
            && pts[lone->Some_0.1->handle] == lone->Some_0.1->point
            && key_at(morton(lone->Some_0.1->point), level_of(a)) == lone->Some_0.0
            && key_at(morton(lone->Some_0.1->point), (level_of(a) - 1) as u32) == parent_loc(a)
            && (forall|g: u64| #[trigger] on_path(pts.remove(h), g, parent_loc(a)) ==> g == lone->Some_0.1->handle),
{
    let pts2 = pts.remove(h);
    let k = level_of(a);
    let m = morton(pts[h]);
    lemma_canonical_at(pts, sp, a);
    lemma_morton_range(pts[h]);
    lemma_key_fields(m, k);
    lemma_key_fields(m, (k - 1) as u32);
    lemma_key_step(m, (k - 1) as u32);
    let pa = parent_loc(a);
    assert(pa == key_at(m, (k - 1) as u32));
    assert(child_loc(pa, own) == a);
    assert forall|g: u64| on_path(pts, g, a) implies g == h by {
        if g != h {
            assert(shared(pts, a));
        }
    }
    // Each point other than `h` below the parent sits below a present sibling.
    assert forall|g: u64| g != h && #[trigger] on_path(pts, g, pa) implies ({
        let cg = code_at(morton(pts[g]), k);
        &&& cg < 4
        &&& cg != own
        &&& key_at(morton(pts[g]), k) == child_loc(pa, cg)
        &&& es[cg as int] == Some((child_loc(pa, cg), sp[child_loc(pa, cg)]))
        &&& on_path(pts, g, child_loc(pa, cg))
    }) by {
        let mg = morton(pts[g]);
        lemma_morton_range(pts[g]);
        lemma_key_fields(mg, k);
        lemma_key_fields(mg, (k - 1) as u32);
        lemma_key_step(mg, (k - 1) as u32);
        let cg = code_at(mg, k);
        assert(key_at(mg, (k - 1) as u32) == pa);
        if cg == own {
            assert(on_path(pts, g, a));
        }
        let b = child_loc(pa, cg);
        assert(on_path(pts, g, b));
        lemma_key_step(mg, (k - 1) as u32);
        assert(parent_loc(b) == pa);
        assert(placed(pts, b));
        lemma_canonical_at(pts, sp, b);
        assert(b != a);
        assert(probe_result(sp.remove(a), pa, own, cg) == Some((b, sp[b])));
    }
    // A present sibling holds a point other than `h`, below the parent.
    assert forall|c: u32| c < 4 && #[trigger] es[c as int] is Some implies ({
        let b = child_loc(pa, c);
        let g = present_witness(pts, sp, b);
        &&& c != own
        &&& b != a
        &&& sp.contains_key(b)
        &&& on_path(pts2, g, b)
        &&& on_path(pts2, g, pa)
        &&& key_at(morton(pts[g]), k) == b
    }) by {
        assert(probe_result(sp.remove(a), pa, own, c) is Some);
        let b = child_loc(pa, c);
        if b == a {
            lemma_children_distinct(pa, c, own);
        }
        let g = present_witness(pts, sp, b);
        lemma_present_facts(pts, sp, b);
        lemma_parent_of_child(pa, c);
        lemma_morton_range(pts[g]);
        lemma_key_fields(morton(pts[g]), k);
        if g == h {
            assert(on_path(pts, h, b));
        }
        lemma_on_path_up(pts, g, morton(pts[g]), (k - 1) as u32, k);
        assert(on_path(pts2, g, b));
    }
    let cnt = (if es[0] is Some { 1int } else { 0 }) + (if es[1] is Some { 1int } else { 0 }) + (
    if es[2] is Some { 1int } else { 0 }) + (if es[3] is Some { 1int } else { 0 });
    if !lone_leaf {
        if cnt == 0 {
            let (g1, g2) = choose|g1: u64, g2: u64|
                g1 != g2 && on_path(pts, g1, pa) && on_path(pts, g2, pa);
            let g = if g1 != h { g1 } else { g2 };
            let cg = code_at(morton(pts[g]), k);
            assert(es[cg as int] is Some);
        } else if cnt >= 2 {
            let i: u32 = if es[0] is Some { 0 } else if es[1] is Some { 1 } else { 2 };
            let j: u32 = if es[3] is Some { 3 } else if es[2] is Some { 2 } else { 1 };
            assert(i != j && es[i as int] is Some && es[j as int] is Some);
            let gi = present_witness(pts, sp, child_loc(pa, i));
            let gj = present_witness(pts, sp, child_loc(pa, j));
            if gi == gj {
                lemma_children_distinct(pa, i, j);
            }
        } else {
            let c: u32 = if es[0] is Some { 0 } else if es[1] is Some { 1 } else if es[2] is Some { 2 } else { 3 };
            assert(es[c as int] is Some);
            let b = child_loc(pa, c);
            lemma_present_facts(pts, sp, b);
            assert(shared(pts, b));
            let (g1, g2) = choose|g1: u64, g2: u64|
                g1 != g2 && on_path(pts, g1, b) && on_path(pts, g2, b);
            lemma_parent_of_child(pa, c);
            lemma_morton_range(pts[g1]);
            lemma_morton_range(pts[g2]);
            lemma_key_fields(morton(pts[g1]), k);
            lemma_key_fields(morton(pts[g2]), k);
            if b == a {
                lemma_children_distinct(pa, c, own);
            }
            lemma_on_path_up(pts, g1, morton(pts[g1]), (k - 1) as u32, k);
            lemma_on_path_up(pts, g2, morton(pts[g2]), (k - 1) as u32, k);
            lemma_key_step(morton(pts[g1]), (k - 1) as u32);
            lemma_key_step(morton(pts[g2]), (k - 1) as u32);
            assert(on_path(pts2, g1, pa) && on_path(pts2, g2, pa));
        }
    } else {
        let c: u32 = if es[0] is Some { 0 } else if es[1] is Some { 1 } else if es[2] is Some { 2 } else { 3 };
        assert(es[c as int] is Some);
        let b = child_loc(pa, c);
        assert(lone == es[c as int]);
        lemma_present_facts(pts, sp, b);
        lemma_canonical_at(pts, sp, b);
        let hq = sp[b]->handle;
        assert(on_path(pts, hq, b));
        lemma_morton_range(pts[hq]);
        lemma_key_fields(morton(pts[hq]), k);
        lemma_key_step(morton(pts[hq]), (k - 1) as u32);
        lemma_parent_of_child(pa, c);
        assert forall|g: u64| #[trigger] on_path(pts2, g, pa) implies g == hq by {
            assert(on_path(pts, g, pa));
            let cg = code_at(morton(pts[g]), k);
            assert(es[cg as int] is Some);
            assert(cg == c);
            assert(on_path(pts, g, b));
            if g != hq {
                assert(shared(pts, b));
            }
        }
    }
}

/// The point that sits at a present address (see `lemma_present_facts`).
pub open spec fn present_witness(pts: Map<u64, GridPoint>, sp: Map<u32, QuadtreeEntry>, b: u32) -> u64 {
    choose|g: u64| on_path(pts, g, b)
}

/// Climbing from `x` (on the path of `hq`, at level `t` >= 2, below a
/// shared parent in `pts`): where some sibling of `x` is present, the parent
/// `y` of `x` is shared once `h` is gone.
pub(crate) proof fn lemma_climb_stop(
    pts: Map<u64, GridPoint>,
    sp: Map<u32, QuadtreeEntry>,
    h: u64,
    hq: u64,
    x: u32,
    y: u32,
    t: u32,
    own: u32,
    c: u32,
)
    requires
        points_valid(pts),
        canonical(pts, sp),
        pts.contains_key(h),
        pts.contains_key(hq),
        h != hq,
        2 <= t <= 11,
        x == key_at(morton(pts[hq]), t),
        x == key_at(morton(pts[h]), t),
        y == key_at(morton(pts[hq]), (t - 1) as u32),
        own == code_at(morton(pts[hq]), t),
        c < 4,
        c != own,
        sp.contains_key(child_loc(y, c)),
    ensures
        shared(pts.remove(h), y),
{
    let mq = morton(pts[hq]);
    lemma_morton_range(pts[hq]);
    lemma_key_step(mq, (t - 1) as u32);
    lemma_key_fields(mq, (t - 1) as u32);
    lemma_key_fields(mq, t);
    let b = child_loc(y, c);
    lemma_parent_of_child(y, c);
    if b == x {
        lemma_children_distinct(y, c, own);
    }
    let g = lemma_present_facts(pts, sp, b);
    lemma_morton_range(pts[g]);
    lemma_key_fields(morton(pts[g]), t);
    lemma_on_path_up(pts, g, morton(pts[g]), (t - 1) as u32, t);
    lemma_on_path_up(pts, hq, mq, (t - 1) as u32, t);
    assert(on_path(pts.remove(h), g, y));
    assert(on_path(pts.remove(h), hq, y));
}

/// Climbing from `x` as in `lemma_climb_stop`: where no sibling of `x` is
/// present and `hq` alone passes through `x` once `h` is gone, `hq` alone
/// passes through the parent `y` too.
pub(crate) proof fn lemma_climb_continue(
    pts: Map<u64, GridPoint>,
    sp: Map<u32, QuadtreeEntry>,
    h: u64,
    hq: u64,
    x: u32,
    y: u32,
    t: u32,
    own: u32,
)
    requires
        points_valid(pts),
        canonical(pts, sp),
        pts.contains_key(h),
        pts.contains_key(hq),
        h != hq,
        2 <= t <= 11,
        x == key_at(morton(pts[hq]), t),
        y == key_at(morton(pts[hq]), (t - 1) as u32),
        shared(pts, y),
        own == code_at(morton(pts[hq]), t),
        forall|c: u32| c < 4 && c != own ==> !#[trigger] sp.contains_key(child_loc(y, c)),
        forall|g: u64| #[trigger] on_path(pts.remove(h), g, x) ==> g == hq,
    ensures
        forall|g: u64| #[trigger] on_path(pts.remove(h), g, y) ==> g == hq,
{
    let mq = morton(pts[hq]);
    lemma_morton_range(pts[hq]);
    lemma_key_step(mq, (t - 1) as u32);
    lemma_key_fields(mq, (t - 1) as u32);
    lemma_key_fields(mq, t);
    assert forall|g: u64| #[trigger] on_path(pts.remove(h), g, y) implies g == hq by {
        let mg = morton(pts[g]);
        lemma_morton_range(pts[g]);
        lemma_key_fields(mg, t);
        lemma_key_fields(mg, (t - 1) as u32);
        lemma_key_step(mg, (t - 1) as u32);
        let cg = code_at(mg, t);
        let b = child_loc(y, cg);
        if cg != own {
            assert(on_path(pts, g, b));
            assert(placed(pts, b));
            lemma_canonical_at(pts, sp, b);
        } else {
            assert(on_path(pts.remove(h), g, x));
        }
    }
}

/// After compaction, each remaining handle still finds its leaf: `hq` at
/// its new address, the others where they were.
pub(crate) proof fn lemma_compact_handles(
    pts: Map<u64, GridPoint>,
    sp: Map<u32, QuadtreeEntry>,
    sp2: Map<u32, QuadtreeEntry>,
    hs: Map<u64, u32>,
    h: u64,
    hq: u64,
    k: u32,
    t: u32,
)
    requires
        compact_setup(pts, sp, sp2, h, hq, k, t),
        forall|g: u64| #[trigger] hs.contains_key(g) <==> pts.contains_key(g),
        forall|g: u64| #[trigger]
            pts.contains_key(g) ==> sp.contains_key(hs[g]) && sp[hs[g]] == (QuadtreeEntry::Leaf {
                point: pts[g],
                handle: g,
            }),
    ensures
        forall|g: u64| #[trigger]
            pts.remove(h).contains_key(g) ==> sp2.contains_key(
                hs.remove(h).insert(hq, key_at(morton(pts[hq]), t))[g],
            ) && sp2[hs.remove(h).insert(hq, key_at(morton(pts[hq]), t))[g]] == (
            QuadtreeEntry::Leaf { point: pts.remove(h)[g], handle: g }),
{
    lemma_compact_facts(pts, sp, sp2, h, hq, k, t);
    let mq = morton(pts[hq]);
    let m = morton(pts[h]);
    lemma_morton_range(pts[hq]);
    lemma_morton_range(pts[h]);
    lemma_key_fields(mq, k);
    lemma_key_fields(m, k);
    lemma_key_fields(mq, t);
    assert forall|g: u64| #[trigger] pts.remove(h).contains_key(g) implies sp2.contains_key(
        hs.remove(h).insert(hq, key_at(mq, t))[g],
    ) && sp2[hs.remove(h).insert(hq, key_at(mq, t))[g]] == (QuadtreeEntry::Leaf {
        point: pts.remove(h)[g],
        handle: g,
    }) by {
        if g != hq {
            let ag = hs[g];
            assert(sp.contains_key(ag));
            lemma_canonical_at(pts, sp, ag);
            assert(on_path(pts, g, ag));
            lemma_key_fields(mq, level_of(ag));
            if on_chain(mq, t, (k - 1) as u32, ag) {
                assert(on_path(pts.remove(h), g, key_at(mq, level_of(ag))));
            }
            assert(ag != key_at(m, k) && ag != key_at(mq, k));
        }
    }
}

/// A handle has one leaf at most.
pub(crate) proof fn lemma_leaf_unique(
    pts: Map<u64, GridPoint>,
    sp: Map<u32, QuadtreeEntry>,
    h: u64,
    a1: u32,
    a2: u32,
)
    requires
        points_valid(pts),
        canonical(pts, sp),
        sp.contains_key(a1),
        sp.contains_key(a2),
        sp[a1] is Leaf,
        sp[a2] is Leaf,
        sp[a1]->handle == h,
        sp[a2]->handle == h,
    ensures
        a1 == a2,
{
    lemma_canonical_at(pts, sp, a1);
    lemma_canonical_at(pts, sp, a2);
    let m = morton(pts[h]);
    lemma_morton_range(pts[h]);
    let l1 = level_of(a1);
    let l2 = level_of(a2);
    if l1 < l2 {
        lemma_key_step(m, (l2 - 1) as u32);
        lemma_shared_up(pts, m, l1, (l2 - 1) as u32);
    } else if l2 < l1 {
        lemma_key_step(m, (l1 - 1) as u32);
        lemma_shared_up(pts, m, l2, (l1 - 1) as u32);
    }
}

/// A set of points has one spatial map.
pub(crate) proof fn lemma_canonical_unique(
    pts: Map<u64, GridPoint>,
    sp1: Map<u32, QuadtreeEntry>,
    sp2: Map<u32, QuadtreeEntry>,
)
    requires
        points_valid(pts),
        canonical(pts, sp1),
        canonical(pts, sp2),
    ensures
        sp1 == sp2,
{
    assert forall|a: u32| #[trigger] sp1.contains_key(a) == sp2.contains_key(a) by {
        lemma_canonical_at(pts, sp1, a);
        lemma_canonical_at(pts, sp2, a);
    }
    assert forall|a: u32| sp1.contains_key(a) implies #[trigger] sp1[a] == sp2[a] by {
        lemma_canonical_at(pts, sp1, a);
        lemma_canonical_at(pts, sp2, a);
        if sp1[a] is Leaf {
            let h1 = sp1[a]->handle;
            let h2 = sp2[a]->handle;
            if h1 != h2 {
                assert(shared(pts, a));
            }
        }
    }
    assert(sp1 =~= sp2);
}

/// A branch has a child that holds an entry.
pub(crate) proof fn lemma_branch_child(pts: Map<u64, GridPoint>, sp: Map<u32, QuadtreeEntry>, a: u32) -> (c: u32)
    requires
        points_valid(pts),
        canonical(pts, sp),
        sp.contains_key(a),
        sp[a] is Branch,
    ensures
        c < 4,
        level_of(a) < 12,
        sp.contains_key(child_loc(a, c)),
{
    lemma_canonical_at(pts, sp, a);
    let (g1, g2) = choose|g1: u64, g2: u64| g1 != g2 && on_path(pts, g1, a) && on_path(pts, g2, a);
    let m1 = morton(pts[g1]);
    lemma_morton_range(pts[g1]);
    lemma_morton_range(pts[g2]);
    let l = level_of(a);
    if l == 12 {
        lemma_key_deepest(m1, morton(pts[g2]));
        lemma_morton_injective(pts[g1], pts[g2]);
    }
    lemma_key_step(m1, l);
    lemma_key_fields(m1, (l + 1) as u32);
    lemma_key_fields(m1, l);
    let b = key_at(m1, (l + 1) as u32);
    assert(on_path(pts, g1, b));
    assert(placed(pts, b));
    lemma_canonical_at(pts, sp, b);
    code_at(m1, (l + 1) as u32)
}

} // verus!
