use vstd::prelude::*;

use crate::error::QuadtreeError;
use crate::node::{
    child_loc, code_at, lemma_neighbor_wf, level_of, loc_wf, neighbor_loc, opt_loc, overflow_of,
    parent_loc, LinearQuadTreeNode, RESOLUTION,
};
use crate::path::{
    in_grid, key_at, lemma_children_distinct, lemma_key_deepest, lemma_key_fields,
    lemma_key_prefix, lemma_key_step, lemma_morton_injective, lemma_morton_range, lemma_parent_of_child, morton, morton_of, GridPoint,
    GRID_SIDE,
};
use crate::canonical::{
    lemma_branch_child, lemma_canonical_unique, lemma_leaf_unique, lemma_compact_handles, lemma_climb_continue, lemma_climb_stop, canonical, compact_setup, holds_point, lemma_canonical_at, lemma_compact_domain, lemma_compact_entries, lemma_compact_facts, lemma_empty_down, lemma_insert_absent, lemma_insert_split, lemma_on_path_up, lemma_present_facts, lemma_remove_compact, lemma_remove_plain, lemma_same_through, lemma_shared_up, lemma_sibling_census, lemma_single, lemma_split_domain, lemma_split_entries, lemma_split_facts, occupied, on_chain, on_path, placed, points_valid, present_witness, probe_result, shared, split_setup,
};
use crate::quadrant::Quadrant;
use crate::store::{
    handle_entries, handles_get, handles_insert, handles_keys, handles_new, handles_remove,
    handles_set, key_form, spatial_entries, spatial_get, spatial_insert, spatial_keys,
    spatial_new, spatial_remove, HandleMap, QuadtreeEntry, SpatialMap,
};

verus! {

/// A handle to a point held by a tree. It keeps naming the same point,
/// wherever the tree moves it, until the point is removed.
#[derive(Clone, Copy, Debug, PartialEq, Eq, Structural, Hash)]
pub struct SpatialKey {
    id: u64,
}

impl View for SpatialKey {
    type V = u64;

    closed spec fn view(&self) -> u64 {
        self.id
    }
}


/// The spatial map holds as many leaves as the tree has live handles.
pub open spec fn leaf_addresses(sp: Map<u32, QuadtreeEntry>) -> Set<u32> {
    sp.dom().filter(|a: u32| sp[a] is Leaf)
}

/// What a well-formed tree holds: its spatial map is the one that its
/// points determine (see `canonical`), and each live handle maps to the
/// leaf of its point.
pub proof fn lemma_tree_layout(t: LinearQuadtree)
    requires
        t.wf(),
    ensures
        points_valid(t@),
        canonical(t@, t.spatial()),
        forall|h: u64| #[trigger] t.handles().contains_key(h) <==> t@.contains_key(h),
        forall|h: u64| #[trigger]
            t@.contains_key(h) ==> t.spatial().contains_key(t.handles()[h]) && t.spatial()[t.handles()[h]]
                == (QuadtreeEntry::Leaf { point: t@[h], handle: h }),
{
    t.lemma_layout();
}

/// The number of leaf entries in the spatial map equals the number of live
/// handles.
pub proof fn lemma_leaves_match_handles(t: LinearQuadtree)
    requires
        t.wf(),
    ensures
        t.handles().dom().finite(),
        leaf_addresses(t.spatial()).len() == t.handles().len(),
{
    t.lemma_leaves_match_handles();
}

/// Every branch entry has a child entry, reached by `child`: no branch is
/// left without descendants.
pub proof fn lemma_branch_has_child(t: LinearQuadtree, a: u32)
    requires
        t.wf(),
        t.spatial().contains_key(a),
        t.spatial()[a] is Branch,
    ensures
        level_of(a) < RESOLUTION,
        exists|c: u32| c < 4 && #[trigger] t.spatial().contains_key(child_loc(a, c)),
{
    t.lemma_branch_has_child(a);
}

/// Inserting a point and then removing it, with nothing in between, gives
/// back the same spatial map and the same handle table.
pub proof fn lemma_insert_remove_restores(
    before: LinearQuadtree,
    after: LinearQuadtree,
    key: SpatialKey,
    p: GridPoint,
)
    requires
        before.wf(),
        after.wf(),
        !before@.contains_key(key@),
        after@ == before@.insert(key@, p).remove(key@),
    ensures
        after.spatial() == before.spatial(),
        after.handles() == before.handles(),
{
    LinearQuadtree::lemma_same_points_same_tree(before, after);
}

/// A handle keeps its point across the insertion of another point and the
/// removal of another handle.
pub proof fn lemma_handle_stable(
    before: LinearQuadtree,
    after: LinearQuadtree,
    key: SpatialKey,
    other: SpatialKey,
    p: GridPoint,
)
    requires
        before.wf(),
        before@.contains_key(key@),
        other@ != key@,
        after@ == before@.insert(other@, p) || after@ == before@.remove(other@),
    ensures
        after@.contains_key(key@),
        after@[key@] == before@[key@],
{
}

/// The raw addresses of a sequence of nodes.
pub open spec fn locs_of(nodes: Seq<LinearQuadTreeNode>) -> Seq<u32> {
    nodes.map_values(|n: LinearQuadTreeNode| n@)
}

/// The addresses that a handle table gives a sequence of handles.
pub open spec fn addrs_of(hs: Map<u64, u32>, ks: Seq<u64>) -> Seq<u32> {
    ks.map_values(|h: u64| hs[h])
}

/// The nearest address at or above `n`, within `k` levels, that holds an
/// entry.
pub open spec fn covering(sp: Map<u32, QuadtreeEntry>, n: u32, k: nat) -> Option<u32>
    decreases k,
{
    if sp.contains_key(n) {
        Some(n)
    } else if k == 0 {
        None
    } else {
        covering(sp, parent_loc(n), (k - 1) as nat)
    }
}

/// The address of the leaf found in direction `d` from address `a`: the
/// neighbour of equal level, or else its nearest present ancestor, where
/// that holds a leaf.
pub open spec fn neighbor_cover(sp: Map<u32, QuadtreeEntry>, a: u32, d: int) -> Option<u32> {
    match neighbor_loc(a, d) {
        Some(n) => match covering(sp, n, level_of(n) as nat) {
            Some(c) => if sp[c] is Leaf {
                Some(c)
            } else {
                None
            },
            None => None,
        },
        None => None,
    }
}

/// `pts` lists, once each and in the order of their addresses `addrs`, the
/// points of the leaves found in the eight directions from `a` (see
/// `neighbor_cover`).
pub open spec fn neighbor_listing(
    sp: Map<u32, QuadtreeEntry>,
    a: u32,
    pts: Seq<GridPoint>,
    addrs: Seq<u32>,
) -> bool {
    &&& addrs.len() == pts.len()
    &&& forall|i: int, j: int| 0 <= i < j < addrs.len() ==> addrs[i] < addrs[j]
    &&& forall|i: int|
        0 <= i < addrs.len() ==> sp.contains_key(#[trigger] addrs[i]) && sp[addrs[i]] is Leaf
            && pts[i] == sp[addrs[i]]->point
    &&& forall|c: u32|
        addrs.contains(c) <==> exists|d: int| 0 <= d < 8 && #[trigger] neighbor_cover(sp, a, d) == Some(c)
}

/// A linear quadtree over the grid of the deepest level.
///
/// Every point sits at the shallowest address, at level 1 or deeper, that
/// no other point passes through; the addresses above it that two or more
/// points pass through are branches. A handle table maps each handle to
/// the address of its point.
pub struct LinearQuadtree {
    spatial_map: SpatialMap,
    key_map: HandleMap,
    points: Ghost<Map<u64, GridPoint>>,
}

impl View for LinearQuadtree {
    type V = Map<u64, GridPoint>;

    /// The point of each live handle.
    closed spec fn view(&self) -> Map<u64, GridPoint> {
        self.points@
    }
}

impl LinearQuadtree {
    /// The spatial map: raw address to entry.
    pub closed spec fn spatial(&self) -> Map<u32, QuadtreeEntry> {
        spatial_entries(self.spatial_map)
    }

    /// The handle table: live handle to the raw address of its point.
    pub closed spec fn handles(&self) -> Map<u64, u32> {
        handle_entries(self.key_map)
    }

    /// The tree is well formed.
    pub closed spec fn wf(&self) -> bool {
        let pts = self@;
        let sp = self.spatial();
        let hs = self.handles();
        &&& points_valid(pts)
        &&& canonical(pts, sp)
        &&& hs.dom().finite()
        &&& forall|h: u64| #[trigger] hs.contains_key(h) <==> pts.contains_key(h)
        &&& forall|h: u64| #[trigger]
            pts.contains_key(h) ==> sp.contains_key(hs[h]) && sp[hs[h]] == (QuadtreeEntry::Leaf {
                point: pts[h],
                handle: h,
            })
    }

    /// An empty tree.
    pub fn new() -> (r: LinearQuadtree)
        ensures
            r.wf(),
            r@ == Map::<u64, GridPoint>::empty(),
    {
        let r = LinearQuadtree {
            spatial_map: spatial_new(),
            key_map: handles_new(),
            points: Ghost(Map::empty()),
        };
        assert(r.spatial() =~= Map::empty());
        assert(r.handles() =~= Map::empty());
        proof {
            reveal(canonical);
        }
        r
    }

    /// Inserts a point and returns its handle.
    ///
    /// The point descends from the root through the branches on its path.
    /// At the first empty address it becomes a leaf. Where it meets the
    /// leaf of another point instead, that address and the following ones
    /// that both points pass through become branches, and each point takes
    /// the first address that it alone passes through; the other point's
    /// handle is moved there.
    ///
    /// A point outside the domain is refused with `BoundsError`; a point
    /// that the tree holds already cannot be told apart from it at any
    /// level and is refused with `DepthError`. Nothing changes then.
    pub fn insert(&mut self, p: GridPoint) -> (r: Result<SpatialKey, QuadtreeError>)
        requires
            old(self).wf(),
            old(self)@.len() < 0xffff_fffe,
        ensures
            final(self).wf(),
            !in_grid(p) ==> r == Err::<SpatialKey, QuadtreeError>(QuadtreeError::BoundsError),
            in_grid(p) && holds_point(old(self)@, p) ==> r == Err::<SpatialKey, QuadtreeError>(
                QuadtreeError::DepthError,
            ),
            r is Err ==> final(self)@ == old(self)@,
            in_grid(p) && !holds_point(old(self)@, p) ==> r is Ok && !old(self)@.contains_key(
                r->Ok_0@,
            ) && final(self)@ == old(self)@.insert(r->Ok_0@, p),
    {
        if p.x >= GRID_SIDE || p.y >= GRID_SIDE {
            return Err(QuadtreeError::BoundsError);
        }
        let ghost pts = self@;
        let ghost sp0 = self.spatial();
        let ghost hs0 = self.handles();
        proof {
            assert(hs0.dom() =~= pts.dom());
        }
        let m = morton_of(p);
        let mut a = LinearQuadTreeNode::from_location(0);
        let mut k: u32 = 0;
        proof {
            lemma_key_fields(m, 0);
        }
        loop
            invariant
                self.wf(),
                self@ == pts,
                old(self)@ == pts,
                self.spatial() == sp0,
                self.handles() == hs0,
                hs0.dom() == pts.dom(),
                pts.len() < 0xffff_fffe,
                in_grid(p),
                m == morton(p),
                m <= 0xffffff,
                k < 12,
                a@ == key_at(m, k),
                a.wf(),
                overflow_of(a@) == 0,
                level_of(a@) == k,
                k == 0 || shared(pts, key_at(m, k)),
            decreases 12 - k,
        {
            let code = (m >> (22 - 2 * k)) & 3;
            proof {
                lemma_key_step(m, k);
                lemma_key_fields(m, (k + 1) as u32);
            }
            let quad = Quadrant::from_bits(code);
            let c = match a.child(quad) {
                Ok(c) => c,
                Err(e) => {
                    return Err(e);
                },
            };
            let cl = c.location();
            assert(cl == key_at(m, (k + 1) as u32));
            match spatial_get(&self.spatial_map, cl) {
                None => {
                    let hn = handles_insert(&mut self.key_map, cl);
                    let e = QuadtreeEntry::Leaf { point: p, handle: hn };
                    spatial_insert(&mut self.spatial_map, cl, e);
                    proof {
                        lemma_insert_absent(pts, sp0, p, hn, k);
                        self.points = Ghost(pts.insert(hn, p));
                        let pts2 = self@;
                        let sp2 = self.spatial();
                        let hs2 = self.handles();
                        assert(hs2.dom().finite());
                        assert forall|h: u64| #[trigger]
                            pts2.contains_key(h) implies sp2.contains_key(hs2[h]) && sp2[hs2[h]]
                            == (QuadtreeEntry::Leaf { point: pts2[h], handle: h }) by {
                            if h != hn {
                                assert(sp0.contains_key(hs0[h]));
                            }
                        }
                    }
                    return Ok(SpatialKey { id: hn });
                },
                Some(QuadtreeEntry::Branch) => {
                    proof {
                        lemma_canonical_at(pts, sp0, cl);
                        assert(shared(pts, cl));
                        if k + 1 == 12 {
                            let (h1, h2) = choose|h1: u64, h2: u64|
                                h1 != h2 && on_path(pts, h1, cl) && on_path(pts, h2, cl);
                            lemma_morton_range(pts[h1]);
                            lemma_morton_range(pts[h2]);
                            lemma_key_deepest(morton(pts[h1]), morton(pts[h2]));
                            lemma_morton_injective(pts[h1], pts[h2]);
                        }
                    }
                    a = c;
                    k = k + 1;
                },
                Some(QuadtreeEntry::Leaf { point: q, handle: hq }) => {
                    if q.x == p.x && q.y == p.y {
                        assert(pts.contains_key(hq) && pts[hq] == p) by {
                            lemma_canonical_at(pts, sp0, cl);
                        }
                        return Err(QuadtreeError::DepthError);
                    }
                    return self.split_insert(p, m, q, hq, c, k);
                },
            }
        }
    }

    /// Separates the new point `p` from the point `q` of handle `hq`, whose
    /// leaf stands at `c` on the path of `p` (see `insert`).
    #[verifier::rlimit(100)]
    fn split_insert(
        &mut self,
        p: GridPoint,
        m: u32,
        q: GridPoint,
        hq: u64,
        c: LinearQuadTreeNode,
        k: u32,
    ) -> (r: Result<SpatialKey, QuadtreeError>)
        requires
            old(self).wf(),
            old(self)@.len() < 0xffff_fffe,
            in_grid(p),
            m == morton(p),
            k < 12,
            c@ == key_at(m, (k + 1) as u32),
            k == 0 || shared(old(self)@, key_at(m, k)),
            old(self).spatial().contains_key(c@),
            old(self).spatial()[c@] == (QuadtreeEntry::Leaf { point: q, handle: hq }),
            q != p,
        ensures
            final(self).wf(),
            !holds_point(old(self)@, p),
            r is Ok && !old(self)@.contains_key(r->Ok_0@) && final(self)@ == old(self)@.insert(
                r->Ok_0@,
                p,
            ),
    {
        let ghost pts = self@;
        let ghost sp0 = self.spatial();
        let ghost hs0 = self.handles();
        proof {
            assert(hs0.dom() =~= pts.dom());
            lemma_canonical_at(pts, sp0, c@);
            assert(on_path(pts, hq, c@));
            lemma_morton_range(p);
            lemma_key_fields(m, (k + 1) as u32);
        }
        let mq = morton_of(q);
        let cl = c.location();
        proof {
            if k + 1 == 12 {
                lemma_key_deepest(m, mq);
                lemma_morton_injective(p, q);
            }
        }
        spatial_insert(&mut self.spatial_map, cl, QuadtreeEntry::Branch);
        let mut d = c;
        let mut j: u32 = k + 1;
        loop
            invariant
                self@ == pts,
                self.handles() == hs0,
                in_grid(p),
                in_grid(q),
                q != p,
                m == morton(p),
                mq == morton(q),
                m <= 0xffffff,
                mq <= 0xffffff,
                k + 1 <= j < 12,
                d@ == key_at(m, j),
                d.wf(),
                overflow_of(d@) == 0,
                level_of(d@) == j,
                key_at(m, j) == key_at(mq, j),
                forall|b: u32|
                    on_chain(m, (k + 1) as u32, j, b) ==> #[trigger] self.spatial().contains_key(b)
                        && self.spatial()[b] is Branch,
                forall|b: u32|
                    !on_chain(m, (k + 1) as u32, j, b) ==> (#[trigger] self.spatial().contains_key(
                        b,
                    ) == sp0.contains_key(b) && (sp0.contains_key(b) ==> self.spatial()[b]
                        == sp0[b])),
            ensures
                (m >> ((22 - 2 * j) as u32)) & 3 != (mq >> ((22 - 2 * j) as u32)) & 3,
            decreases 12 - j,
        {
            let cp = (m >> (22 - 2 * j)) & 3;
            let cq = (mq >> (22 - 2 * j)) & 3;
            if cp != cq {
                break;
            }
            proof {
                lemma_key_step(m, j);
                lemma_key_step(mq, j);
                lemma_key_fields(m, (j + 1) as u32);
                lemma_key_fields(mq, j);
                if j + 1 == 12 {
                    lemma_key_deepest(m, mq);
                    lemma_morton_injective(p, q);
                }
            }
            let next = match d.child(Quadrant::from_bits(cp)) {
                Ok(n) => n,
                Err(_) => {
                    proof {
                        assert(false);
                    }
                    d
                },
            };
            d = next;
            j = j + 1;
            let ghost before = self.spatial();
            spatial_insert(&mut self.spatial_map, d.location(), QuadtreeEntry::Branch);
            proof {
                assert forall|b: u32|
                    on_chain(m, (k + 1) as u32, j, b) implies #[trigger] self.spatial().contains_key(
                    b,
                ) && self.spatial()[b] is Branch by {
                    if level_of(b) < j {
                        assert(on_chain(m, (k + 1) as u32, (j - 1) as u32, b));
                        assert(before.contains_key(b));
                    }
                }
                assert forall|b: u32| !on_chain(m, (k + 1) as u32, j, b) implies (
                #[trigger] self.spatial().contains_key(b) == sp0.contains_key(b) && (
                sp0.contains_key(b) ==> self.spatial()[b] == sp0[b])) by {
                    assert(!on_chain(m, (k + 1) as u32, (j - 1) as u32, b));
                    assert(before.contains_key(b) == sp0.contains_key(b));
                }
            }
        }
        let cp = (m >> (22 - 2 * j)) & 3;
        let cq = (mq >> (22 - 2 * j)) & 3;
        proof {
            lemma_key_step(m, j);
            lemma_key_step(mq, j);
            lemma_key_fields(m, (j + 1) as u32);
            lemma_key_fields(mq, (j + 1) as u32);
            lemma_key_fields(m, j);
            lemma_key_fields(mq, j);
            if child_loc(d@, cp) == child_loc(d@, cq) {
                lemma_children_distinct(d@, cp, cq);
            }
        }
        let ghost after_loop = self.spatial();
        let lp = match d.child(Quadrant::from_bits(cp)) {
            Ok(n) => n,
            Err(_) => {
                proof {
                    assert(false);
                }
                d
            },
        };
        let lq = match d.child(Quadrant::from_bits(cq)) {
            Ok(n) => n,
            Err(_) => {
                proof {
                    assert(false);
                }
                d
            },
        };
        let hn = handles_insert(&mut self.key_map, lp.location());
        spatial_insert(&mut self.spatial_map, lp.location(), QuadtreeEntry::Leaf { point: p, handle: hn });
        spatial_insert(&mut self.spatial_map, lq.location(), QuadtreeEntry::Leaf { point: q, handle: hq });
        handles_set(&mut self.key_map, hq, lq.location());
        proof {
            let sp2 = self.spatial();
            assert(pts[hq] == q);
            assert(key_at(m, (j + 1) as u32) == lp@);
            assert(key_at(mq, (j + 1) as u32) == lq@);
            assert forall|b: u32|
                !on_chain(morton(p), (k + 1) as u32, j, b) && b != key_at(morton(p), (j + 1) as u32)
                    && b != key_at(morton(pts[hq]), (j + 1) as u32) implies (
            #[trigger] sp2.contains_key(b) == sp0.contains_key(b) && (sp0.contains_key(b) ==> sp2[b]
                == sp0[b])) by {
                assert(after_loop.contains_key(b) == sp0.contains_key(b));
            }
            assert forall|b: u32|
                on_chain(morton(p), (k + 1) as u32, j, b) implies #[trigger] sp2.contains_key(b)
                && sp2[b] is Branch by {
                assert(after_loop.contains_key(b));
            }
            assert(code_at(m, (j + 1) as u32) == cp);
            assert(code_at(mq, (j + 1) as u32) == cq);
            assert(split_setup(pts, sp0, sp2, p, hn, hq, k, j));
            lemma_insert_split(pts, sp0, sp2, p, hn, hq, k, j);
            self.points = Ghost(pts.insert(hn, p));
            let pts2 = self@;
            let hs2 = self.handles();
            assert(hs2.dom().finite());
            assert forall|h: u64| #[trigger] hs2.contains_key(h) <==> pts2.contains_key(h) by {}
            assert forall|h: u64| #[trigger]
                pts2.contains_key(h) implies sp2.contains_key(hs2[h]) && sp2[hs2[h]]
                == (QuadtreeEntry::Leaf { point: pts2[h], handle: h }) by {
                if h != hn && h != hq {
                    let ah = hs0[h];
                    assert(sp0.contains_key(ah));
                    lemma_canonical_at(pts, sp0, ah);
                    assert(ah != cl);
                    lemma_key_fields(m, level_of(ah));
                    assert(!on_chain(m, (k + 2) as u32, j, ah));
                    assert(!on_chain(m, (k + 1) as u32, j, ah));
                    assert(ah != lp@ && ah != lq@);
                    assert(after_loop.contains_key(ah) == sp0.contains_key(ah));
                    assert(sp2[ah] == sp0[ah]);
                }
            }
        }
        Ok(SpatialKey { id: hn })
    }

    /// The entry of the child of `parent` in quadrant code `c`, with its
    /// address; `None` where `c` is `own` or the child is absent.
    fn probe(&self, parent: LinearQuadTreeNode, own: u32, c: u32) -> (r: Option<(u32, QuadtreeEntry)>)
        requires
            parent.wf(),
            overflow_of(parent@) == 0,
            level_of(parent@) < 12,
            c < 4,
        ensures
            c == own ==> r is None,
            c != own && self.spatial().contains_key(child_loc(parent@, c)) ==> r == Some(
                (child_loc(parent@, c), self.spatial()[child_loc(parent@, c)]),
            ),
            c != own && !self.spatial().contains_key(child_loc(parent@, c)) ==> r is None,
    {
        if c == own {
            return None;
        }
        assert(c & 3 == c) by (bit_vector)
            requires
                c < 4,
        ;
        let ch = match parent.child(Quadrant::from_bits(c)) {
            Ok(ch) => ch,
            Err(_) => {
                return None;
            },
        };
        let cl = ch.location();
        match spatial_get(&self.spatial_map, cl) {
            Some(e) => Some((cl, e)),
            None => None,
        }
    }

    /// Some child of `parent` other than the one in quadrant code `own` is present.
    fn has_sibling(&self, parent: LinearQuadTreeNode, own: u32) -> (r: bool)
        requires
            parent.wf(),
            overflow_of(parent@) == 0,
            level_of(parent@) < 12,
        ensures
            r == exists|c: u32|
                c < 4 && c != own && #[trigger] self.spatial().contains_key(child_loc(parent@, c)),
    {
        let e0 = self.probe(parent, own, 0);
        let e1 = self.probe(parent, own, 1);
        let e2 = self.probe(parent, own, 2);
        let e3 = self.probe(parent, own, 3);
        let r = e0.is_some() || e1.is_some() || e2.is_some() || e3.is_some();
        proof {
            if r {
                if e0.is_some() {
                    assert(self.spatial().contains_key(child_loc(parent@, 0)));
                } else if e1.is_some() {
                    assert(self.spatial().contains_key(child_loc(parent@, 1)));
                } else if e2.is_some() {
                    assert(self.spatial().contains_key(child_loc(parent@, 2)));
                } else {
                    assert(self.spatial().contains_key(child_loc(parent@, 3)));
                }
            }
        }
        r
    }

    /// Removes the point of a handle and returns it; `None` where the
    /// handle is not live, and nothing changes then.
    ///
    /// Where the removed point leaves exactly one other point below its
    /// parent, and that point is a leaf beside it, that point no longer
    /// needs its depth: it moves up to the shallowest address that no other
    /// point passes through, the branches in between are dropped, and its
    /// handle is moved with it.
    pub fn remove(&mut self, key: SpatialKey) -> (r: Option<GridPoint>)
        requires
            old(self).wf(),
        ensures
            final(self).wf(),
            old(self)@.contains_key(key@) ==> r == Some(old(self)@[key@]) && final(self)@ == old(
                self,
            )@.remove(key@),
            !old(self)@.contains_key(key@) ==> r is None && final(self)@ == old(self)@,
    {
        if (key.id >> 32) & 1 != 1 {
            return None;
        }
        let h = key.id;
        let ghost pts = self@;
        let ghost sp0 = self.spatial();
        let ghost hs0 = self.handles();
        let a = match handles_remove(&mut self.key_map, h) {
            None => {
                return None;
            },
            Some(a) => a,
        };
        let ghost pts2 = pts.remove(h);
        proof {
            lemma_canonical_at(pts, sp0, a);
            lemma_morton_range(pts[h]);
            lemma_key_fields(morton(pts[h]), level_of(a));
        }
        let removed = spatial_remove(&mut self.spatial_map, a);
        let point = match removed {
            Some(QuadtreeEntry::Leaf { point, handle: _ }) => point,
            _ => {
                proof {
                    assert(false);
                }
                return None;
            },
        };
        let node = LinearQuadTreeNode::from_location(a);
        let k = node.level();
        let ghost m = morton(pts[h]);
        if k >= 2 {
            let parent = node.parent();
            let own = (a >> (24 - 2 * k)) & 3;
            proof {
                lemma_key_step(m, (k - 1) as u32);
                lemma_key_fields(m, (k - 1) as u32);
                assert(own == code_at(m, k));
                assert(parent@ == key_at(m, (k - 1) as u32));
            }
            let e0 = self.probe(parent, own, 0);
            let e1 = self.probe(parent, own, 1);
            let e2 = self.probe(parent, own, 2);
            let e3 = self.probe(parent, own, 3);
            let n: u32 = (if e0.is_some() { 1u32 } else { 0 }) + (if e1.is_some() { 1u32 } else { 0 })
                + (if e2.is_some() { 1u32 } else { 0 }) + (if e3.is_some() { 1u32 } else { 0 });
            let lone = if e0.is_some() {
                e0
            } else if e1.is_some() {
                e1
            } else if e2.is_some() {
                e2
            } else {
                e3
            };
            let lone_leaf = match lone {
                Some((_, QuadtreeEntry::Leaf { point: _, handle: _ })) => n == 1,
                _ => false,
            };
            proof {
                let es = seq![e0, e1, e2, e3];
                assert forall|c: u32| c < 4 implies es[c as int] == #[trigger] probe_result(
                    sp0.remove(a),
                    parent_loc(a),
                    own,
                    c,
                ) by {
                    if c == 0 {
                    } else if c == 1 {
                    } else if c == 2 {
                    } else {
                    }
                }
                lemma_sibling_census(pts, sp0, h, a, own, es, lone, lone_leaf);
            }
            if lone_leaf {
                match lone {
                    Some((sa, QuadtreeEntry::Leaf { point: q, handle: hq })) => {
                        self.compact(Ghost(pts), Ghost(sp0), Ghost(hs0), Ghost(h), Ghost(a), parent, sa, q, hq);
                        return Some(point);
                    },
                    _ => {},
                }
            }
        }
        proof {
            lemma_remove_plain(pts, sp0, h, a);
        }
        self.points = Ghost(pts2);
        proof {
            let hs1 = self.handles();
            let sp1 = self.spatial();
            assert(hs1.dom().finite());
            assert forall|g: u64| #[trigger] hs1.contains_key(g) <==> pts2.contains_key(g) by {}
            assert forall|g: u64| #[trigger]
                pts2.contains_key(g) implies sp1.contains_key(hs1[g]) && sp1[hs1[g]]
                == (QuadtreeEntry::Leaf { point: pts2[g], handle: g }) by {
                assert(sp0.contains_key(hs0[g]));
            }
        }
        Some(point)
    }

    /// Moves the lone sibling leaf of a removed leaf up (see `remove`): the
    /// leaf of `hq`, holding `q` at `sa`, beside the removed leaf of `h` at
    /// `a` below `parent`.
    #[verifier::rlimit(100)]
    fn compact(
        &mut self,
        pts: Ghost<Map<u64, GridPoint>>,
        sp0: Ghost<Map<u32, QuadtreeEntry>>,
        hs0: Ghost<Map<u64, u32>>,
        h: Ghost<u64>,
        a: Ghost<u32>,
        parent: LinearQuadTreeNode,
        sa: u32,
        q: GridPoint,
        hq: u64,
    )
        requires
            points_valid(pts@),
            canonical(pts@, sp0@),
            hs0@.dom().finite(),
            forall|g: u64| #[trigger] hs0@.contains_key(g) <==> pts@.contains_key(g),
            forall|g: u64| #[trigger]
                pts@.contains_key(g) ==> sp0@.contains_key(hs0@[g]) && sp0@[hs0@[g]] == (
                QuadtreeEntry::Leaf { point: pts@[g], handle: g }),
            pts@.contains_key(h@),
            sp0@.contains_key(a@),
            sp0@[a@] == (QuadtreeEntry::Leaf { point: pts@[h@], handle: h@ }),
            2 <= level_of(a@) <= 12,
            parent@ == parent_loc(a@),
            parent.wf(),
            overflow_of(parent@) == 0,
            level_of(parent@) == level_of(a@) - 1,
            key_at(morton(pts@[h@]), level_of(a@)) == a@,
            key_at(morton(pts@[h@]), (level_of(a@) - 1) as u32) == parent@,
            old(self).spatial() == sp0@.remove(a@),
            old(self).handles() == hs0@.remove(h@),
            old(self)@ == pts@,
            sp0@.contains_key(sa),
            sp0@[sa] == (QuadtreeEntry::Leaf { point: q, handle: hq }),
            sa != a@,
            pts@.contains_key(hq),
            hq != h@,
            pts@[hq] == q,
            key_at(morton(q), level_of(a@)) == sa,
            key_at(morton(q), (level_of(a@) - 1) as u32) == parent@,
            forall|g: u64| #[trigger] on_path(pts@.remove(h@), g, parent@) ==> g == hq,
        ensures
            final(self).wf(),
            final(self)@ == pts@.remove(h@),
    {
        let ghost pts2 = pts@.remove(h@);
        let ghost k = level_of(a@);
        let ghost m = morton(pts@[h@]);
        let ghost mq = morton(q);
        proof {
            lemma_morton_range(q);
            lemma_morton_range(pts@[h@]);
            lemma_canonical_at(pts@, sp0@, a@);
            assert(shared(pts@, parent@));
        }
        spatial_remove(&mut self.spatial_map, sa);
        let ghost sp1 = self.spatial();
        proof {
            lemma_key_prefix(m, mq, (k - 1) as u32, (k - 1) as u32);
            lemma_key_fields(m, k);
            lemma_key_fields(mq, k);
            assert forall|b: u32| level_of(b) < k implies #[trigger] sp1.contains_key(b)
                == sp0@.contains_key(b) by {}
        }
        let (x, t) = self.climb(pts, sp0, h, hq, parent, Ghost(k));
        self.drop_chain(parent, t, Ghost(mq), Ghost(k));
        let ghost sp_d = self.spatial();
        let xl = x.location();
        spatial_insert(&mut self.spatial_map, xl, QuadtreeEntry::Leaf { point: q, handle: hq });
        handles_set(&mut self.key_map, hq, xl);
        proof {
            let sp2 = self.spatial();
            assert(sp1 == sp0@.remove(a@).remove(sa));
            assert(a@ == key_at(m, k));
            assert(sa == key_at(mq, k));
            lemma_key_fields(mq, t);
            assert forall|b: u32|
                b != key_at(mq, t) && (on_chain(mq, t, (k - 1) as u32, b) || b == key_at(m, k) || b
                    == key_at(mq, k)) implies !#[trigger] sp2.contains_key(b) by {
                if !on_chain(mq, t, (k - 1) as u32, b) {
                    assert(!sp1.contains_key(b));
                    assert(sp_d.contains_key(b) == sp1.contains_key(b));
                } else {
                    assert(!sp_d.contains_key(b));
                }
            }
            assert forall|b: u32|
                !(on_chain(mq, t, (k - 1) as u32, b) || b == key_at(m, k) || b == key_at(mq, k))
                    implies (#[trigger] sp2.contains_key(b) == sp0@.contains_key(b) && (
                sp0@.contains_key(b) ==> sp2[b] == sp0@[b])) by {
                assert(b != key_at(mq, t));
                assert(sp1.contains_key(b) == sp0@.contains_key(b));
                assert(sp_d.contains_key(b) == sp1.contains_key(b));
            }
            assert(compact_setup(pts@, sp0@, sp2, h@, hq, k, t));
            lemma_remove_compact(pts@, sp0@, sp2, h@, hq, k, t);
            lemma_compact_handles(pts@, sp0@, sp2, hs0@, h@, hq, k, t);
        }
        self.points = Ghost(pts2);
        proof {
            let hs2 = self.handles();
            assert(hs2 == hs0@.remove(h@).insert(hq, key_at(mq, t)));
            assert(hs2.dom().finite());
            assert forall|g: u64| #[trigger] hs2.contains_key(g) <==> pts2.contains_key(g) by {}
        }
    }

    /// Climbs from `parent`, on the path of `hq`, to the shallowest address
    /// that `hq` alone passes through once `h` is gone: up to level 1, or
    /// to the first address with a present sibling.
    #[verifier::rlimit(100)]
    fn climb(
        &self,
        pts: Ghost<Map<u64, GridPoint>>,
        sp0: Ghost<Map<u32, QuadtreeEntry>>,
        h: Ghost<u64>,
        hq: u64,
        parent: LinearQuadTreeNode,
        k: Ghost<u32>,
    ) -> (r: (LinearQuadTreeNode, u32))
        requires
            points_valid(pts@),
            canonical(pts@, sp0@),
            pts@.contains_key(h@),
            pts@.contains_key(hq),
            hq != h@,
            2 <= k@ <= 12,
            forall|b: u32| level_of(b) < k@ ==> #[trigger] self.spatial().contains_key(b)
                == sp0@.contains_key(b),
            parent@ == key_at(morton(pts@[hq]), (k@ - 1) as u32),
            parent@ == key_at(morton(pts@[h@]), (k@ - 1) as u32),
            parent.wf(),
            overflow_of(parent@) == 0,
            level_of(parent@) == k@ - 1,
            shared(pts@, parent@),
            forall|g: u64| #[trigger] on_path(pts@.remove(h@), g, parent@) ==> g == hq,
        ensures
            1 <= r.1 < k@,
            r.0@ == key_at(morton(pts@[hq]), r.1),
            forall|g: u64| #[trigger] on_path(pts@.remove(h@), g, r.0@) ==> g == hq,
            r.1 == 1 || shared(pts@.remove(h@), key_at(morton(pts@[hq]), (r.1 - 1) as u32)),
    {
        let ghost pts2 = pts@.remove(h@);
        let ghost m = morton(pts@[h@]);
        let ghost mq = morton(pts@[hq]);
        proof {
            lemma_morton_range(pts@[hq]);
            lemma_morton_range(pts@[h@]);
        }
        let mut x = parent;
        let mut t: u32 = parent.level();
        loop
            invariant
                pts2 == pts@.remove(h@),
                points_valid(pts@),
                canonical(pts@, sp0@),
                pts@.contains_key(hq),
                pts@.contains_key(h@),
                hq != h@,
                mq == morton(pts@[hq]),
                m == morton(pts@[h@]),
                mq <= 0xffffff,
                m <= 0xffffff,
                2 <= k@ <= 12,
                1 <= t < k@,
                x@ == key_at(mq, t),
                x.wf(),
                overflow_of(x@) == 0,
                level_of(x@) == t,
                key_at(m, (k@ - 1) as u32) == key_at(mq, (k@ - 1) as u32),
                shared(pts@, key_at(m, (k@ - 1) as u32)),
                forall|b: u32| level_of(b) < k@ ==> #[trigger] self.spatial().contains_key(b)
                    == sp0@.contains_key(b),
                forall|g: u64| #[trigger] on_path(pts2, g, x@) ==> g == hq,
            ensures
                1 <= t < k@,
                x@ == key_at(mq, t),
                forall|g: u64| #[trigger] on_path(pts2, g, x@) ==> g == hq,
                t == 1 || shared(pts2, key_at(mq, (t - 1) as u32)),
            decreases t,
        {
            if t == 1 {
                break;
            }
            let y = x.parent();
            let own = (x.location() >> (24 - 2 * t)) & 3;
            proof {
                lemma_key_step(mq, (t - 1) as u32);
                lemma_key_fields(mq, (t - 1) as u32);
                lemma_key_fields(mq, t);
                assert(own == code_at(mq, t));
                assert(y@ == key_at(mq, (t - 1) as u32));
                lemma_key_prefix(m, mq, t, (k@ - 1) as u32);
                lemma_key_prefix(m, mq, (t - 1) as u32, (k@ - 1) as u32);
                lemma_shared_up(pts@, m, (t - 1) as u32, (k@ - 1) as u32);
            }
            let found = self.has_sibling(y, own);
            proof {
                assert forall|c: u32| c < 4 implies #[trigger] self.spatial().contains_key(
                    child_loc(y@, c),
                ) == sp0@.contains_key(child_loc(y@, c)) by {
                    lemma_parent_of_child(y@, c);
                }
            }
            if found {
                proof {
                    let c = choose|c: u32|
                        c < 4 && c != own && #[trigger] self.spatial().contains_key(child_loc(y@, c));
                    assert(sp0@.contains_key(child_loc(y@, c)));
                    lemma_climb_stop(pts@, sp0@, h@, hq, x@, y@, t, own, c);
                }
                break;
            }
            proof {
                assert forall|c: u32| c < 4 && c != own implies !#[trigger] sp0@.contains_key(
                    child_loc(y@, c),
                ) by {
                    assert(!self.spatial().contains_key(child_loc(y@, c)));
                }
                lemma_climb_continue(pts@, sp0@, h@, hq, x@, y@, t, own);
            }
            x = y;
            t = t - 1;
        }
        (x, t)
    }

    /// Drops the entries on the path of `mq` from `parent` (at level
    /// `k - 1`) up to level `t`.
    fn drop_chain(&mut self, parent: LinearQuadTreeNode, t: u32, mq: Ghost<u32>, k: Ghost<u32>)
        requires
            mq@ <= 0xffffff,
            2 <= k@ <= 12,
            1 <= t < k@,
            parent@ == key_at(mq@, (k@ - 1) as u32),
            parent.wf(),
            overflow_of(parent@) == 0,
            level_of(parent@) == k@ - 1,
        ensures
            final(self)@ == old(self)@,
            final(self).handles() == old(self).handles(),
            forall|b: u32| on_chain(mq@, t, (k@ - 1) as u32, b) ==> !#[trigger] final(self).spatial().contains_key(b),
            forall|b: u32|
                !on_chain(mq@, t, (k@ - 1) as u32, b) ==> (
                #[trigger] final(self).spatial().contains_key(b) == old(self).spatial().contains_key(b) && (
                old(self).spatial().contains_key(b) ==> final(self).spatial()[b] == old(self).spatial()[b])),
    {
        let ghost sp1 = self.spatial();
        let mut z = parent;
        let mut i: u32 = parent.level();
        loop
            invariant_except_break
                forall|b: u32|
                    on_chain(mq@, (i + 1) as u32, (k@ - 1) as u32, b) ==> !#[trigger] self.spatial().contains_key(b),
                forall|b: u32|
                    !on_chain(mq@, (i + 1) as u32, (k@ - 1) as u32, b) ==> (
                    #[trigger] self.spatial().contains_key(b) == sp1.contains_key(b) && (
                    sp1.contains_key(b) ==> self.spatial()[b] == sp1[b])),
            invariant
                t <= i < k@,
                2 <= k@ <= 12,
                1 <= t,
                z@ == key_at(mq@, i),
                z.wf(),
                overflow_of(z@) == 0,
                level_of(z@) == i,
                mq@ <= 0xffffff,
                self@ == old(self)@,
                self.handles() == old(self).handles(),
                sp1 == old(self).spatial(),
            ensures
                self@ == old(self)@,
                self.handles() == old(self).handles(),
                forall|b: u32| on_chain(mq@, t, (k@ - 1) as u32, b) ==> !#[trigger] self.spatial().contains_key(b),
                forall|b: u32|
                    !on_chain(mq@, t, (k@ - 1) as u32, b) ==> (
                    #[trigger] self.spatial().contains_key(b) == sp1.contains_key(b) && (
                    sp1.contains_key(b) ==> self.spatial()[b] == sp1[b])),
            decreases i,
        {
            let ghost before = self.spatial();
            spatial_remove(&mut self.spatial_map, z.location());
            proof {
                assert forall|b: u32| on_chain(mq@, i, (k@ - 1) as u32, b) implies !#[trigger] self.spatial().contains_key(b) by {
                    if b != z@ {
                        assert(on_chain(mq@, (i + 1) as u32, (k@ - 1) as u32, b));
                        assert(!before.contains_key(b));
                    }
                }
                assert forall|b: u32| !on_chain(mq@, i, (k@ - 1) as u32, b) implies (
                    #[trigger] self.spatial().contains_key(b) == sp1.contains_key(b) && (
                    sp1.contains_key(b) ==> self.spatial()[b] == sp1[b])) by {
                    assert(!on_chain(mq@, (i + 1) as u32, (k@ - 1) as u32, b));
                    assert(before.contains_key(b) == sp1.contains_key(b));
                }
            }
            if i == t {
                break;
            }
            proof {
                lemma_key_step(mq@, (i - 1) as u32);
                lemma_key_fields(mq@, (i - 1) as u32);
            }
            z = z.parent();
            i = i - 1;
        }
    }

    proof fn lemma_layout(self)
        requires
            self.wf(),
        ensures
            points_valid(self@),
            canonical(self@, self.spatial()),
            forall|h: u64| #[trigger] self.handles().contains_key(h) <==> self@.contains_key(h),
            forall|h: u64| #[trigger]
                self@.contains_key(h) ==> self.spatial().contains_key(self.handles()[h])
                    && self.spatial()[self.handles()[h]] == (QuadtreeEntry::Leaf {
                    point: self@[h],
                    handle: h,
                }),
    {
    }

    proof fn lemma_leaves_match_handles(self)
        requires
            self.wf(),
        ensures
            self.handles().dom().finite(),
            leaf_addresses(self.spatial()).len() == self.handles().len(),
    {
        let sp = self.spatial();
        let hs = self.handles();
        let f = |h: u64| hs[h];
        assert forall|h1: u64, h2: u64|
            hs.dom().contains(h1) && hs.dom().contains(h2) && #[trigger] f(h1) == #[trigger] f(
                h2,
            ) implies h1 == h2 by {
            assert(sp[hs[h1]] == (QuadtreeEntry::Leaf { point: self@[h1], handle: h1 }));
            assert(sp[hs[h2]] == (QuadtreeEntry::Leaf { point: self@[h2], handle: h2 }));
        }
        assert(hs.dom().map(f) =~= leaf_addresses(sp)) by {
            assert forall|a: u32| leaf_addresses(sp).contains(a) implies #[trigger] hs.dom().map(
                f,
            ).contains(a) by {
                reveal(canonical);
                let h = sp[a]->handle;
                assert(on_path(self@, h, a));
                assert(hs.dom().contains(h));
                lemma_leaf_unique(self@, sp, h, a, hs[h]);
                assert(f(h) == a);
                assert(hs.dom().map(f).contains(f(h)));
            }
        }
        vstd::set_lib::lemma_map_size(hs.dom(), leaf_addresses(sp), f);
    }

    proof fn lemma_branch_has_child(self, a: u32)
        requires
            self.wf(),
            self.spatial().contains_key(a),
            self.spatial()[a] is Branch,
        ensures
            level_of(a) < RESOLUTION,
            exists|c: u32| c < 4 && #[trigger] self.spatial().contains_key(child_loc(a, c)),
    {
        let c = lemma_branch_child(self@, self.spatial(), a);
        assert(self.spatial().contains_key(child_loc(a, c)));
    }

    proof fn lemma_same_points_same_tree(before: LinearQuadtree, after: LinearQuadtree)
        requires
            before.wf(),
            after.wf(),
            after@ =~= before@,
        ensures
            after.spatial() == before.spatial(),
            after.handles() == before.handles(),
    {
        lemma_canonical_unique(before@, before.spatial(), after.spatial());
        assert forall|h: u64| before.handles().contains_key(h) implies #[trigger] before.handles()[h]
            == after.handles()[h] by {
            lemma_leaf_unique(before@, before.spatial(), h, before.handles()[h], after.handles()[h]);
        }
        assert(before.handles() =~= after.handles());
    }

    /// The points of all live handles, one for each handle, in the order of
    /// the handle table.
    pub fn values(&self) -> (r: Vec<GridPoint>)
        requires
            self.wf(),
        ensures
            exists|ks: Seq<u64>|
                ks.no_duplicates() && (forall|h: u64| ks.contains(h) <==> self@.contains_key(h))
                    && r@ == ks.map_values(|h: u64| self@[h]),
    {
        let keys = handles_keys(&self.key_map);
        let mut r: Vec<GridPoint> = Vec::new();
        let mut i: usize = 0;
        while i < keys.len()
            invariant
                self.wf(),
                0 <= i <= keys.len(),
                forall|h: u64| keys@.contains(h) <==> self.handles().contains_key(h),
                r@ == keys@.subrange(0, i as int).map_values(|h: u64| self@[h]),
            decreases keys.len() - i,
        {
            let h = keys[i];
            proof {
                assert(keys@.contains(h));
            }
            if let Some(a) = handles_get(&self.key_map, h) {
                if let Some(QuadtreeEntry::Leaf { point, handle: _ }) = spatial_get(&self.spatial_map, a) {
                    r.push(point);
                }
            }
            i = i + 1;
            proof {
                assert(r@ =~= keys@.subrange(0, i as int).map_values(|h: u64| self@[h]));
            }
        }
        proof {
            assert(keys@.subrange(0, keys@.len() as int) =~= keys@);
            assert forall|h: u64| keys@.contains(h) <==> self@.contains_key(h) by {}
        }
        r
    }

    /// The addresses of all entries, branches and leaves, each once, in
    /// some order.
    pub fn bounds(&self) -> (r: Vec<LinearQuadTreeNode>)
        requires
            self.wf(),
        ensures
            r@.len() == self.spatial().dom().len(),
            locs_of(r@).no_duplicates(),
            forall|a: u32|
                locs_of(r@).contains(a) <==> self.spatial().contains_key(a),
    {
        let keys = spatial_keys(&self.spatial_map);
        let mut r: Vec<LinearQuadTreeNode> = Vec::new();
        let mut i: usize = 0;
        while i < keys.len()
            invariant
                0 <= i <= keys.len(),
                r@.len() == i,
                locs_of(r@) == keys@.subrange(0, i as int),
            decreases keys.len() - i,
        {
            let n = LinearQuadTreeNode::from_location(keys[i]);
            let ghost old_r = r@;
            r.push(n);
            i = i + 1;
            proof {
                assert forall|j: int| 0 <= j < i implies #[trigger] locs_of(r@)[j] == keys@.subrange(
                    0,
                    i as int,
                )[j] by {
                    if j < i - 1 {
                        assert(locs_of(old_r)[j] == keys@.subrange(0, i - 1)[j]);
                    }
                }
                assert(locs_of(r@) =~= keys@.subrange(0, i as int));
            }
        }
        proof {
            assert(keys@.subrange(0, keys@.len() as int) =~= keys@);
            assert(keys@.to_set() =~= self.spatial().dom()) by {
                assert forall|a: u32| keys@.to_set().contains(a) <==> self.spatial().dom().contains(a) by {}
            }
            keys@.unique_seq_to_set();
        }
        r
    }

    /// The addresses of the leaves, each once, in the order of the handle
    /// table.
    pub fn bounds_no_branch(&self) -> (r: Vec<LinearQuadTreeNode>)
        requires
            self.wf(),
        ensures
            locs_of(r@).no_duplicates(),
            forall|a: u32|
                locs_of(r@).contains(a) <==> (self.spatial().contains_key(a)
                    && self.spatial()[a] is Leaf),
    {
        let keys = handles_keys(&self.key_map);
        let mut r: Vec<LinearQuadTreeNode> = Vec::new();
        let mut i: usize = 0;
        let ghost hs = self.handles();
        while i < keys.len()
            invariant
                self.wf(),
                hs == self.handles(),
                keys@.no_duplicates(),
                0 <= i <= keys.len(),
                r@.len() == i,
                forall|h: u64| keys@.contains(h) <==> self.handles().contains_key(h),
                locs_of(r@) == addrs_of(hs, keys@.subrange(0, i as int)),
            decreases keys.len() - i,
        {
            let h = keys[i];
            proof {
                assert(keys@.contains(h));
            }
            let ghost old_r = r@;
            if let Some(a) = handles_get(&self.key_map, h) {
                r.push(LinearQuadTreeNode::from_location(a));
            }
            i = i + 1;
            proof {
                assert forall|j: int| 0 <= j < i implies #[trigger] locs_of(r@)[j] == addrs_of(
                    hs,
                    keys@.subrange(0, i as int),
                )[j] by {
                    if j < i - 1 {
                        assert(locs_of(old_r)[j] == addrs_of(hs, keys@.subrange(0, i - 1))[j]);
                    }
                }
                assert(locs_of(r@) =~= addrs_of(hs, keys@.subrange(0, i as int)));
            }
        }
        proof {
            let sp = self.spatial();
            let rs = locs_of(r@);
            assert(keys@.subrange(0, keys@.len() as int) =~= keys@);
            assert(rs == addrs_of(hs, keys@));
            assert forall|x: int, y: int| 0 <= x < rs.len() && 0 <= y < rs.len() && x != y implies rs[x] != rs[y] by {
                let hx = keys@[x];
                let hy = keys@[y];
                assert(keys@.contains(hx) && keys@.contains(hy));
                assert(sp[hs[hx]] == (QuadtreeEntry::Leaf { point: self@[hx], handle: hx }));
                assert(sp[hs[hy]] == (QuadtreeEntry::Leaf { point: self@[hy], handle: hy }));
            }
            assert forall|a: u32| rs.contains(a) <==> (sp.contains_key(a) && sp[a] is Leaf) by {
                if rs.contains(a) {
                    let x = choose|x: int| 0 <= x < rs.len() && rs[x] == a;
                    assert(keys@.contains(keys@[x]));
                }
                if sp.contains_key(a) && sp[a] is Leaf {
                    lemma_canonical_at(self@, sp, a);
                    let h = sp[a]->handle;
                    assert(self@.contains_key(h));
                    lemma_leaf_unique(self@, sp, h, a, hs[h]);
                    assert(keys@.contains(h));
                    let x = choose|x: int| 0 <= x < keys@.len() && keys@[x] == h;
                    assert(rs[x] == a);
                }
            }
        }
        r
    }

    /// The entry at `n` or at its nearest present ancestor.
    fn cover(&self, n: LinearQuadTreeNode) -> (r: Option<(u32, QuadtreeEntry)>)
        requires
            n.wf(),
            overflow_of(n@) == 0,
        ensures
            r is Some <==> covering(self.spatial(), n@, level_of(n@) as nat) is Some,
            r is Some ==> r->Some_0.0 == covering(self.spatial(), n@, level_of(n@) as nat)->Some_0
                && self.spatial().contains_key(r->Some_0.0) && r->Some_0.1 == self.spatial()[r->Some_0.0],
    {
        let mut x = n;
        loop
            invariant
                x.wf(),
                overflow_of(x@) == 0,
                covering(self.spatial(), x@, level_of(x@) as nat) == covering(
                    self.spatial(),
                    n@,
                    level_of(n@) as nat,
                ),
            decreases level_of(x@),
        {
            let xl = x.location();
            match spatial_get(&self.spatial_map, xl) {
                Some(e) => {
                    return Some((xl, e));
                },
                None => {
                    if x.level() == 0 {
                        return None;
                    }
                    x = x.parent();
                },
            }
        }
    }

    /// The points in the eight directions around the point of a handle,
    /// each once, in the order of their addresses; none where the handle
    /// is not live. In each direction the leaf is taken at the neighbour of
    /// equal level, or else at its nearest present ancestor; where that
    /// address is a branch, the finer leaves below it are not searched and
    /// the direction gives nothing (see `neighbor_cover`).
    pub fn neighbors(&self, key: SpatialKey) -> (r: Vec<GridPoint>)
        requires
            self.wf(),
        ensures
            !self@.contains_key(key@) ==> r@.len() == 0,
            self@.contains_key(key@) ==> exists|addrs: Seq<u32>|
                #[trigger] neighbor_listing(self.spatial(), self.handles()[key@], r@, addrs),
    {
        let mut r: Vec<GridPoint> = Vec::new();
        let mut addrs: Vec<u32> = Vec::new();
        let node = match self.address_of(key) {
            Some(n) => n,
            None => {
                return r;
            },
        };
        let ghost a = node@;
        let ghost sp = self.spatial();
        proof {
            lemma_canonical_at(self@, self.spatial(), a);
            lemma_morton_range(self@[key@]);
            lemma_key_fields(morton(self@[key@]), level_of(a));
        }
        let around = node.compute_neighbors();
        let mut d: usize = 0;
        while d < 8
            invariant
                self.wf(),
                sp == self.spatial(),
                a == node@,
                node.wf(),
                d <= 8,
                forall|i: int| 0 <= i < 8 ==> opt_loc(#[trigger] around@[i]) == neighbor_loc(a, i),
                addrs@.len() == r@.len(),
                forall|i: int, j: int| 0 <= i < j < addrs@.len() ==> addrs@[i] < addrs@[j],
                forall|i: int|
                    0 <= i < addrs@.len() ==> sp.contains_key(#[trigger] addrs@[i]) && sp[addrs@[i]] is Leaf
                        && r@[i] == sp[addrs@[i]]->point,
                forall|c: u32|
                    #[trigger] addrs@.contains(c) <==> exists|i: int|
                        0 <= i < d && #[trigger] neighbor_cover(sp, a, i) == Some(c),
            decreases 8 - d,
        {
            let ghost before = addrs@;
            let ghost nc = neighbor_cover(sp, a, d as int);
            proof {
                assert(opt_loc(around@[d as int]) == neighbor_loc(a, d as int));
            }
            if let Some(n) = around[d] {
                proof {
                    lemma_neighbor_wf(a, d as int);
                }
                let found = self.cover(n);
                if let Some((c, QuadtreeEntry::Leaf { point, handle: _ })) = found {
                    assert(nc == Some(c));
                    let mut pos: usize = 0;
                    while pos < addrs.len() && addrs[pos] < c
                        invariant
                            pos <= addrs@.len(),
                            forall|j: int| 0 <= j < pos ==> addrs@[j] < c,
                        decreases addrs@.len() - pos,
                    {
                        pos = pos + 1;
                    }
                    if pos < addrs.len() && addrs[pos] == c {
                        proof {
                            assert(addrs@.contains(c));
                        }
                    } else {
                        proof {
                            assert(pos < addrs@.len() ==> addrs@[pos as int] > c);
                        }
                        addrs.insert(pos, c);
                        r.insert(pos, point);
                        proof {
                            assert forall|i: int, j: int| 0 <= i < j < addrs@.len() implies addrs@[i] < addrs@[j] by {
                                if j < pos {
                                } else if j == pos {
                                } else if i < pos {
                                    assert(addrs@[j] == before[j - 1]);
                                    if pos < before.len() {
                                        assert(before[pos as int] > c);
                                        if j - 1 > pos {
                                            assert(before[pos as int] < before[j - 1]);
                                        }
                                    }
                                } else if i == pos {
                                    assert(addrs@[j] == before[j - 1]);
                                    if j - 1 > pos {
                                        assert(before[pos as int] < before[j - 1]);
                                    }
                                } else {
                                    assert(addrs@[i] == before[i - 1]);
                                    assert(addrs@[j] == before[j - 1]);
                                }
                            }
                            assert forall|x: u32| addrs@.contains(x) <==> (before.contains(x) || x == c) by {
                                if addrs@.contains(x) {
                                    let y = choose|y: int| 0 <= y < addrs@.len() && addrs@[y] == x;
                                    if y < pos {
                                        assert(before[y] == x);
                                    } else if y > pos {
                                        assert(before[y - 1] == x);
                                    }
                                }
                                if before.contains(x) {
                                    let y = choose|y: int| 0 <= y < before.len() && before[y] == x;
                                    if y < pos {
                                        assert(addrs@[y] == x);
                                    } else {
                                        assert(addrs@[y + 1] == x);
                                    }
                                }
                                if x == c {
                                    assert(addrs@[pos as int] == x);
                                }
                            }
                        }
                    }
                } else {
                    assert(nc is None);
                }
            } else {
                assert(nc is None);
            }
            proof {
                assert(forall|x: u32| addrs@.contains(x) <==> (before.contains(x) || nc == Some(x)));
            }
            d = d + 1;
            proof {
                assert forall|x: u32| #[trigger] addrs@.contains(x) <==> exists|i: int|
                    0 <= i < d && #[trigger] neighbor_cover(sp, a, i) == Some(x) by {
                    assert(addrs@.contains(x) <==> (before.contains(x) || nc == Some(x)));
                    if before.contains(x) {
                        let i = choose|i: int| 0 <= i < d - 1 && #[trigger] neighbor_cover(sp, a, i) == Some(x);
                        assert(0 <= i < d);
                    }
                    if nc == Some(x) {
                        assert(neighbor_cover(sp, a, d - 1) == Some(x));
                    }
                    if exists|i: int| 0 <= i < d && #[trigger] neighbor_cover(sp, a, i) == Some(x) {
                        let i = choose|i: int| 0 <= i < d && #[trigger] neighbor_cover(sp, a, i) == Some(x);
                        if i < d - 1 {
                            assert(before.contains(x));
                        }
                    }
                }
            }
        }
        proof {
            assert(neighbor_listing(sp, a, r@, addrs@));
        }
        r
    }

    /// The point of a handle, or `None` where the handle is not live.
    pub fn get(&self, key: SpatialKey) -> (r: Option<GridPoint>)
        requires
            self.wf(),
        ensures
            self@.contains_key(key@) ==> r == Some(self@[key@]),
            !self@.contains_key(key@) ==> r is None,
    {
        if (key.id >> 32) & 1 != 1 {
            return None;
        }
        match handles_get(&self.key_map, key.id) {
            None => None,
            Some(a) => match spatial_get(&self.spatial_map, a) {
                Some(QuadtreeEntry::Leaf { point, handle: _ }) => Some(point),
                _ => None,
            },
        }
    }

    /// The address that currently holds the point of a handle, or `None`
    /// where the handle is not live.
    pub fn address_of(&self, key: SpatialKey) -> (r: Option<LinearQuadTreeNode>)
        requires
            self.wf(),
        ensures
            self@.contains_key(key@) ==> r is Some && r.unwrap()@ == self.handles()[key@]
                && on_path(self@, key@, r.unwrap()@) && self.spatial()[r.unwrap()@] == (
            QuadtreeEntry::Leaf { point: self@[key@], handle: key@ }),
            !self@.contains_key(key@) ==> r is None,
    {
        if (key.id >> 32) & 1 != 1 {
            return None;
        }
        match handles_get(&self.key_map, key.id) {
            None => None,
            Some(a) => {
                proof {
                    lemma_canonical_at(self@, self.spatial(), a);
                }
                Some(LinearQuadTreeNode::from_location(a))
            },
        }
    }
}

} // verus!
