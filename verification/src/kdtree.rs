//! Balanced 2-D partition tree over vessel positions.
//!
//! The tree is built once from a snapshot of `(id, lat, lng)` points and is
//! never mutated afterwards; any change to the record set requires a fresh
//! build.  At depth `d` the split dimension is `d mod 2` (0 = latitude,
//! 1 = longitude): the point set is sorted by that dimension, the median
//! becomes the node, and the lower and upper halves become the subtrees.
//! An axis-aligned range query descends into a subtree whenever the box
//! straddles or overlaps the node's splitting value, so no in-box point is
//! ever pruned away.

use vstd::prelude::*;
use vstd::seq_lib::lemma_multiset_commutative;

verus! {

broadcast use vstd::seq_lib::group_to_multiset_ensures;

/// One indexed point: vessel id, latitude, longitude (microdegrees).
pub type Point = (u32, i64, i64);

/// Coordinate of a point in a split dimension (0 = latitude, 1 = longitude).
spec fn coord(p: Point, dim: int) -> i64 {
    if dim == 0 {
        p.1
    } else {
        p.2
    }
}

/// Closed-box membership test for a position.
pub open spec fn in_box(
    lat: i64,
    lng: i64,
    sw_lat: i64,
    sw_lng: i64,
    ne_lat: i64,
    ne_lng: i64,
) -> bool {
    sw_lat <= lat <= ne_lat && sw_lng <= lng <= ne_lng
}

/// Every point's coordinate in `dim` is at most `v`.
spec fn all_le(ps: Seq<Point>, dim: int, v: i64) -> bool {
    forall|i: int| 0 <= i < ps.len() ==> coord(#[trigger] ps[i], dim) <= v
}

/// Every point's coordinate in `dim` is at least `v`.
spec fn all_ge(ps: Seq<Point>, dim: int, v: i64) -> bool {
    forall|i: int| 0 <= i < ps.len() ==> coord(#[trigger] ps[i], dim) >= v
}

/// Nondecreasing in the coordinate of `dim`.
spec fn sorted_by_dim(ps: Seq<Point>, dim: int) -> bool {
    forall|i: int, j: int|
        0 <= i <= j < ps.len() ==> coord(#[trigger] ps[i], dim) <= coord(#[trigger] ps[j], dim)
}

/// Coordinate of a point in a split dimension, executable form.
fn coord_of(p: Point, dim: usize) -> (c: i64)
    requires
        dim < 2,
    ensures
        c == coord(p, dim as int),
{
    if dim == 0 {
        p.1
    } else {
        p.2
    }
}

/// Merge two runs that are sorted in dimension `dim` into one sorted run
/// holding exactly the points of both.
fn merge_by_dim(a: Vec<Point>, b: Vec<Point>, dim: usize) -> (r: Vec<Point>)
    requires
        dim < 2,
        sorted_by_dim(a@, dim as int),
        sorted_by_dim(b@, dim as int),
    ensures
        r@.to_multiset() == a@.to_multiset().add(b@.to_multiset()),
        sorted_by_dim(r@, dim as int),
        r@.len() == a@.len() + b@.len(),
{
    let mut r: Vec<Point> = Vec::new();
    let mut i: usize = 0;
    let mut j: usize = 0;
    proof {
        assert(a@.subrange(0, 0) =~= Seq::<Point>::empty());
        assert(b@.subrange(0, 0) =~= Seq::<Point>::empty());
        assert(r@.to_multiset() =~= a@.subrange(0, 0).to_multiset().add(
            b@.subrange(0, 0).to_multiset(),
        ));
    }
    while i < a.len() || j < b.len()
        invariant
            dim < 2,
            sorted_by_dim(a@, dim as int),
            sorted_by_dim(b@, dim as int),
            i <= a.len(),
            j <= b.len(),
            r@.len() == i + j,
            sorted_by_dim(r@, dim as int),
            r@.to_multiset() == a@.subrange(0, i as int).to_multiset().add(
                b@.subrange(0, j as int).to_multiset(),
            ),
            forall|k: int|
                0 <= k < r@.len() && i < a@.len() ==> coord(#[trigger] r@[k], dim as int) <= coord(
                    a@[i as int],
                    dim as int,
                ),
            forall|k: int|
                0 <= k < r@.len() && j < b@.len() ==> coord(#[trigger] r@[k], dim as int) <= coord(
                    b@[j as int],
                    dim as int,
                ),
        decreases a@.len() - i + b@.len() - j,
    {
        let take_a = if j == b.len() {
            true
        } else if i == a.len() {
            false
        } else {
            coord_of(a[i], dim) <= coord_of(b[j], dim)
        };
        if take_a {
            let p = a[i];
            r.push(p);
            proof {
                assert(a@.subrange(0, i + 1 as int) =~= a@.subrange(0, i as int).push(p));
            }
            i = i + 1;
        } else {
            let p = b[j];
            r.push(p);
            proof {
                assert(b@.subrange(0, j + 1 as int) =~= b@.subrange(0, j as int).push(p));
            }
            j = j + 1;
        }
    }
    proof {
        assert(a@.subrange(0, i as int) =~= a@);
        assert(b@.subrange(0, j as int) =~= b@);
    }
    r
}

/// Sort points by their coordinate in dimension `dim` (merge sort).
fn sort_by_dim(points: Vec<Point>, dim: usize) -> (r: Vec<Point>)
    requires
        dim < 2,
    ensures
        r@.to_multiset() == points@.to_multiset(),
        sorted_by_dim(r@, dim as int),
        r@.len() == points@.len(),
    decreases points@.len(),
{
    if points.len() <= 1 {
        return points;
    }
    let mid = points.len() / 2;
    let mut a: Vec<Point> = Vec::new();
    let mut b: Vec<Point> = Vec::new();
    let mut k: usize = 0;
    while k < mid
        invariant
            mid <= points@.len(),
            k <= mid,
            a@ == points@.subrange(0, k as int),
        decreases mid - k,
    {
        a.push(points[k]);
        proof {
            assert(points@.subrange(0, k + 1 as int) =~= points@.subrange(0, k as int).push(
                points@[k as int],
            ));
        }
        k = k + 1;
    }
    let mut k2: usize = mid;
    while k2 < points.len()
        invariant
            mid <= points@.len(),
            mid <= k2 <= points@.len(),
            b@ == points@.subrange(mid as int, k2 as int),
        decreases points@.len() - k2,
    {
        b.push(points[k2]);
        proof {
            assert(points@.subrange(mid as int, k2 + 1 as int) =~= points@.subrange(
                mid as int,
                k2 as int,
            ).push(points@[k2 as int]));
        }
        k2 = k2 + 1;
    }
    let ghost a0 = a@;
    let ghost b0 = b@;
    let sa = sort_by_dim(a, dim);
    let sb = sort_by_dim(b, dim);
    let r = merge_by_dim(sa, sb, dim);
    proof {
        assert(points@ =~= a0 + b0);
        lemma_multiset_commutative(a0, b0);
        assert(r@.to_multiset() =~= points@.to_multiset());
    }
    r
}

/// One tree node: a point together with its depth and subtrees.  The split
/// dimension of a node is its depth mod 2.
struct KdNode {
    mmsi: u32,
    lat: i64,
    lng: i64,
    depth: usize,
    left: Option<Box<KdNode>>,
    right: Option<Box<KdNode>>,
}

/// The points of an optional subtree, in preorder.
spec fn opt_points(o: Option<Box<KdNode>>) -> Seq<Point>
    decreases o,
{
    match o {
        None => Seq::empty(),
        Some(n) => n.points(),
    }
}

impl KdNode {
    /// The points of this subtree, in preorder.
    spec fn points(self) -> Seq<Point>
        decreases self,
    {
        seq![(self.mmsi, self.lat, self.lng)] + opt_points(self.left) + opt_points(self.right)
    }

    /// The splitting value: this node's own coordinate in its split dimension.
    spec fn split_value(self) -> i64 {
        if self.depth % 2 == 0 {
            self.lat
        } else {
            self.lng
        }
    }

    /// Partition-tree shape: each subtree sits one level deeper, the lower
    /// subtree's coordinates in the split dimension do not exceed the
    /// splitting value, and the upper subtree's are no less than it.
    spec fn wf(self) -> bool
        decreases self,
    {
        &&& (match self.left {
            Some(l) => {
                &&& l.wf()
                &&& l.depth == self.depth + 1
                &&& all_le(l.points(), self.depth as int % 2, self.split_value())
            },
            None => true,
        })
        &&& (match self.right {
            Some(r) => {
                &&& r.wf()
                &&& r.depth == self.depth + 1
                &&& all_ge(r.points(), self.depth as int % 2, self.split_value())
            },
            None => true,
        })
    }

    /// The split dimension of this node: 0 at even depth, 1 at odd.
    fn dimension(&self) -> (d: usize)
        ensures
            d == self.depth as int % 2,
            d < 2,
    {
        self.depth % 2
    }

    /// This node's own coordinate in the given dimension.
    fn coordinate(&self, dim: usize) -> (c: i64)
        requires
            dim < 2,
        ensures
            c == coord((self.mmsi, self.lat, self.lng), dim as int),
    {
        if dim == 0 {
            self.lat
        } else {
            self.lng
        }
    }
}

/// The ids of the points inside the closed box, in point order.
pub open spec fn ids_in_box(
    ps: Seq<Point>,
    sw_lat: i64,
    sw_lng: i64,
    ne_lat: i64,
    ne_lng: i64,
) -> Seq<u32>
    decreases ps.len(),
{
    if ps.len() == 0 {
        Seq::empty()
    } else if in_box(ps[0].1, ps[0].2, sw_lat, sw_lng, ne_lat, ne_lng) {
        seq![ps[0].0] + ids_in_box(ps.drop_first(), sw_lat, sw_lng, ne_lat, ne_lng)
    } else {
        ids_in_box(ps.drop_first(), sw_lat, sw_lng, ne_lat, ne_lng)
    }
}

/// `ids_in_box` distributes over concatenation.
proof fn lemma_ids_in_box_concat(
    a: Seq<Point>,
    b: Seq<Point>,
    sw_lat: i64,
    sw_lng: i64,
    ne_lat: i64,
    ne_lng: i64,
)
    ensures
        ids_in_box(a + b, sw_lat, sw_lng, ne_lat, ne_lng) == ids_in_box(
            a,
            sw_lat,
            sw_lng,
            ne_lat,
            ne_lng,
        ) + ids_in_box(b, sw_lat, sw_lng, ne_lat, ne_lng),
    decreases a.len(),
{
    if a.len() == 0 {
        assert(a + b =~= b);
        assert(ids_in_box(a, sw_lat, sw_lng, ne_lat, ne_lng) =~= Seq::<u32>::empty());
        assert(Seq::<u32>::empty() + ids_in_box(b, sw_lat, sw_lng, ne_lat, ne_lng) =~= ids_in_box(
            b,
            sw_lat,
            sw_lng,
            ne_lat,
            ne_lng,
        ));
    } else {
        assert((a + b)[0] == a[0]);
        assert((a + b).drop_first() =~= a.drop_first() + b);
        lemma_ids_in_box_concat(a.drop_first(), b, sw_lat, sw_lng, ne_lat, ne_lng);
        if in_box(a[0].1, a[0].2, sw_lat, sw_lng, ne_lat, ne_lng) {
            assert(seq![a[0].0] + (ids_in_box(a.drop_first(), sw_lat, sw_lng, ne_lat, ne_lng)
                + ids_in_box(b, sw_lat, sw_lng, ne_lat, ne_lng)) =~= (seq![a[0].0] + ids_in_box(
                a.drop_first(),
                sw_lat,
                sw_lng,
                ne_lat,
                ne_lng,
            )) + ids_in_box(b, sw_lat, sw_lng, ne_lat, ne_lng));
        }
    }
}

/// A run of points that all lie outside the box contributes no ids.
proof fn lemma_ids_in_box_none(
    ps: Seq<Point>,
    sw_lat: i64,
    sw_lng: i64,
    ne_lat: i64,
    ne_lng: i64,
)
    requires
        forall|i: int|
            0 <= i < ps.len() ==> !in_box(
                (#[trigger] ps[i]).1,
                ps[i].2,
                sw_lat,
                sw_lng,
                ne_lat,
                ne_lng,
            ),
    ensures
        ids_in_box(ps, sw_lat, sw_lng, ne_lat, ne_lng) == Seq::<u32>::empty(),
    decreases ps.len(),
{
    if ps.len() > 0 {
        assert(!in_box(ps[0].1, ps[0].2, sw_lat, sw_lng, ne_lat, ne_lng));
        lemma_ids_in_box_none(ps.drop_first(), sw_lat, sw_lng, ne_lat, ne_lng);
    }
}

/// An id is reported for a box exactly when some point of the run carries
/// that id and lies inside the box.
pub proof fn lemma_ids_in_box_membership(
    ps: Seq<Point>,
    sw_lat: i64,
    sw_lng: i64,
    ne_lat: i64,
    ne_lng: i64,
)
    ensures
        forall|u: u32|
            #[trigger] ids_in_box(ps, sw_lat, sw_lng, ne_lat, ne_lng).contains(u) <==> exists|i: int|
                0 <= i < ps.len() && (#[trigger] ps[i]).0 == u && in_box(
                    ps[i].1,
                    ps[i].2,
                    sw_lat,
                    sw_lng,
                    ne_lat,
                    ne_lng,
                ),
    decreases ps.len(),
{
    let r = ids_in_box(ps, sw_lat, sw_lng, ne_lat, ne_lng);
    if ps.len() == 0 {
        assert(forall|u: u32| !r.contains(u));
    } else {
        let rest = ids_in_box(ps.drop_first(), sw_lat, sw_lng, ne_lat, ne_lng);
        lemma_ids_in_box_membership(ps.drop_first(), sw_lat, sw_lng, ne_lat, ne_lng);
        assert(forall|i: int|
            0 < i < ps.len() ==> #[trigger] ps[i] == ps.drop_first()[i - 1]);
        assert forall|u: u32| #[trigger] r.contains(u) implies exists|i: int|
            0 <= i < ps.len() && (#[trigger] ps[i]).0 == u && in_box(
                ps[i].1,
                ps[i].2,
                sw_lat,
                sw_lng,
                ne_lat,
                ne_lng,
            ) by {
            if in_box(ps[0].1, ps[0].2, sw_lat, sw_lng, ne_lat, ne_lng) {
                let k = choose|k: int| 0 <= k < r.len() && r[k] == u;
                if k == 0 {
                    assert(ps[0].0 == u && in_box(
                        ps[0].1,
                        ps[0].2,
                        sw_lat,
                        sw_lng,
                        ne_lat,
                        ne_lng,
                    ));
                } else {
                    assert(rest[k - 1] == u);
                    assert(rest.contains(u));
                    let i = choose|i: int|
                        0 <= i < ps.drop_first().len() && (#[trigger] ps.drop_first()[i]).0 == u
                            && in_box(
                            ps.drop_first()[i].1,
                            ps.drop_first()[i].2,
                            sw_lat,
                            sw_lng,
                            ne_lat,
                            ne_lng,
                        );
                    assert(ps[i + 1].0 == u && in_box(
                        ps[i + 1].1,
                        ps[i + 1].2,
                        sw_lat,
                        sw_lng,
                        ne_lat,
                        ne_lng,
                    ));
                }
            } else {
                assert(rest.contains(u));
                let i = choose|i: int|
                    0 <= i < ps.drop_first().len() && (#[trigger] ps.drop_first()[i]).0 == u
                        && in_box(
                        ps.drop_first()[i].1,
                        ps.drop_first()[i].2,
                        sw_lat,
                        sw_lng,
                        ne_lat,
                        ne_lng,
                    );
                assert(ps[i + 1].0 == u && in_box(
                    ps[i + 1].1,
                    ps[i + 1].2,
                    sw_lat,
                    sw_lng,
                    ne_lat,
                    ne_lng,
                ));
            }
        }
        assert forall|u: u32|
            (exists|i: int|
                0 <= i < ps.len() && (#[trigger] ps[i]).0 == u && in_box(
                    ps[i].1,
                    ps[i].2,
                    sw_lat,
                    sw_lng,
                    ne_lat,
                    ne_lng,
                )) implies #[trigger] r.contains(u) by {
            let i = choose|i: int|
                0 <= i < ps.len() && (#[trigger] ps[i]).0 == u && in_box(
                    ps[i].1,
                    ps[i].2,
                    sw_lat,
                    sw_lng,
                    ne_lat,
                    ne_lng,
                );
            if in_box(ps[0].1, ps[0].2, sw_lat, sw_lng, ne_lat, ne_lng) {
                if i == 0 {
                    assert(r[0] == u);
                } else {
                    assert(ps.drop_first()[i - 1].0 == u);
                    assert(rest.contains(u));
                    let k = choose|k: int| 0 <= k < rest.len() && rest[k] == u;
                    assert(r[k + 1] == u);
                }
            } else {
                assert(i != 0);
                assert(ps.drop_first()[i - 1].0 == u);
                assert(rest.contains(u));
            }
        }
    }
}

/// If the run's ids are pairwise distinct, so are the reported ids.
pub proof fn lemma_ids_in_box_no_duplicates(
    ps: Seq<Point>,
    sw_lat: i64,
    sw_lng: i64,
    ne_lat: i64,
    ne_lng: i64,
)
    requires
        forall|i: int, j: int|
            0 <= i < j < ps.len() ==> (#[trigger] ps[i]).0 != (#[trigger] ps[j]).0,
    ensures
        ids_in_box(ps, sw_lat, sw_lng, ne_lat, ne_lng).no_duplicates(),
    decreases ps.len(),
{
    if ps.len() > 0 {
        assert(forall|i: int|
            0 < i < ps.len() ==> #[trigger] ps[i] == ps.drop_first()[i - 1]);
        lemma_ids_in_box_no_duplicates(ps.drop_first(), sw_lat, sw_lng, ne_lat, ne_lng);
        let rest = ids_in_box(ps.drop_first(), sw_lat, sw_lng, ne_lat, ne_lng);
        if in_box(ps[0].1, ps[0].2, sw_lat, sw_lng, ne_lat, ne_lng) {
            lemma_ids_in_box_membership(ps.drop_first(), sw_lat, sw_lng, ne_lat, ne_lng);
            assert(!rest.contains(ps[0].0));
            let r = ids_in_box(ps, sw_lat, sw_lng, ne_lat, ne_lng);
            assert forall|i: int, j: int| 0 <= i < j < r.len() implies r[i] != r[j] by {
                if i == 0 {
                    assert(r[j] == rest[j - 1]);
                    assert(rest.contains(rest[j - 1]));
                } else {
                    assert(r[i] == rest[i - 1] && r[j] == rest[j - 1]);
                }
            }
        }
    }
}

/// The partition tree.  Immutable once built: any change to the point set
/// requires a fresh `build_from_points`.
pub struct KdTree {
    root: Option<Box<KdNode>>,
}

impl KdTree {
    /// The snapshot of points this tree was built from, in preorder.
    pub closed spec fn points(self) -> Seq<Point> {
        opt_points(self.root)
    }

    /// Partition-tree shape invariant; `build_from_points` establishes it.
    pub closed spec fn wf(self) -> bool {
        match self.root {
            Some(n) => n.wf(),
            None => true,
        }
    }

    /// The empty tree.
    pub fn new() -> (t: Self)
        ensures
            t.wf(),
            t.points() == Seq::<Point>::empty(),
    {
        Self { root: None }
    }

    /// Build a balanced tree holding exactly the given points.
    pub fn build_from_points(points: Vec<Point>) -> (t: Self)
        ensures
            t.wf(),
            t.points().to_multiset() == points@.to_multiset(),
    {
        let count = points.len();
        proof {
            assert(points@.len() == count);
        }
        let root = build_recursive(points, 0);
        Self { root }
    }

    /// All ids whose stored point lies within the closed box, in preorder.
    pub fn range_query(&self, sw_lat: i64, sw_lng: i64, ne_lat: i64, ne_lng: i64) -> (r: Vec<
        u32,
    >)
        requires
            self.wf(),
        ensures
            r@ == ids_in_box(self.points(), sw_lat, sw_lng, ne_lat, ne_lng),
    {
        let mut result: Vec<u32> = Vec::new();
        match &self.root {
            Some(root) => {
                range_query_recursive(root, sw_lat, sw_lng, ne_lat, ne_lng, &mut result);
                proof {
                    assert(result@ =~= Seq::<u32>::empty() + ids_in_box(
                        self.points(),
                        sw_lat,
                        sw_lng,
                        ne_lat,
                        ne_lng,
                    ));
                }
            },
            None => {},
        }
        result
    }
}

/// Build a subtree at the given depth holding exactly the given points:
/// sort by the split dimension, take the median as the node, recurse on the
/// lower and upper halves.
fn build_recursive(points: Vec<Point>, depth: usize) -> (r: Option<Box<KdNode>>)
    requires
        depth + points@.len() <= usize::MAX,
    ensures
        r is Some <==> points@.len() > 0,
        opt_points(r).to_multiset() == points@.to_multiset(),
        r matches Some(n) ==> n.wf() && n.depth == depth,
    decreases points@.len(),
{
    if points.len() == 0 {
        proof {
            assert(opt_points(None::<Box<KdNode>>) =~= Seq::<Point>::empty());
            assert(points@ =~= Seq::<Point>::empty());
        }
        return None;
    }
    let ghost input0 = points@;
    let dim = depth % 2;
    let sorted = sort_by_dim(points, dim);
    let median = sorted.len() / 2;
    let pivot = sorted[median];
    let mut lower: Vec<Point> = Vec::new();
    let mut upper: Vec<Point> = Vec::new();
    let mut k: usize = 0;
    while k < median
        invariant
            median < sorted@.len(),
            k <= median,
            lower@ == sorted@.subrange(0, k as int),
        decreases median - k,
    {
        lower.push(sorted[k]);
        proof {
            assert(sorted@.subrange(0, k + 1 as int) =~= sorted@.subrange(0, k as int).push(
                sorted@[k as int],
            ));
        }
        k = k + 1;
    }
    let mut k2: usize = median + 1;
    while k2 < sorted.len()
        invariant
            median < sorted@.len(),
            median + 1 <= k2 <= sorted@.len(),
            upper@ == sorted@.subrange(median + 1 as int, k2 as int),
        decreases sorted@.len() - k2,
    {
        upper.push(sorted[k2]);
        proof {
            assert(sorted@.subrange(median + 1 as int, k2 + 1 as int) =~= sorted@.subrange(
                median + 1 as int,
                k2 as int,
            ).push(sorted@[k2 as int]));
        }
        k2 = k2 + 1;
    }
    let ghost sorted0 = sorted@;
    let ghost lower0 = lower@;
    let ghost upper0 = upper@;
    let left = build_recursive(lower, depth + 1);
    let right = build_recursive(upper, depth + 1);
    let node = KdNode { mmsi: pivot.0, lat: pivot.1, lng: pivot.2, depth, left, right };
    proof {
        let d = depth as int % 2;
        let v = node.split_value();
        assert(v == coord(pivot, d));
        // the lower half never exceeds the pivot in the split dimension
        assert forall|i: int| 0 <= i < opt_points(node.left).len() implies coord(
            #[trigger] opt_points(node.left)[i],
            d,
        ) <= v by {
            let p = opt_points(node.left)[i];
            assert(opt_points(node.left).contains(p));
            assert(opt_points(node.left).to_multiset().count(p) > 0);
            assert(lower0.to_multiset().count(p) > 0);
            assert(lower0.contains(p));
            let j = choose|j: int| 0 <= j < lower0.len() && lower0[j] == p;
            assert(sorted0[j] == p);
            assert(coord(sorted0[j], d) <= coord(sorted0[median as int], d));
        }
        // the upper half is never below the pivot in the split dimension
        assert forall|i: int| 0 <= i < opt_points(node.right).len() implies coord(
            #[trigger] opt_points(node.right)[i],
            d,
        ) >= v by {
            let p = opt_points(node.right)[i];
            assert(opt_points(node.right).contains(p));
            assert(opt_points(node.right).to_multiset().count(p) > 0);
            assert(upper0.to_multiset().count(p) > 0);
            assert(upper0.contains(p));
            let j = choose|j: int| 0 <= j < upper0.len() && upper0[j] == p;
            assert(sorted0[median + 1 + j] == p);
            assert(coord(sorted0[median + 1 + j], d) >= coord(sorted0[median as int], d));
        }
        assert(node.wf());
        // the node holds exactly the sorted points, hence exactly the input
        assert(sorted0 =~= (lower0 + seq![pivot]) + upper0);
        lemma_multiset_commutative(lower0 + seq![pivot], upper0);
        lemma_multiset_commutative(lower0, seq![pivot]);
        assert(node.points() == (seq![pivot] + opt_points(node.left)) + opt_points(node.right));
        lemma_multiset_commutative(seq![pivot] + opt_points(node.left), opt_points(node.right));
        lemma_multiset_commutative(seq![pivot], opt_points(node.left));
        assert(node.points().to_multiset() =~= sorted0.to_multiset());
    }
    Some(Box::new(node))
}

/// Query one subtree: report the node's own point if it is inside the box,
/// then descend into each subtree unless the box lies wholly on the far
/// side of the splitting value.
fn range_query_recursive(
    node: &KdNode,
    sw_lat: i64,
    sw_lng: i64,
    ne_lat: i64,
    ne_lng: i64,
    result: &mut Vec<u32>,
)
    requires
        node.wf(),
    ensures
        final(result)@ == old(result)@ + ids_in_box(node.points(), sw_lat, sw_lng, ne_lat, ne_lng),
    decreases *node,
{
    let ghost pt = (node.mmsi, node.lat, node.lng);
    let ghost r0 = result@;
    if node.lat >= sw_lat && node.lat <= ne_lat && node.lng >= sw_lng && node.lng <= ne_lng {
        result.push(node.mmsi);
    }
    proof {
        let e = Seq::<Point>::empty();
        assert(ids_in_box(e, sw_lat, sw_lng, ne_lat, ne_lng) =~= Seq::<u32>::empty());
        assert(seq![pt].drop_first() =~= e);
        assert(seq![pt][0] == pt);
        if in_box(pt.1, pt.2, sw_lat, sw_lng, ne_lat, ne_lng) {
            assert(ids_in_box(seq![pt], sw_lat, sw_lng, ne_lat, ne_lng) =~= seq![pt.0]
                + Seq::<u32>::empty());
            assert(seq![pt.0] + Seq::<u32>::empty() =~= seq![pt.0]);
            assert(result@ =~= r0.push(pt.0));
            assert(r0.push(pt.0) =~= r0 + seq![pt.0]);
            assert(result@ =~= r0 + ids_in_box(seq![pt], sw_lat, sw_lng, ne_lat, ne_lng));
        } else {
            assert(ids_in_box(seq![pt], sw_lat, sw_lng, ne_lat, ne_lng) =~= Seq::<u32>::empty());
            assert(r0 + Seq::<u32>::empty() =~= r0);
            assert(result@ =~= r0 + ids_in_box(seq![pt], sw_lat, sw_lng, ne_lat, ne_lng));
        }
    }
    let ghost r1 = result@;
    let dim = node.dimension();
    let split_value = node.coordinate(dim);
    let range_min = if dim == 0 {
        sw_lat
    } else {
        sw_lng
    };
    let range_max = if dim == 0 {
        ne_lat
    } else {
        ne_lng
    };
    match &node.left {
        Some(l) => {
            if range_min <= split_value {
                range_query_recursive(l, sw_lat, sw_lng, ne_lat, ne_lng, result);
            } else {
                proof {
                    let lp = opt_points(node.left);
                    assert forall|i: int| 0 <= i < lp.len() implies !in_box(
                        (#[trigger] lp[i]).1,
                        lp[i].2,
                        sw_lat,
                        sw_lng,
                        ne_lat,
                        ne_lng,
                    ) by {
                        assert(coord(lp[i], node.depth as int % 2) <= split_value);
                    }
                    lemma_ids_in_box_none(lp, sw_lat, sw_lng, ne_lat, ne_lng);
                    assert(result@ =~= r1 + ids_in_box(lp, sw_lat, sw_lng, ne_lat, ne_lng));
                }
            }
        },
        None => {
            proof {
                assert(result@ =~= r1 + ids_in_box(
                    opt_points(node.left),
                    sw_lat,
                    sw_lng,
                    ne_lat,
                    ne_lng,
                ));
            }
        },
    }
    let ghost r2 = result@;
    match &node.right {
        Some(r) => {
            if range_max >= split_value {
                range_query_recursive(r, sw_lat, sw_lng, ne_lat, ne_lng, result);
            } else {
                proof {
                    let rp = opt_points(node.right);
                    assert forall|i: int| 0 <= i < rp.len() implies !in_box(
                        (#[trigger] rp[i]).1,
                        rp[i].2,
                        sw_lat,
                        sw_lng,
                        ne_lat,
                        ne_lng,
                    ) by {
                        assert(coord(rp[i], node.depth as int % 2) >= split_value);
                    }
                    lemma_ids_in_box_none(rp, sw_lat, sw_lng, ne_lat, ne_lng);
                    assert(result@ =~= r2 + ids_in_box(rp, sw_lat, sw_lng, ne_lat, ne_lng));
                }
            }
        },
        None => {
            proof {
                assert(result@ =~= r2 + ids_in_box(
                    opt_points(node.right),
                    sw_lat,
                    sw_lng,
                    ne_lat,
                    ne_lng,
                ));
            }
        },
    }
    proof {
        let ghost lp = opt_points(node.left);
        let ghost rp = opt_points(node.right);
        lemma_ids_in_box_concat(seq![pt], lp, sw_lat, sw_lng, ne_lat, ne_lng);
        lemma_ids_in_box_concat(seq![pt] + lp, rp, sw_lat, sw_lng, ne_lat, ne_lng);
        assert(node.points() == (seq![pt] + lp) + rp);
        assert(result@ =~= r0 + ids_in_box(node.points(), sw_lat, sw_lng, ne_lat, ne_lng));
    }
}

} // verus!
