//! The vessel store: the id-to-record map, the lazily rebuilt spatial
//! index, and the staleness discipline around them.
//!
//! Writes (`insert_ship`, `update_ship`, `remove_ship`) mutate the map and
//! mark the index stale; `get` reads the map alone and never touches the
//! index; a bounding-box query rebuilds the index from the current
//! non-sentinel positions if it is stale, then answers from the tree.
//! The eviction sweep removes every record whose last update lies further
//! in the past than the time-to-live.

use vstd::prelude::*;

use std::collections::HashMap;

use crate::kdtree::{KdTree, Point, in_box, lemma_ids_in_box_membership,
    lemma_ids_in_box_no_duplicates};
use crate::ship::{Ship, ShipState, is_sentinel, state_of, valid_lat, valid_lng};

verus! {

broadcast use
    vstd::std_specs::hash::group_hash_axioms,
    vstd::seq_lib::group_to_multiset_ensures,
    vstd::multiset::group_multiset_axioms,
    vstd::set_lib::lemma_set_empty_equivalency_len;

/// A stored record is keyed by its own id and has an in-range position.
pub open spec fn valid_record(id: u32, s: Ship) -> bool {
    &&& s.mmsi == id
    &&& valid_lat(s.lat)
    &&& valid_lng(s.lng)
}

/// The tree's point set equals exactly the map's current non-sentinel
/// positions, one point per id.
pub open spec fn tree_matches(t: KdTree, m: Map<u32, Ship>) -> bool {
    &&& forall|i: int|
        0 <= i < t.points().len() ==> {
            let p = #[trigger] t.points()[i];
            &&& m.contains_key(p.0)
            &&& m[p.0].lat == p.1
            &&& m[p.0].lng == p.2
            &&& !is_sentinel(p.1, p.2)
        }
    &&& forall|id: u32|
        #[trigger] m.contains_key(id) && !is_sentinel(m[id].lat, m[id].lng)
            ==> t.points().contains((id, m[id].lat, m[id].lng))
    &&& forall|i: int, j: int|
        0 <= i < j < t.points().len() ==> (#[trigger] t.points()[i]).0 != (
        #[trigger] t.points()[j]).0
}

/// What a bounding-box listing must hold: exactly one projected state for
/// each record whose position is non-sentinel and inside the closed box,
/// and nothing else.
pub open spec fn bbox_result_matches(
    m: Map<u32, Ship>,
    r: Seq<ShipState>,
    sw_lat: i64,
    sw_lng: i64,
    ne_lat: i64,
    ne_lng: i64,
) -> bool {
    &&& forall|i: int|
        0 <= i < r.len() ==> {
            let st = #[trigger] r[i];
            &&& m.contains_key(st.mmsi)
            &&& st == state_of(m[st.mmsi])
            &&& !is_sentinel(st.lat, st.lng)
            &&& in_box(st.lat, st.lng, sw_lat, sw_lng, ne_lat, ne_lng)
        }
    &&& forall|id: u32|
        #[trigger] m.contains_key(id) && !is_sentinel(m[id].lat, m[id].lng) && in_box(
            m[id].lat,
            m[id].lng,
            sw_lat,
            sw_lng,
            ne_lat,
            ne_lng,
        ) ==> exists|i: int| 0 <= i < r.len() && (#[trigger] r[i]).mmsi == id
    &&& forall|i: int, j: int|
        0 <= i < j < r.len() ==> (#[trigger] r[i]).mmsi != (#[trigger] r[j]).mmsi
}

/// A record is stale at `now` when its last update lies more than the
/// time-to-live in the past.
pub open spec fn expired(s: Ship, now: u64, ttl: u64) -> bool {
    s.last_update + ttl < now
}

/// The vessel store.
pub struct ShipCache {
    ships: HashMap<u32, Ship>,
    ids: Vec<u32>,
    kdtree: Option<KdTree>,
    dirty: bool,
}

impl ShipCache {
    /// The abstract state: the id-to-record map.
    pub closed spec fn as_map(self) -> Map<u32, Ship> {
        self.ships@
    }

    /// The index reflects the current record set: it exists and matches the
    /// map, or the map is empty and no index is needed.
    pub closed spec fn index_fresh(self) -> bool {
        &&& !self.dirty
        &&& match self.kdtree {
            Some(t) => t.wf() && tree_matches(t, self.ships@),
            None => forall|id: u32| !(#[trigger] self.ships@.contains_key(id)),
        }
    }

    /// Store invariant: the id roster mirrors the map's domain without
    /// duplicates, every record is keyed by its own id with an in-range
    /// position, and a non-stale index matches the map.
    pub closed spec fn wf(self) -> bool {
        &&& self.ids@.no_duplicates()
        &&& forall|id: u32| #[trigger] self.ships@.contains_key(id) ==> self.ids@.contains(id)
        &&& forall|id: u32| #[trigger] self.ids@.contains(id) ==> self.ships@.contains_key(id)
        &&& forall|id: u32|
            #[trigger] self.ships@.contains_key(id) ==> valid_record(id, self.ships@[id])
        &&& !self.dirty ==> self.index_fresh()
    }

    /// An empty store with no index.
    pub fn new() -> (c: Self)
        ensures
            c.wf(),
            c@ == Map::<u32, Ship>::empty(),
            c.index_fresh(),
    {
        Self { ships: HashMap::new(), ids: Vec::new(), kdtree: None, dirty: false }
    }

    /// Insert or replace the record under `mmsi` and mark the index stale.
    pub fn insert_ship(&mut self, mmsi: u32, ship: Ship)
        requires
            old(self).wf(),
            ship.mmsi == mmsi,
            valid_lat(ship.lat),
            valid_lng(ship.lng),
        ensures
            final(self).wf(),
            final(self)@ == old(self)@.insert(mmsi, ship),
    {
        if !self.ships.contains_key(&mmsi) {
            self.ids.push(mmsi);
            proof {
                let ids1 = self.ids@;
                let ids0 = old(self).ids@;
                assert(forall|k: int| 0 <= k < ids0.len() ==> ids1[k] == ids0[k]);
                assert(ids1[ids1.len() - 1] == mmsi);
                assert(!ids0.contains(mmsi));
                assert(ids1.no_duplicates());
                assert(forall|id: u32|
                    #[trigger] ids1.contains(id) ==> ids0.contains(id) || id == mmsi) by {
                    assert forall|id: u32| #[trigger] ids1.contains(id) implies ids0.contains(id)
                        || id == mmsi by {
                        let k = choose|k: int| 0 <= k < ids1.len() && ids1[k] == id;
                        if k < ids0.len() {
                            assert(ids0[k] == id);
                        }
                    }
                }
            }
        }
        self.ships.insert(mmsi, ship);
        self.dirty = true;
    }

    /// Insert or replace the record under `mmsi`; a fresh record and a
    /// changed one both leave the index stale.
    pub fn update_ship(&mut self, mmsi: u32, ship: Ship)
        requires
            old(self).wf(),
            ship.mmsi == mmsi,
            valid_lat(ship.lat),
            valid_lng(ship.lng),
        ensures
            final(self).wf(),
            final(self)@ == old(self)@.insert(mmsi, ship),
    {
        self.insert_ship(mmsi, ship);
    }

    /// Remove the record under `mmsi` if present; a removal marks the index
    /// stale.  Returns the removed record.
    pub fn remove_ship(&mut self, mmsi: u32) -> (removed: Option<Ship>)
        requires
            old(self).wf(),
        ensures
            final(self).wf(),
            final(self)@ =~= old(self)@.remove(mmsi),
            match removed {
                Some(s) => old(self)@.contains_key(mmsi) && s == old(self)@[mmsi],
                None => !old(self)@.contains_key(mmsi),
            },
    {
        let result = self.ships.remove(&mmsi);
        if result.is_some() {
            let ghost ids0 = self.ids@;
            let mut i: usize = 0;
            while i < self.ids.len() && self.ids[i] != mmsi
                invariant
                    i <= self.ids@.len(),
                    self.ids@ == ids0,
                    forall|k: int| 0 <= k < i ==> ids0[k] != mmsi,
                decreases self.ids@.len() - i,
            {
                i = i + 1;
            }
            proof {
                assert(ids0.contains(mmsi));
                if i == ids0.len() {
                    let k = choose|k: int| 0 <= k < ids0.len() && ids0[k] == mmsi;
                    assert(false);
                }
            }
            self.ids.remove(i);
            proof {
                let ids1 = self.ids@;
                assert(ids1 == ids0.remove(i as int));
                assert(forall|k: int| 0 <= k < i ==> ids1[k] == ids0[k]);
                assert(forall|k: int| i <= k < ids1.len() ==> ids1[k] == ids0[k + 1]);
                assert(ids1.no_duplicates());
                assert forall|id: u32| #[trigger] ids1.contains(id) implies ids0.contains(id)
                    && id != mmsi by {
                    let k = choose|k: int| 0 <= k < ids1.len() && ids1[k] == id;
                    if k < i {
                        assert(ids0[k] == id);
                    } else {
                        assert(ids0[k + 1] == id);
                    }
                }
                assert forall|id: u32| #[trigger] ids0.contains(id) && id != mmsi implies
                    ids1.contains(id) by {
                    let k = choose|k: int| 0 <= k < ids0.len() && ids0[k] == id;
                    if k < i {
                        assert(ids1[k] == id);
                    } else {
                        assert(ids0[i as int] == mmsi);
                        assert(k > i);
                        assert(ids1[k - 1] == id);
                    }
                }
            }
            self.dirty = true;
        }
        result
    }

    /// Read-only lookup by id; never consults the index and never triggers
    /// a rebuild.
    pub fn get(&self, mmsi: u32) -> (r: Option<&Ship>)
        requires
            self.wf(),
        ensures
            match r {
                Some(s) => self@.contains_key(mmsi) && *s == self@[mmsi] && valid_record(
                    mmsi,
                    *s,
                ),
                None => !self@.contains_key(mmsi),
            },
    {
        self.ships.get(&mmsi)
    }

    /// Rebuild the spatial index wholesale from the current non-sentinel
    /// positions and clear the staleness flag.  The record map is untouched.
    pub fn rebuild_index(&mut self)
        requires
            old(self).wf(),
        ensures
            final(self).wf(),
            final(self)@ == old(self)@,
            final(self).index_fresh(),
    {
        if !self.ships.is_empty() {
            let ghost m = self.ships@;
            let ghost ids0 = self.ids@;
            let mut pts: Vec<Point> = Vec::new();
            let mut k: usize = 0;
            while k < self.ids.len()
                invariant
                    self.wf(),
                    self.ids@ == ids0,
                    self.ships@ == m,
                    k <= ids0.len(),
                    forall|i: int|
                        0 <= i < pts@.len() ==> {
                            let p = #[trigger] pts@[i];
                            &&& m.contains_key(p.0)
                            &&& m[p.0].lat == p.1
                            &&& m[p.0].lng == p.2
                            &&& !is_sentinel(p.1, p.2)
                        },
                    forall|j: int|
                        0 <= j < k && m.contains_key(#[trigger] ids0[j]) && !is_sentinel(
                            m[ids0[j]].lat,
                            m[ids0[j]].lng,
                        ) ==> pts@.contains((ids0[j], m[ids0[j]].lat, m[ids0[j]].lng)),
                    forall|i: int, j: int|
                        0 <= i < j < pts@.len() ==> (#[trigger] pts@[i]).0 != (
                        #[trigger] pts@[j]).0,
                    forall|i: int|
                        0 <= i < pts@.len() ==> exists|j: int|
                            0 <= j < k && ids0[j] == (#[trigger] pts@[i]).0,
                decreases ids0.len() - k,
            {
                let id = self.ids[k];
                match self.ships.get(&id) {
                    Some(s) => {
                        if !(s.lat == 0 && s.lng == 0) {
                            let ghost pts0 = pts@;
                            pts.push((id, s.lat, s.lng));
                            proof {
                                assert(pts@ == pts0.push((id, s.lat, s.lng)));
                                assert(forall|i: int|
                                    0 <= i < pts0.len() ==> pts@[i] == #[trigger] pts0[i]);
                                assert forall|i: int, j: int| 0 <= i < j < pts@.len() implies (
                                    #[trigger] pts@[i]).0 != (#[trigger] pts@[j]).0 by {
                                    if j == pts@.len() - 1 {
                                        let jj = choose|jj: int|
                                            0 <= jj < k && ids0[jj] == (#[trigger] pts0[i]).0;
                                        assert(ids0[k as int] == id);
                                    }
                                }
                                assert forall|j: int|
                                    0 <= j < k + 1 && m.contains_key(#[trigger] ids0[j])
                                        && !is_sentinel(m[ids0[j]].lat, m[ids0[j]].lng) implies
                                    pts@.contains(
                                    (ids0[j], m[ids0[j]].lat, m[ids0[j]].lng)) by {
                                    if j < k {
                                        let i = choose|i: int|
                                            0 <= i < pts0.len() && pts0[i] == (ids0[j],
                                            m[ids0[j]].lat, m[ids0[j]].lng);
                                        assert(pts@[i] == (ids0[j], m[ids0[j]].lat,
                                        m[ids0[j]].lng));
                                    } else {
                                        assert(pts@[pts@.len() - 1] == (id, s.lat, s.lng));
                                        assert(s == m[id]);
                                    }
                                }
                            }
                        }
                    },
                    None => {
                        proof {
                            assert(ids0.contains(id));
                            assert(false);
                        }
                    },
                }
                k = k + 1;
            }
            let ghost pts0 = pts@;
            let tree = KdTree::build_from_points(pts);
            proof {
                let tp = tree.points();
                // every tree point is one of the collected points
                assert forall|i: int| 0 <= i < tp.len() implies pts0.contains(
                    #[trigger] tp[i]) by {
                    assert(tp.contains(tp[i]));
                    assert(tp.to_multiset().count(tp[i]) > 0);
                    assert(pts0.to_multiset().count(tp[i]) > 0);
                }
                // and every collected point reappears in the tree
                assert forall|i: int| 0 <= i < pts0.len() implies tp.contains(
                    #[trigger] pts0[i]) by {
                    assert(pts0.contains(pts0[i]));
                    assert(pts0.to_multiset().count(pts0[i]) > 0);
                    assert(tp.to_multiset().count(pts0[i]) > 0);
                }
                // ids stay pairwise distinct: two tree points with one id
                // would be one collected point counted twice
                assert(pts0.no_duplicates());
                pts0.lemma_multiset_has_no_duplicates();
                assert forall|i: int, j: int| 0 <= i < j < tp.len() implies (
                    #[trigger] tp[i]).0 != (#[trigger] tp[j]).0 by {
                    if tp[i].0 == tp[j].0 {
                        assert(pts0.contains(tp[i]));
                        assert(pts0.contains(tp[j]));
                        assert(m[tp[i].0].lat == tp[i].1 && m[tp[i].0].lng == tp[i].2);
                        assert(m[tp[j].0].lat == tp[j].1 && m[tp[j].0].lng == tp[j].2);
                        assert(tp[i] == tp[j]);
                        let s0 = tp.subrange(0, j);
                        let s1 = tp.subrange(j, tp.len() as int);
                        assert(tp =~= s0 + s1);
                        vstd::seq_lib::lemma_multiset_commutative(s0, s1);
                        assert(s0[i] == tp[i]);
                        assert(s0.contains(tp[i]));
                        assert(s1[0] == tp[j]);
                        assert(s1.contains(tp[j]));
                        assert(tp.to_multiset().count(tp[i]) >= 2);
                        assert(pts0.to_multiset().count(tp[i]) >= 2);
                        assert(false);
                    }
                }
                assert forall|id: u32|
                    #[trigger] m.contains_key(id) && !is_sentinel(m[id].lat, m[id].lng) implies
                    tp.contains((id, m[id].lat, m[id].lng)) by {
                    assert(ids0.contains(id));
                    let j = choose|j: int| 0 <= j < ids0.len() && ids0[j] == id;
                    assert(pts0.contains((id, m[id].lat, m[id].lng)));
                    let i = choose|i: int| 0 <= i < pts0.len() && pts0[i] == (id, m[id].lat,
                        m[id].lng);
                    assert(tp.contains(pts0[i]));
                }
                assert(tree_matches(tree, m));
            }
            self.kdtree = Some(tree);
            self.dirty = false;
        } else {
            self.kdtree = None;
            self.dirty = false;
            proof {
                assert forall|id: u32| !(#[trigger] self.ships@.contains_key(id)) by {
                    if self.ships@.contains_key(id) {
                        assert(self.ships@.dom().contains(id));
                        assert(self.ships@.dom().len() > 0);
                    }
                }
            }
        }
    }

    /// Answer a box query from the (fresh) index: collect the in-box ids
    /// from the tree, then project each backing record.
    fn query_with_index(&self, sw_lat: i64, sw_lng: i64, ne_lat: i64, ne_lng: i64) -> (r: Vec<
        ShipState,
    >)
        requires
            self.wf(),
            self.index_fresh(),
        ensures
            bbox_result_matches(self@, r@, sw_lat, sw_lng, ne_lat, ne_lng),
    {
        let ghost m = self.ships@;
        let mmsis: Vec<u32> = match &self.kdtree {
            Some(t) => t.range_query(sw_lat, sw_lng, ne_lat, ne_lng),
            None => Vec::new(),
        };
        proof {
            match &self.kdtree {
                Some(t) => {
                    let tp = t.points();
                    lemma_ids_in_box_membership(tp, sw_lat, sw_lng, ne_lat, ne_lng);
                    lemma_ids_in_box_no_duplicates(tp, sw_lat, sw_lng, ne_lat, ne_lng);
                    assert forall|k: int| 0 <= k < mmsis@.len() implies {
                        let id = #[trigger] mmsis@[k];
                        &&& m.contains_key(id)
                        &&& !is_sentinel(m[id].lat, m[id].lng)
                        &&& in_box(m[id].lat, m[id].lng, sw_lat, sw_lng, ne_lat, ne_lng)
                    } by {
                        let id = mmsis@[k];
                        assert(mmsis@.contains(id));
                        let i = choose|i: int|
                            0 <= i < tp.len() && (#[trigger] tp[i]).0 == id && in_box(
                                tp[i].1,
                                tp[i].2,
                                sw_lat,
                                sw_lng,
                                ne_lat,
                                ne_lng,
                            );
                        assert(m[id].lat == tp[i].1 && m[id].lng == tp[i].2);
                    }
                    assert forall|id: u32|
                        #[trigger] m.contains_key(id) && !is_sentinel(m[id].lat, m[id].lng)
                            && in_box(
                            m[id].lat,
                            m[id].lng,
                            sw_lat,
                            sw_lng,
                            ne_lat,
                            ne_lng,
                        ) implies mmsis@.contains(id) by {
                        assert(tp.contains((id, m[id].lat, m[id].lng)));
                        let i = choose|i: int|
                            0 <= i < tp.len() && tp[i] == (id, m[id].lat, m[id].lng);
                        assert(tp[i].0 == id && in_box(
                            tp[i].1,
                            tp[i].2,
                            sw_lat,
                            sw_lng,
                            ne_lat,
                            ne_lng,
                        ));
                    }
                },
                None => {
                    assert(mmsis@.len() == 0);
                },
            }
        }
        let mut result: Vec<ShipState> = Vec::new();
        let mut k: usize = 0;
        while k < mmsis.len()
            invariant
                self.wf(),
                m == self.ships@,
                k <= mmsis@.len(),
                result@.len() == k,
                mmsis@.no_duplicates(),
                forall|i: int|
                    0 <= i < mmsis@.len() ==> {
                        let id = #[trigger] mmsis@[i];
                        &&& m.contains_key(id)
                        &&& !is_sentinel(m[id].lat, m[id].lng)
                        &&& in_box(m[id].lat, m[id].lng, sw_lat, sw_lng, ne_lat, ne_lng)
                    },
                forall|id: u32|
                    #[trigger] m.contains_key(id) && !is_sentinel(m[id].lat, m[id].lng) && in_box(
                        m[id].lat,
                        m[id].lng,
                        sw_lat,
                        sw_lng,
                        ne_lat,
                        ne_lng,
                    ) ==> mmsis@.contains(id),
                forall|i: int|
                    0 <= i < k ==> (#[trigger] result@[i]).mmsi == mmsis@[i] && result@[i]
                        == state_of(m[mmsis@[i]]),
            decreases mmsis@.len() - k,
        {
            let id = mmsis[k];
            match self.ships.get(&id) {
                Some(s) => {
                    result.push(s.to_state());
                },
                None => {
                    proof {
                        assert(mmsis@[k as int] == id);
                        assert(false);
                    }
                },
            }
            k = k + 1;
        }
        proof {
            assert forall|id: u32|
                #[trigger] m.contains_key(id) && !is_sentinel(m[id].lat, m[id].lng) && in_box(
                    m[id].lat,
                    m[id].lng,
                    sw_lat,
                    sw_lng,
                    ne_lat,
                    ne_lng,
                ) implies exists|i: int|
                0 <= i < result@.len() && (#[trigger] result@[i]).mmsi == id by {
                let i = choose|i: int| 0 <= i < mmsis@.len() && mmsis@[i] == id;
                assert(result@[i].mmsi == id);
            }
            assert forall|i: int, j: int| 0 <= i < j < result@.len() implies (
                #[trigger] result@[i]).mmsi != (#[trigger] result@[j]).mmsi by {
                assert(result@[i].mmsi == mmsis@[i] && result@[j].mmsi == mmsis@[j]);
            }
        }
        result
    }

    /// Serve a box query, rebuilding the index first if it is stale or
    /// missing.  Returns the projected states of exactly the records with
    /// a non-sentinel position inside the closed box.
    pub fn get_ships_in_bbox(&mut self, sw_lat: i64, sw_lng: i64, ne_lat: i64, ne_lng: i64) -> (r:
        Vec<ShipState>)
        requires
            old(self).wf(),
            sw_lat <= ne_lat,
            sw_lng <= ne_lng,
        ensures
            final(self).wf(),
            final(self)@ == old(self)@,
            final(self).index_fresh(),
            bbox_result_matches(old(self)@, r@, sw_lat, sw_lng, ne_lat, ne_lng),
    {
        if self.dirty || self.kdtree.is_none() {
            self.rebuild_index();
        }
        self.query_with_index(sw_lat, sw_lng, ne_lat, ne_lng)
    }

    /// Serve a box query without mutating the store: from the index when it
    /// is fresh, otherwise by a linear scan of the records.  Either way the
    /// result is exactly the non-sentinel records inside the closed box.
    pub fn get_ships_in_bbox_immutable(
        &self,
        sw_lat: i64,
        sw_lng: i64,
        ne_lat: i64,
        ne_lng: i64,
    ) -> (r: Vec<ShipState>)
        requires
            self.wf(),
            sw_lat <= ne_lat,
            sw_lng <= ne_lng,
        ensures
            bbox_result_matches(self@, r@, sw_lat, sw_lng, ne_lat, ne_lng),
    {
        if !self.dirty && self.kdtree.is_some() {
            return self.query_with_index(sw_lat, sw_lng, ne_lat, ne_lng);
        }
        let ghost m = self.ships@;
        let ghost ids0 = self.ids@;
        let mut result: Vec<ShipState> = Vec::new();
        let mut k: usize = 0;
        while k < self.ids.len()
            invariant
                self.wf(),
                m == self.ships@,
                ids0 == self.ids@,
                k <= ids0.len(),
                forall|i: int|
                    0 <= i < result@.len() ==> {
                        let st = #[trigger] result@[i];
                        &&& m.contains_key(st.mmsi)
                        &&& st == state_of(m[st.mmsi])
                        &&& !is_sentinel(st.lat, st.lng)
                        &&& in_box(st.lat, st.lng, sw_lat, sw_lng, ne_lat, ne_lng)
                    },
                forall|j: int|
                    0 <= j < k && m.contains_key(#[trigger] ids0[j]) && !is_sentinel(
                        m[ids0[j]].lat,
                        m[ids0[j]].lng,
                    ) && in_box(
                        m[ids0[j]].lat,
                        m[ids0[j]].lng,
                        sw_lat,
                        sw_lng,
                        ne_lat,
                        ne_lng,
                    ) ==> exists|i: int|
                        0 <= i < result@.len() && (#[trigger] result@[i]).mmsi == ids0[j],
                forall|i: int|
                    0 <= i < result@.len() ==> exists|j: int|
                        0 <= j < k && ids0[j] == (#[trigger] result@[i]).mmsi,
                forall|i: int, j: int|
                    0 <= i < j < result@.len() ==> (#[trigger] result@[i]).mmsi != (
                    #[trigger] result@[j]).mmsi,
            decreases ids0.len() - k,
        {
            let id = self.ids[k];
            match self.ships.get(&id) {
                Some(s) => {
                    if s.lat >= sw_lat && s.lat <= ne_lat && s.lng >= sw_lng && s.lng <= ne_lng
                        && !(s.lat == 0 && s.lng == 0) {
                        let ghost result0 = result@;
                        result.push(s.to_state());
                        proof {
                            assert(result@ == result0.push(state_of(m[id])));
                            assert(forall|i: int|
                                0 <= i < result0.len() ==> result@[i] == #[trigger] result0[i]);
                            assert(result@[result@.len() - 1].mmsi == id);
                            assert forall|i: int, j: int| 0 <= i < j < result@.len() implies (
                                #[trigger] result@[i]).mmsi != (#[trigger] result@[j]).mmsi by {
                                if j == result@.len() - 1 {
                                    let jj = choose|jj: int|
                                        0 <= jj < k && ids0[jj] == (#[trigger] result0[i]).mmsi;
                                    assert(ids0[k as int] == id);
                                }
                            }
                        }
                    }
                },
                None => {
                    proof {
                        assert(ids0.contains(id));
                        assert(false);
                    }
                },
            }
            k = k + 1;
        }
        proof {
            assert forall|id: u32|
                #[trigger] m.contains_key(id) && !is_sentinel(m[id].lat, m[id].lng) && in_box(
                    m[id].lat,
                    m[id].lng,
                    sw_lat,
                    sw_lng,
                    ne_lat,
                    ne_lng,
                ) implies exists|i: int|
                0 <= i < result@.len() && (#[trigger] result@[i]).mmsi == id by {
                assert(ids0.contains(id));
                let j = choose|j: int| 0 <= j < ids0.len() && ids0[j] == id;
            }
        }
        result
    }

    /// Mark the index stale and rebuild it at once.
    pub fn force_rebuild(&mut self)
        requires
            old(self).wf(),
        ensures
            final(self).wf(),
            final(self)@ == old(self)@,
            final(self).index_fresh(),
    {
        self.dirty = true;
        self.rebuild_index();
    }

    /// One eviction pass at time `now`: remove every record whose last
    /// update lies more than `ttl` seconds in the past, and no other.
    /// Returns how many records were removed; the survivors are untouched.
    pub fn sweep_expired(&mut self, now: u64, ttl: u64) -> (removed: usize)
        requires
            old(self).wf(),
        ensures
            final(self).wf(),
            forall|id: u32|
                #[trigger] final(self)@.contains_key(id) <==> old(self)@.contains_key(id)
                    && !expired(old(self)@[id], now, ttl),
            forall|id: u32|
                #[trigger] final(self)@.contains_key(id) ==> final(self)@[id] == old(self)@[id],
            removed + final(self)@.dom().len() == old(self)@.dom().len(),
    {
        let ghost m = self.ships@;
        let ghost ids0 = self.ids@;
        let mut stale: Vec<u32> = Vec::new();
        let mut k: usize = 0;
        while k < self.ids.len()
            invariant
                self.wf(),
                m == self.ships@,
                ids0 == self.ids@,
                k <= ids0.len(),
                forall|i: int|
                    0 <= i < stale@.len() ==> m.contains_key(#[trigger] stale@[i]) && expired(
                        m[stale@[i]],
                        now,
                        ttl,
                    ),
                forall|j: int|
                    0 <= j < k && m.contains_key(#[trigger] ids0[j]) && expired(
                        m[ids0[j]],
                        now,
                        ttl,
                    ) ==> stale@.contains(ids0[j]),
                forall|i: int|
                    0 <= i < stale@.len() ==> exists|j: int|
                        0 <= j < k && ids0[j] == (#[trigger] stale@[i]),
                stale@.no_duplicates(),
            decreases ids0.len() - k,
        {
            let id = self.ids[k];
            match self.ships.get(&id) {
                Some(s) => {
                    if s.last_update < now && now - s.last_update > ttl {
                        let ghost stale0 = stale@;
                        stale.push(id);
                        proof {
                            assert(forall|i: int|
                                0 <= i < stale0.len() ==> stale@[i] == #[trigger] stale0[i]);
                            assert(stale@[stale@.len() - 1] == id);
                            assert forall|i: int, j: int| 0 <= i < j < stale@.len() implies
                                stale@[i] != stale@[j] by {
                                if j == stale@.len() - 1 {
                                    let jj = choose|jj: int|
                                        0 <= jj < k && ids0[jj] == (#[trigger] stale0[i]);
                                    assert(ids0[k as int] == id);
                                }
                            }
                        }
                    }
                },
                None => {
                    proof {
                        assert(ids0.contains(id));
                        assert(false);
                    }
                },
            }
            k = k + 1;
        }
        let mut r: usize = 0;
        while r < stale.len()
            invariant
                self.wf(),
                r <= stale@.len(),
                forall|i: int|
                    0 <= i < stale@.len() ==> m.contains_key(#[trigger] stale@[i]) && expired(
                        m[stale@[i]],
                        now,
                        ttl,
                    ),
                forall|id: u32|
                    #[trigger] m.contains_key(id) && expired(m[id], now, ttl) ==> stale@.contains(
                        id,
                    ),
                stale@.no_duplicates(),
                forall|id: u32|
                    #[trigger] self.ships@.contains_key(id) <==> m.contains_key(id)
                        && !stale@.subrange(0, r as int).contains(id),
                forall|id: u32|
                    #[trigger] self.ships@.contains_key(id) ==> self.ships@[id] == m[id],
                r + self.ships@.dom().len() == m.dom().len(),
            decreases stale@.len() - r,
        {
            let id = stale[r];
            let ghost pre = self.ships@;
            self.remove_ship(id);
            proof {
                assert(stale@.subrange(0, r as int + 1) =~= stale@.subrange(0, r as int).push(
                    id,
                ));
                assert forall|x: u32| #[trigger] stale@.subrange(0, r as int + 1).contains(x)
                    implies stale@.subrange(0, r as int).contains(x) || x == id by {
                    let sub = stale@.subrange(0, r as int + 1);
                    let q = choose|q: int| 0 <= q < sub.len() && #[trigger] sub[q] == x;
                    if q < r {
                        assert(stale@.subrange(0, r as int)[q] == x);
                    }
                }
                assert forall|x: u32|
                    stale@.subrange(0, r as int).contains(x) || x == id implies
                    #[trigger] stale@.subrange(0, r as int + 1).contains(x) by {
                    let sub0 = stale@.subrange(0, r as int);
                    let sub1 = stale@.subrange(0, r as int + 1);
                    if sub0.contains(x) {
                        let q = choose|q: int| 0 <= q < sub0.len() && #[trigger] sub0[q] == x;
                        assert(sub1[q] == x);
                    } else {
                        assert(sub1[r as int] == x);
                    }
                }
                // the id was still present, so the domain shrinks by one
                assert(!stale@.subrange(0, r as int).contains(id)) by {
                    if stale@.subrange(0, r as int).contains(id) {
                        let q = choose|q: int|
                            0 <= q < r && stale@.subrange(0, r as int)[q] == id;
                        assert(stale@[q] == id && stale@[r as int] == id);
                    }
                }
                assert(pre.contains_key(id));
                assert(self.ships@.dom() =~= pre.dom().remove(id));
            }
            r = r + 1;
        }
        proof {
            assert(stale@.subrange(0, stale@.len() as int) =~= stale@);
        }
        stale.len()
    }

    /// Number of records, sentinel positions included.
    pub fn len(&self) -> (n: usize)
        ensures
            n == self@.dom().len(),
    {
        self.ships.len()
    }

    /// Whether the store holds no records at all.
    pub fn is_empty(&self) -> (e: bool)
        ensures
            e == (self@.dom().len() == 0),
    {
        self.ships.is_empty()
    }
}

impl View for ShipCache {
    type V = Map<u32, Ship>;

    open spec fn view(&self) -> Map<u32, Ship> {
        self.as_map()
    }
}

/// Law: box queries are a pure function of the record map.  Any two
/// listings for the same map and the same box — in particular the results
/// of querying twice with no intervening mutation, whether or not the
/// index was rebuilt in between — hold exactly the same states.
pub proof fn lemma_query_results_agree(
    m: Map<u32, Ship>,
    r1: Seq<ShipState>,
    r2: Seq<ShipState>,
    sw_lat: i64,
    sw_lng: i64,
    ne_lat: i64,
    ne_lng: i64,
)
    requires
        bbox_result_matches(m, r1, sw_lat, sw_lng, ne_lat, ne_lng),
        bbox_result_matches(m, r2, sw_lat, sw_lng, ne_lat, ne_lng),
    ensures
        forall|st: ShipState| r1.contains(st) <==> r2.contains(st),
        r1.len() == r2.len(),
{
    assert forall|st: ShipState| r1.contains(st) implies r2.contains(st) by {
        lemma_result_member_carries(m, r1, r2, sw_lat, sw_lng, ne_lat, ne_lng, st);
    }
    assert forall|st: ShipState| r2.contains(st) implies r1.contains(st) by {
        lemma_result_member_carries(m, r2, r1, sw_lat, sw_lng, ne_lat, ne_lng, st);
    }
    lemma_result_len(m, r1, r2, sw_lat, sw_lng, ne_lat, ne_lng);
}

/// A state listed by one valid result for a map and box is listed by any
/// other valid result for the same map and box.
proof fn lemma_result_member_carries(
    m: Map<u32, Ship>,
    r1: Seq<ShipState>,
    r2: Seq<ShipState>,
    sw_lat: i64,
    sw_lng: i64,
    ne_lat: i64,
    ne_lng: i64,
    st: ShipState,
)
    requires
        bbox_result_matches(m, r1, sw_lat, sw_lng, ne_lat, ne_lng),
        bbox_result_matches(m, r2, sw_lat, sw_lng, ne_lat, ne_lng),
        r1.contains(st),
    ensures
        r2.contains(st),
{
    let i = choose|i: int| 0 <= i < r1.len() && r1[i] == st;
    assert(m.contains_key(st.mmsi) && st == state_of(m[st.mmsi]));
    assert(st.lat == m[st.mmsi].lat && st.lng == m[st.mmsi].lng);
    let j = choose|j: int| 0 <= j < r2.len() && r2[j].mmsi == st.mmsi;
    assert(r2[j] == state_of(m[st.mmsi]));
}

/// Two valid results for one map and box have the same length: their id
/// sequences are duplicate-free and have the same members.
proof fn lemma_result_len(
    m: Map<u32, Ship>,
    r1: Seq<ShipState>,
    r2: Seq<ShipState>,
    sw_lat: i64,
    sw_lng: i64,
    ne_lat: i64,
    ne_lng: i64,
)
    requires
        bbox_result_matches(m, r1, sw_lat, sw_lng, ne_lat, ne_lng),
        bbox_result_matches(m, r2, sw_lat, sw_lng, ne_lat, ne_lng),
    ensures
        r1.len() == r2.len(),
{
    let f = |st: ShipState| st.mmsi;
    let ids1 = r1.map_values(f);
    let ids2 = r2.map_values(f);
    assert(ids1.no_duplicates());
    assert(ids2.no_duplicates());
    assert forall|id: u32| ids1.contains(id) <==> ids2.contains(id) by {
        if ids1.contains(id) {
            let i = choose|i: int| 0 <= i < ids1.len() && ids1[i] == id;
            assert(r1[i].mmsi == id);
            assert(r1[i].lat == m[id].lat && r1[i].lng == m[id].lng);
            let j = choose|j: int| 0 <= j < r2.len() && (#[trigger] r2[j]).mmsi == id;
            assert(ids2[j] == id);
        }
        if ids2.contains(id) {
            let i = choose|i: int| 0 <= i < ids2.len() && ids2[i] == id;
            assert(r2[i].mmsi == id);
            assert(r2[i].lat == m[id].lat && r2[i].lng == m[id].lng);
            let j = choose|j: int| 0 <= j < r1.len() && (#[trigger] r1[j]).mmsi == id;
            assert(ids1[j] == id);
        }
    }
    assert(ids1.to_set() =~= ids2.to_set());
    ids1.unique_seq_to_set();
    ids2.unique_seq_to_set();
}

} // verus!
