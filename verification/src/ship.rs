//! Per-vessel record and its update rules.
//!
//! A record is created on the first event naming an unseen id, with defaulted
//! fields and the sentinel position `(0, 0)` ("position unknown").  Field
//! groups update independently: a position-kind event rewrites only heading,
//! speed and navigational status; a static-kind event rewrites only vessel
//! type, destination and registry number; every event refreshes the shared
//! envelope fields (name, position, last-update time).

use vstd::prelude::*;

use crate::ais::{Metadata, PositionReport, ShipStaticData};

verus! {

/// Latitudes are in microdegrees, within the WGS84 range.
pub open spec fn valid_lat(lat: i64) -> bool {
    -90_000_000 <= lat <= 90_000_000
}

/// Longitudes are in microdegrees, within the WGS84 range.
pub open spec fn valid_lng(lng: i64) -> bool {
    -180_000_000 <= lng <= 180_000_000
}

/// The reserved pair meaning "position unknown"; such records never appear
/// in spatial query results.
pub open spec fn is_sentinel(lat: i64, lng: i64) -> bool {
    lat == 0 && lng == 0
}

/// The full per-vessel record.
pub struct Ship {
    pub mmsi: u32,
    pub name: String,
    pub lat: i64,
    pub lng: i64,
    pub heading: u32,
    pub speed: u32,
    pub nav_status: u32,
    pub ship_type: u32,
    pub destination: String,
    pub imo_number: u32,
    pub last_update: u64,
}

/// The projected read-only view used for bounding-box listings: identity,
/// name, position, heading, speed, vessel type and last-update time.
pub struct ShipState {
    pub mmsi: u32,
    pub name: String,
    pub lat: i64,
    pub lng: i64,
    pub heading: u32,
    pub speed: u32,
    pub ship_type: u32,
    pub last_update: u64,
}

/// The default-initialized record for a previously-unseen id: the given id
/// and name, zeroed numeric fields, empty destination, sentinel position.
pub open spec fn is_new_ship(s: Ship, mmsi: u32, name: String) -> bool {
    &&& s.mmsi == mmsi
    &&& s.name == name
    &&& s.lat == 0
    &&& s.lng == 0
    &&& s.heading == 0
    &&& s.speed == 0
    &&& s.nav_status == 0
    &&& s.ship_type == 0
    &&& s.destination@ == Seq::<char>::empty()
    &&& s.imo_number == 0
    &&& s.last_update == 0
}

/// The record after a position-kind event: envelope refreshed, position
/// field group rewritten, static field group untouched.
pub open spec fn position_applied(s: Ship, meta: Metadata, p: PositionReport, now: u64) -> Ship {
    Ship {
        mmsi: s.mmsi,
        name: meta.ship_name,
        lat: meta.latitude,
        lng: meta.longitude,
        heading: p.true_heading,
        speed: p.sog,
        nav_status: p.navigational_status,
        ship_type: s.ship_type,
        destination: s.destination,
        imo_number: s.imo_number,
        last_update: now,
    }
}

/// The record after a static-kind event: envelope refreshed, static field
/// group rewritten, position field group untouched.
pub open spec fn static_applied(s: Ship, meta: Metadata, d: ShipStaticData, now: u64) -> Ship {
    Ship {
        mmsi: s.mmsi,
        name: meta.ship_name,
        lat: meta.latitude,
        lng: meta.longitude,
        heading: s.heading,
        speed: s.speed,
        nav_status: s.nav_status,
        ship_type: d.ship_type,
        destination: d.destination,
        imo_number: d.imo_number,
        last_update: now,
    }
}

/// The record after an event of unknown kind, or one whose payload is
/// missing: only the envelope is refreshed.
pub open spec fn envelope_applied(s: Ship, meta: Metadata, now: u64) -> Ship {
    Ship {
        mmsi: s.mmsi,
        name: meta.ship_name,
        lat: meta.latitude,
        lng: meta.longitude,
        heading: s.heading,
        speed: s.speed,
        nav_status: s.nav_status,
        ship_type: s.ship_type,
        destination: s.destination,
        imo_number: s.imo_number,
        last_update: now,
    }
}

/// The projection of a record to its listing view.
pub open spec fn state_of(s: Ship) -> ShipState {
    ShipState {
        mmsi: s.mmsi,
        name: s.name,
        lat: s.lat,
        lng: s.lng,
        heading: s.heading,
        speed: s.speed,
        ship_type: s.ship_type,
        last_update: s.last_update,
    }
}

impl Ship {
    /// A default-initialized record with the given id and name, zeroed
    /// numeric fields and the sentinel position.
    pub fn new(mmsi: u32, name: String) -> (s: Self)
        ensures
            is_new_ship(s, mmsi, name),
    {
        Self {
            mmsi,
            name,
            lat: 0,
            lng: 0,
            heading: 0,
            speed: 0,
            nav_status: 0,
            ship_type: 0,
            destination: String::new(),
            imo_number: 0,
            last_update: 0,
        }
    }

    /// The projected read-only state of this record.
    pub fn to_state(&self) -> (r: ShipState)
        ensures
            r == state_of(*self),
    {
        ShipState {
            mmsi: self.mmsi,
            name: self.name.clone(),
            lat: self.lat,
            lng: self.lng,
            heading: self.heading,
            speed: self.speed,
            ship_type: self.ship_type,
            last_update: self.last_update,
        }
    }

    /// Apply a position-kind event: refresh the envelope, rewrite the
    /// position field group, leave the static field group untouched.
    pub fn apply_position(&mut self, meta: &Metadata, p: &PositionReport, now: u64)
        ensures
            *final(self) == position_applied(*old(self), *meta, *p, now),
    {
        self.name = meta.ship_name.clone();
        self.lat = meta.latitude;
        self.lng = meta.longitude;
        self.heading = p.true_heading;
        self.speed = p.sog;
        self.nav_status = p.navigational_status;
        self.last_update = now;
    }

    /// Apply a static-kind event: refresh the envelope, rewrite the static
    /// field group, leave the position field group untouched.
    pub fn apply_static(&mut self, meta: &Metadata, d: &ShipStaticData, now: u64)
        ensures
            *final(self) == static_applied(*old(self), *meta, *d, now),
    {
        self.name = meta.ship_name.clone();
        self.lat = meta.latitude;
        self.lng = meta.longitude;
        self.ship_type = d.ship_type;
        self.destination = d.destination.clone();
        self.imo_number = d.imo_number;
        self.last_update = now;
    }

    /// Apply an event of unknown kind: refresh only the envelope.
    pub fn apply_envelope(&mut self, meta: &Metadata, now: u64)
        ensures
            *final(self) == envelope_applied(*old(self), *meta, now),
    {
        self.name = meta.ship_name.clone();
        self.lat = meta.latitude;
        self.lng = meta.longitude;
        self.last_update = now;
    }
}

/// The record after a whole sequence of position-kind events, applied in
/// arrival order.
pub open spec fn positions_applied(
    s: Ship,
    ups: Seq<(Metadata, PositionReport, u64)>,
) -> Ship
    decreases ups.len(),
{
    if ups.len() == 0 {
        s
    } else {
        positions_applied(position_applied(s, ups[0].0, ups[0].1, ups[0].2), ups.drop_first())
    }
}

/// Law: after any non-empty sequence of position-kind events, the position
/// field group and the envelope hold exactly the values of the last event,
/// and the static field group is what it was before the sequence.
pub proof fn lemma_last_position_wins(s: Ship, ups: Seq<(Metadata, PositionReport, u64)>)
    requires
        ups.len() > 0,
    ensures
        ({
            let r = positions_applied(s, ups);
            let last = ups.last();
            &&& r.heading == last.1.true_heading
            &&& r.speed == last.1.sog
            &&& r.nav_status == last.1.navigational_status
            &&& r.name == last.0.ship_name
            &&& r.lat == last.0.latitude
            &&& r.lng == last.0.longitude
            &&& r.last_update == last.2
            &&& r.mmsi == s.mmsi
            &&& r.ship_type == s.ship_type
            &&& r.destination == s.destination
            &&& r.imo_number == s.imo_number
        }),
    decreases ups.len(),
{
    let s1 = position_applied(s, ups[0].0, ups[0].1, ups[0].2);
    assert(positions_applied(s, ups) == positions_applied(s1, ups.drop_first()));
    if ups.len() == 1 {
        assert(ups.drop_first().len() == 0);
        assert(positions_applied(s1, ups.drop_first()) == s1);
        assert(ups.last() == ups[0]);
    } else {
        lemma_last_position_wins(s1, ups.drop_first());
        assert(ups.drop_first().last() == ups.last());
    }
}

/// The record after a whole sequence of static-kind events, applied in
/// arrival order.
pub open spec fn statics_applied(
    s: Ship,
    ups: Seq<(Metadata, ShipStaticData, u64)>,
) -> Ship
    decreases ups.len(),
{
    if ups.len() == 0 {
        s
    } else {
        statics_applied(static_applied(s, ups[0].0, ups[0].1, ups[0].2), ups.drop_first())
    }
}

/// Law: after any non-empty sequence of static-kind events, the static field
/// group and the envelope hold exactly the values of the last event, and the
/// position field group is what it was before the sequence.
pub proof fn lemma_last_static_wins(s: Ship, ups: Seq<(Metadata, ShipStaticData, u64)>)
    requires
        ups.len() > 0,
    ensures
        ({
            let r = statics_applied(s, ups);
            let last = ups.last();
            &&& r.ship_type == last.1.ship_type
            &&& r.destination == last.1.destination
            &&& r.imo_number == last.1.imo_number
            &&& r.name == last.0.ship_name
            &&& r.lat == last.0.latitude
            &&& r.lng == last.0.longitude
            &&& r.last_update == last.2
            &&& r.mmsi == s.mmsi
            &&& r.heading == s.heading
            &&& r.speed == s.speed
            &&& r.nav_status == s.nav_status
        }),
    decreases ups.len(),
{
    let s1 = static_applied(s, ups[0].0, ups[0].1, ups[0].2);
    assert(statics_applied(s, ups) == statics_applied(s1, ups.drop_first()));
    if ups.len() == 1 {
        assert(ups.drop_first().len() == 0);
        assert(statics_applied(s1, ups.drop_first()) == s1);
        assert(ups.last() == ups[0]);
    } else {
        lemma_last_static_wins(s1, ups.drop_first());
        assert(ups.drop_first().last() == ups.last());
    }
}

} // verus!
