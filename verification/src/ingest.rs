//! Folding feed frames into the store.
//!
//! Each frame names a vessel id; the store's record for that id is created
//! on first sight and then updated in arrival order.  The frame's kind
//! selects which field group is rewritten; the envelope is refreshed either
//! way.  A malformed frame — one that failed to parse upstream, or one
//! whose position is out of range — is dropped whole and leaves the store
//! exactly as it was.

use vstd::prelude::*;

use crate::ais::AisMessage;
use crate::cache::ShipCache;
use crate::ship::{Ship, envelope_applied, is_new_ship, position_applied, static_applied,
    valid_lat, valid_lng};

verus! {

/// A frame that carries a position report under the position kind name.
pub open spec fn is_position_kind(msg: AisMessage) -> bool {
    msg.message_type@ == "PositionReport"@ && msg.message.position_report is Some
}

/// A frame that carries static data under the static kind name.
pub open spec fn is_static_kind(msg: AisMessage) -> bool {
    msg.message_type@ == "ShipStaticData"@ && msg.message.ship_static_data is Some
}

/// The record an existing base turns into under one frame: the field group
/// of the frame's kind is rewritten, the envelope is refreshed, and a frame
/// of unknown kind (or with a missing payload) refreshes the envelope only.
pub open spec fn updated_record(base: Ship, msg: AisMessage, now: u64) -> Ship {
    if is_position_kind(msg) {
        position_applied(base, msg.metadata, msg.message.position_report->Some_0, now)
    } else if is_static_kind(msg) {
        static_applied(base, msg.metadata, msg.message.ship_static_data->Some_0, now)
    } else {
        envelope_applied(base, msg.metadata, now)
    }
}

/// The record a previously-unseen id gets from its first frame: a
/// default-initialized record with the frame applied.
pub open spec fn is_fresh_record(r: Ship, msg: AisMessage, now: u64) -> bool {
    exists|base: Ship|
        is_new_ship(base, msg.metadata.mmsi, msg.metadata.ship_name) && r == updated_record(
            base,
            msg,
            now,
        )
}

/// How one frame moves the store's map: the named record is created or
/// updated, every other record is untouched.
pub open spec fn store_updated(
    pre: Map<u32, Ship>,
    post: Map<u32, Ship>,
    msg: AisMessage,
    now: u64,
) -> bool {
    let id = msg.metadata.mmsi;
    &&& post.dom() == pre.dom().insert(id)
    &&& forall|k: u32| k != id && #[trigger] pre.contains_key(k) ==> post[k] == pre[k]
    &&& (pre.contains_key(id) ==> post[id] == updated_record(pre[id], msg, now))
    &&& (!pre.contains_key(id) ==> is_fresh_record(post[id], msg, now))
}

/// An owned copy of a record.
fn clone_ship(s: &Ship) -> (r: Ship)
    ensures
        r == *s,
{
    Ship {
        mmsi: s.mmsi,
        name: s.name.clone(),
        lat: s.lat,
        lng: s.lng,
        heading: s.heading,
        speed: s.speed,
        nav_status: s.nav_status,
        ship_type: s.ship_type,
        destination: s.destination.clone(),
        imo_number: s.imo_number,
        last_update: s.last_update,
    }
}

/// Fold one well-formed frame into the store: look up or create the record
/// for the frame's id, apply the frame's field groups, and mark the index
/// stale.  Out-of-range positions are filtered upstream (`process_frame`).
pub fn process_ais_message(cache: &mut ShipCache, message: AisMessage, now: u64)
    requires
        old(cache).wf(),
        valid_lat(message.metadata.latitude),
        valid_lng(message.metadata.longitude),
    ensures
        final(cache).wf(),
        store_updated(old(cache)@, final(cache)@, message, now),
{
    let mmsi = message.metadata.mmsi;
    let mut rec: Ship = match cache.get(mmsi) {
        Some(s) => clone_ship(s),
        None => Ship::new(mmsi, message.metadata.ship_name.clone()),
    };
    let ghost base = rec;
    let is_position = message.message_type == "PositionReport".to_owned();
    let is_static = message.message_type == "ShipStaticData".to_owned();
    proof {
        reveal_strlit("PositionReport");
        reveal_strlit("ShipStaticData");
        assert("PositionReport"@[0] == 'P');
        assert("ShipStaticData"@[0] == 'S');
        assert("PositionReport"@ != "ShipStaticData"@);
    }
    if is_position {
        match &message.message.position_report {
            Some(p) => rec.apply_position(&message.metadata, p, now),
            None => rec.apply_envelope(&message.metadata, now),
        }
    } else if is_static {
        match &message.message.ship_static_data {
            Some(d) => rec.apply_static(&message.metadata, d, now),
            None => rec.apply_envelope(&message.metadata, now),
        }
    } else {
        rec.apply_envelope(&message.metadata, now);
    }
    proof {
        assert(rec == updated_record(base, message, now));
    }
    cache.insert_ship(mmsi, rec);
    proof {
        assert(final(cache)@.dom() =~= old(cache)@.dom().insert(mmsi));
    }
}

/// Fold one frame into the store if it is well formed; drop it whole if it
/// is malformed (failed to parse upstream, or carries an out-of-range
/// position).  Returns whether the frame was applied; a dropped frame
/// leaves the store exactly as it was.
pub fn process_frame(cache: &mut ShipCache, frame: Option<AisMessage>, now: u64) -> (applied:
    bool)
    requires
        old(cache).wf(),
    ensures
        final(cache).wf(),
        applied == match frame {
            Some(msg) => valid_lat(msg.metadata.latitude) && valid_lng(msg.metadata.longitude),
            None => false,
        },
        !applied ==> final(cache)@ == old(cache)@,
        applied ==> store_updated(old(cache)@, final(cache)@, frame->Some_0, now),
    {
    match frame {
        Some(msg) => {
            let lat_ok = msg.metadata.latitude >= -90_000_000 && msg.metadata.latitude
                <= 90_000_000;
            let lng_ok = msg.metadata.longitude >= -180_000_000 && msg.metadata.longitude
                <= 180_000_000;
            if lat_ok && lng_ok {
                process_ais_message(cache, msg, now);
                true
            } else {
                false
            }
        },
        None => false,
    }
}

/// Law: a dropped frame leaves the store exactly as it was, so a following
/// well-formed frame applies to precisely the state the earlier traffic
/// left behind — one malformed frame between two well-formed ones cannot
/// keep the second from updating its record.
pub proof fn lemma_dropped_frame_harmless(
    before: Map<u32, Ship>,
    after_bad: Map<u32, Ship>,
    after_good: Map<u32, Ship>,
    good: AisMessage,
    now: u64,
)
    requires
        after_bad == before,
        store_updated(after_bad, after_good, good, now),
    ensures
        store_updated(before, after_good, good, now),
        after_good.contains_key(good.metadata.mmsi),
{
    assert(after_good.dom().contains(good.metadata.mmsi));
}

} // verus!
