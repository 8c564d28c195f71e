//! Folding feed frames into the store: field groups, malformed frames,
//! and the handshake decision.

use seawatch::{AisMessage, AuthError, AuthMessage, MessageData, Metadata, PositionReport,
    Ship, ShipCache, ShipStaticData, auth_reply_ok, process_ais_message, process_frame};

fn meta(mmsi: u32, name: &str, lat: i64, lng: i64) -> Metadata {
    Metadata {
        mmsi,
        ship_name: name.to_string(),
        latitude: lat,
        longitude: lng,
        time_utc: String::new(),
    }
}

fn position_frame(mmsi: u32, name: &str, lat: i64, lng: i64, p: PositionReport) -> AisMessage {
    AisMessage {
        message_type: "PositionReport".to_string(),
        metadata: meta(mmsi, name, lat, lng),
        message: MessageData { position_report: Some(p), ship_static_data: None },
    }
}

fn static_frame(mmsi: u32, name: &str, lat: i64, lng: i64, d: ShipStaticData) -> AisMessage {
    AisMessage {
        message_type: "ShipStaticData".to_string(),
        metadata: meta(mmsi, name, lat, lng),
        message: MessageData { position_report: None, ship_static_data: Some(d) },
    }
}

#[test]
fn first_frame_creates_record() {
    let mut cache = ShipCache::new();
    let frame = position_frame(
        7,
        "Newcomer",
        10_000_000,
        20_000_000,
        PositionReport { cog: 123, navigational_status: 5, sog: 88, true_heading: 270 },
    );
    process_ais_message(&mut cache, frame, 1000);

    let s: &Ship = cache.get(7).unwrap();
    assert_eq!(s.mmsi, 7);
    assert_eq!(s.name, "Newcomer");
    assert_eq!(s.lat, 10_000_000);
    assert_eq!(s.lng, 20_000_000);
    assert_eq!(s.heading, 270);
    assert_eq!(s.speed, 88);
    assert_eq!(s.nav_status, 5);
    assert_eq!(s.last_update, 1000);
    // static group still defaulted
    assert_eq!(s.ship_type, 0);
    assert_eq!(s.destination, "");
    assert_eq!(s.imo_number, 0);
}

#[test]
fn last_position_update_wins_and_static_group_untouched() {
    let mut cache = ShipCache::new();
    process_ais_message(
        &mut cache,
        static_frame(
            7,
            "Vessel",
            1_000_000,
            1_000_000,
            ShipStaticData { ship_type: 70, destination: "ROTTERDAM".to_string(), imo_number: 42 },
        ),
        100,
    );
    process_ais_message(
        &mut cache,
        position_frame(
            7,
            "Vessel",
            2_000_000,
            2_000_000,
            PositionReport { cog: 1, navigational_status: 1, sog: 10, true_heading: 10 },
        ),
        200,
    );
    process_ais_message(
        &mut cache,
        position_frame(
            7,
            "Vessel",
            3_000_000,
            3_000_000,
            PositionReport { cog: 2, navigational_status: 2, sog: 20, true_heading: 20 },
        ),
        300,
    );

    let s = cache.get(7).unwrap();
    // position group holds the last position frame's values
    assert_eq!(s.lat, 3_000_000);
    assert_eq!(s.lng, 3_000_000);
    assert_eq!(s.heading, 20);
    assert_eq!(s.speed, 20);
    assert_eq!(s.nav_status, 2);
    assert_eq!(s.last_update, 300);
    // static group still holds the earlier static frame's values
    assert_eq!(s.ship_type, 70);
    assert_eq!(s.destination, "ROTTERDAM");
    assert_eq!(s.imo_number, 42);
}

#[test]
fn static_update_leaves_position_group() {
    let mut cache = ShipCache::new();
    process_ais_message(
        &mut cache,
        position_frame(
            9,
            "Vessel",
            5_000_000,
            6_000_000,
            PositionReport { cog: 0, navigational_status: 3, sog: 15, true_heading: 90 },
        ),
        100,
    );
    process_ais_message(
        &mut cache,
        static_frame(
            9,
            "Vessel",
            5_000_000,
            6_000_000,
            ShipStaticData { ship_type: 80, destination: "OSLO".to_string(), imo_number: 7 },
        ),
        200,
    );

    let s = cache.get(9).unwrap();
    assert_eq!(s.heading, 90);
    assert_eq!(s.speed, 15);
    assert_eq!(s.nav_status, 3);
    assert_eq!(s.ship_type, 80);
    assert_eq!(s.destination, "OSLO");
    assert_eq!(s.imo_number, 7);
    assert_eq!(s.last_update, 200);
}

#[test]
fn unknown_kind_refreshes_envelope_only() {
    let mut cache = ShipCache::new();
    process_ais_message(
        &mut cache,
        position_frame(
            4,
            "Vessel",
            1_000_000,
            1_000_000,
            PositionReport { cog: 0, navigational_status: 1, sog: 5, true_heading: 45 },
        ),
        100,
    );
    let odd = AisMessage {
        message_type: "SomethingElse".to_string(),
        metadata: meta(4, "Renamed", 2_000_000, 2_000_000),
        message: MessageData { position_report: None, ship_static_data: None },
    };
    process_ais_message(&mut cache, odd, 200);

    let s = cache.get(4).unwrap();
    assert_eq!(s.name, "Renamed");
    assert_eq!(s.lat, 2_000_000);
    assert_eq!(s.lng, 2_000_000);
    assert_eq!(s.last_update, 200);
    // both kind-specific groups untouched
    assert_eq!(s.heading, 45);
    assert_eq!(s.speed, 5);
    assert_eq!(s.nav_status, 1);
}

#[test]
fn malformed_frame_between_two_good_frames() {
    let mut cache = ShipCache::new();
    let good1 = position_frame(
        5,
        "Vessel",
        1_000_000,
        1_000_000,
        PositionReport { cog: 0, navigational_status: 0, sog: 1, true_heading: 1 },
    );
    // a frame that failed to parse upstream
    let bad_parse: Option<AisMessage> = None;
    // a frame with an out-of-range latitude
    let bad_range = position_frame(
        5,
        "Vessel",
        95_000_000,
        1_000_000,
        PositionReport { cog: 0, navigational_status: 0, sog: 2, true_heading: 2 },
    );
    let good2 = position_frame(
        5,
        "Vessel",
        3_000_000,
        3_000_000,
        PositionReport { cog: 0, navigational_status: 0, sog: 3, true_heading: 3 },
    );

    assert!(process_frame(&mut cache, Some(good1), 100));
    assert!(!process_frame(&mut cache, bad_parse, 150));
    assert!(!process_frame(&mut cache, Some(bad_range), 160));
    assert!(process_frame(&mut cache, Some(good2), 200));

    // the second well-formed frame updated its record all the same
    let s = cache.get(5).unwrap();
    assert_eq!(s.lat, 3_000_000);
    assert_eq!(s.lng, 3_000_000);
    assert_eq!(s.speed, 3);
    assert_eq!(s.heading, 3);
    assert_eq!(s.last_update, 200);
    assert_eq!(cache.len(), 1);
}

#[test]
fn auth_reply_decides_handshake() {
    let rejection = AuthMessage::AuthError(AuthError { error: "bad key".to_string() });
    assert!(!auth_reply_ok(&rejection));

    let frame = position_frame(
        1,
        "First",
        1_000_000,
        1_000_000,
        PositionReport { cog: 0, navigational_status: 0, sog: 0, true_heading: 0 },
    );
    let ok = AuthMessage::Message(frame);
    assert!(auth_reply_ok(&ok));
}

#[test]
fn static_only_record_survives_until_ttl_but_never_listed() {
    // A vessel known only from static data is valid for id lookup and
    // subject to eviction like any other, yet never appears spatially.
    let mut cache = ShipCache::new();
    process_ais_message(
        &mut cache,
        static_frame(
            11,
            "Ghost",
            0,
            0,
            ShipStaticData { ship_type: 30, destination: "UNKNOWN".to_string(), imo_number: 1 },
        ),
        100,
    );

    assert!(cache.get(11).is_some());
    let listed = cache.get_ships_in_bbox(-90_000_000, -180_000_000, 90_000_000, 180_000_000);
    assert_eq!(listed.len(), 0);

    let removed = cache.sweep_expired(100 + 86_400 + 1, 86_400);
    assert_eq!(removed, 1);
    assert!(cache.get(11).is_none());
}
