//! The per-vessel record itself: creation defaults and the projected view.

use seawatch::Ship;

#[test]
fn new_record_is_defaulted_with_sentinel_position() {
    let s = Ship::new(42, "Maiden".to_string());
    assert_eq!(s.mmsi, 42);
    assert_eq!(s.name, "Maiden");
    assert_eq!(s.lat, 0);
    assert_eq!(s.lng, 0);
    assert_eq!(s.heading, 0);
    assert_eq!(s.speed, 0);
    assert_eq!(s.nav_status, 0);
    assert_eq!(s.ship_type, 0);
    assert_eq!(s.destination, "");
    assert_eq!(s.imo_number, 0);
    assert_eq!(s.last_update, 0);
}

#[test]
fn projected_state_keeps_listing_fields_only() {
    let mut s = Ship::new(8, "Projector".to_string());
    s.lat = 1_234_567;
    s.lng = -7_654_321;
    s.heading = 181;
    s.speed = 99;
    s.nav_status = 6;
    s.ship_type = 70;
    s.destination = "HAMBURG".to_string();
    s.imo_number = 555;
    s.last_update = 777;

    let st = s.to_state();
    assert_eq!(st.mmsi, 8);
    assert_eq!(st.name, "Projector");
    assert_eq!(st.lat, 1_234_567);
    assert_eq!(st.lng, -7_654_321);
    assert_eq!(st.heading, 181);
    assert_eq!(st.speed, 99);
    assert_eq!(st.ship_type, 70);
    assert_eq!(st.last_update, 777);
}
