//! Store and spatial-index behaviour on concrete record sets.

use seawatch::{Ship, ShipCache};

fn create_test_ship(mmsi: u32, name: &str, lat: i64, lng: i64) -> Ship {
    Ship {
        mmsi,
        name: name.to_string(),
        lat,
        lng,
        heading: 0,
        speed: 0,
        nav_status: 0,
        ship_type: 0,
        destination: String::new(),
        imo_number: 0,
        last_update: 0,
    }
}

fn create_test_cache() -> ShipCache {
    let mut cache = ShipCache::new();

    cache.insert_ship(1, create_test_ship(1, "NYC Ship", 40_712_800, -74_006_000));
    cache.insert_ship(2, create_test_ship(2, "London Ship", 51_507_400, -127_800));
    cache.insert_ship(3, create_test_ship(3, "Tokyo Ship", 35_676_200, 139_650_300));
    cache.insert_ship(4, create_test_ship(4, "Sydney Ship", -33_868_800, 151_209_300));
    cache.insert_ship(5, create_test_ship(5, "Invalid Ship", 0, 0));
    cache.insert_ship(6, create_test_ship(6, "Near NYC", 40_750_000, -73_900_000));

    cache
}

#[test]
fn test_kdtree_correctness() {
    let mut cache = create_test_cache();

    // The New York viewport holds exactly the two nearby ships.
    let result = cache.get_ships_in_bbox(40_500_000, -74_500_000, 41_000_000, -73_500_000);
    assert_eq!(result.len(), 2);
    let mmsis: Vec<u32> = result.iter().map(|s| s.mmsi).collect();
    assert!(mmsis.contains(&1));
    assert!(mmsis.contains(&6));
}

#[test]
fn test_kdtree_vs_linear_performance() {
    let mut cache = ShipCache::new();

    for i in 0..50_000u32 {
        let lat = (((i * 7) % 180) as i64 - 90) * 1_000_000;
        let lng = (((i * 11) % 360) as i64 - 180) * 1_000_000;
        if lat != 0 || lng != 0 {
            let name = format!("Ship_{}", i);
            cache.insert_ship(i, create_test_ship(i, &name, lat, lng));
        }
    }

    println!("Created {} ships in cache", cache.len());

    let start = std::time::Instant::now();
    let kdtree_result = cache.get_ships_in_bbox(40_000_000, -75_000_000, 41_000_000, -73_000_000);
    let kdtree_duration = start.elapsed();

    let start = std::time::Instant::now();
    let linear_result = cache.get_ships_in_bbox_immutable(
        40_000_000,
        -75_000_000,
        41_000_000,
        -73_000_000,
    );
    let linear_duration = start.elapsed();

    println!("KD-tree query time: {:?}", kdtree_duration);
    println!("Linear search time: {:?}", linear_duration);
    println!("KD-tree found {} ships", kdtree_result.len());
    println!("Linear search found {} ships", linear_result.len());

    assert_eq!(kdtree_result.len(), linear_result.len());

    if linear_duration > std::time::Duration::from_millis(1) {
        println!(
            "Speedup: {:.2}x",
            linear_duration.as_nanos() as f64 / kdtree_duration.as_nanos() as f64
        );
    }
}

#[test]
fn test_index_rebuild_on_updates() {
    let mut cache = ShipCache::new();

    cache.insert_ship(1, create_test_ship(1, "Ship1", 40_000_000, -74_000_000));
    cache.insert_ship(2, create_test_ship(2, "Ship2", 41_000_000, -73_000_000));

    let result1 = cache.get_ships_in_bbox(39_000_000, -75_000_000, 42_000_000, -72_000_000);
    assert_eq!(result1.len(), 2);

    cache.insert_ship(3, create_test_ship(3, "Ship3", 40_500_000, -73_500_000));

    let result2 = cache.get_ships_in_bbox(39_000_000, -75_000_000, 42_000_000, -72_000_000);
    assert_eq!(result2.len(), 3);
}

#[test]
fn round_trip_single_position() {
    // One position upsert; the enclosing viewport returns exactly it.
    let mut cache = ShipCache::new();
    cache.insert_ship(123, create_test_ship(123, "Lone Ship", 10_000_000, 20_000_000));

    let result = cache.get_ships_in_bbox(0, 0, 20_000_000, 30_000_000);
    assert_eq!(result.len(), 1);
    assert_eq!(result[0].mmsi, 123);
    assert_eq!(result[0].lat, 10_000_000);
    assert_eq!(result[0].lng, 20_000_000);
    assert_eq!(result[0].name, "Lone Ship");
}

#[test]
fn get_miss_and_get_after_remove() {
    let mut cache = ShipCache::new();
    assert!(cache.get(77).is_none());

    cache.insert_ship(77, create_test_ship(77, "Here", 1_000_000, 2_000_000));
    assert!(cache.get(77).is_some());
    assert_eq!(cache.get(77).unwrap().name, "Here");

    let removed = cache.remove_ship(77);
    assert!(removed.is_some());
    assert_eq!(removed.unwrap().mmsi, 77);
    assert!(cache.get(77).is_none());

    // removing again reports nothing removed
    assert!(cache.remove_ship(77).is_none());
}

#[test]
fn sentinel_position_never_listed() {
    // A record that never got a position is served by id lookup but
    // excluded from every viewport, including one that covers (0, 0).
    let mut cache = ShipCache::new();
    cache.insert_ship(9, create_test_ship(9, "No Fix", 0, 0));

    assert!(cache.get(9).is_some());
    let result = cache.get_ships_in_bbox(-1_000_000, -1_000_000, 1_000_000, 1_000_000);
    assert_eq!(result.len(), 0);

    let linear = cache.get_ships_in_bbox_immutable(-1_000_000, -1_000_000, 1_000_000, 1_000_000);
    assert_eq!(linear.len(), 0);
}

#[test]
fn query_twice_same_results() {
    // Rebuilding the index with no intervening mutation changes nothing.
    let mut cache = create_test_cache();
    let first = cache.get_ships_in_bbox(-90_000_000, -180_000_000, 90_000_000, 180_000_000);
    cache.force_rebuild();
    let second = cache.get_ships_in_bbox(-90_000_000, -180_000_000, 90_000_000, 180_000_000);

    assert_eq!(first.len(), second.len());
    let mut ids1: Vec<u32> = first.iter().map(|s| s.mmsi).collect();
    let mut ids2: Vec<u32> = second.iter().map(|s| s.mmsi).collect();
    ids1.sort();
    ids2.sort();
    assert_eq!(ids1, ids2);
    assert_eq!(ids1, vec![1, 2, 3, 4, 6]);
}

#[test]
fn boundary_positions_included() {
    // The box is closed: records exactly on its edges are listed.
    let mut cache = ShipCache::new();
    cache.insert_ship(1, create_test_ship(1, "SW Corner", 40_000_000, -75_000_000));
    cache.insert_ship(2, create_test_ship(2, "NE Corner", 41_000_000, -73_000_000));
    cache.insert_ship(3, create_test_ship(3, "Outside", 41_000_001, -73_000_000));

    let result = cache.get_ships_in_bbox(40_000_000, -75_000_000, 41_000_000, -73_000_000);
    assert_eq!(result.len(), 2);
}

#[test]
fn eviction_removes_only_stale_records() {
    // TTL boundary: one second past the TTL is evicted, one second
    // within it survives, and exactly on the TTL survives too.
    let ttl: u64 = 86_400;
    let now: u64 = 1_000_000;

    let mut cache = ShipCache::new();
    let mut old_ship = create_test_ship(1, "Stale", 10_000_000, 10_000_000);
    old_ship.last_update = now - ttl - 1;
    let mut fresh_ship = create_test_ship(2, "Fresh", 11_000_000, 11_000_000);
    fresh_ship.last_update = now - ttl + 1;
    let mut edge_ship = create_test_ship(3, "Edge", 12_000_000, 12_000_000);
    edge_ship.last_update = now - ttl;

    cache.insert_ship(1, old_ship);
    cache.insert_ship(2, fresh_ship);
    cache.insert_ship(3, edge_ship);

    let removed = cache.sweep_expired(now, ttl);
    assert_eq!(removed, 1);
    assert_eq!(cache.len(), 2);
    assert!(cache.get(1).is_none());
    assert!(cache.get(2).is_some());
    assert!(cache.get(3).is_some());

    // the next viewport query no longer lists the evicted record
    let result = cache.get_ships_in_bbox(0, 0, 90_000_000, 90_000_000);
    let ids: Vec<u32> = result.iter().map(|s| s.mmsi).collect();
    assert!(!ids.contains(&1));
    assert!(ids.contains(&2));
    assert!(ids.contains(&3));
}
