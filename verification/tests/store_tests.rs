use memmap::MmapMut;
use osm_index::node_db::{file_len, new, NodeDB};
use osm_index::pbf::{is_polygon, WayCounts};

fn store(nodes: u64) -> NodeDB {
    let len = file_len(nodes).unwrap() as usize;
    new(MmapMut::map_anon(len).unwrap()).unwrap()
}

#[test]
fn file_len_holds_two_words_per_node() {
    assert_eq!(file_len(0), Some(16));
    assert_eq!(file_len(9), Some(160));
    assert_eq!(file_len(0x0fff_ffff_ffff_fffe), Some(0xffff_ffff_ffff_fff0));
    assert_eq!(file_len(0x0fff_ffff_ffff_ffff), None);
    assert_eq!(file_len(u64::MAX), None);
}

#[test]
fn capacity_counts_node_slots() {
    assert_eq!(store(9).capacity(), 10);
    assert_eq!(store(0).capacity(), 1);
}

#[test]
fn fresh_anonymous_store_reads_zero() {
    let db = store(4);
    assert_eq!(db.lookup(0), (0, 0));
    assert_eq!(db.lookup(4), (0, 0));
}

#[test]
fn lookup_after_set_gives_what_was_set() {
    let mut db = store(200);
    db.set(100, 14276935300, -11051916300);
    assert_eq!(db.lookup(100), (14276935300, -11051916300));
    assert_eq!(db.lookup(99), (0, 0));
    assert_eq!(db.lookup(101), (0, 0));
}

#[test]
fn set_then_restore_like_test_db() {
    let mut db = store(200);
    db.set(100, 7, -8);
    let (lat, lon) = db.lookup(100);
    db.set(100, 0, 0);
    assert_eq!(db.lookup(100), (0, 0));
    db.set(100, lat, lon);
    assert_eq!(db.lookup(100), (7, -8));
}

#[test]
fn set_leaves_neighbours() {
    let mut db = store(3);
    db.set(1, 1, 2);
    db.set(2, 3, 4);
    db.set(1, 5, 6);
    assert_eq!(db.lookup(1), (5, 6));
    assert_eq!(db.lookup(2), (3, 4));
    assert_eq!(db.lookup(0), (0, 0));
    assert_eq!(db.lookup(3), (0, 0));
}

#[test]
fn odd_length_map_is_refused() {
    assert!(new(MmapMut::map_anon(12).unwrap()).is_none());
}

#[test]
fn polygon_needs_three_refs_and_closure() {
    assert!(is_polygon(&vec![1, 2, 1]));
    assert!(!is_polygon(&vec![1, 1]));
    assert!(!is_polygon(&vec![1, 2, 3]));
    assert!(!is_polygon(&vec![]));
    assert!(is_polygon(&vec![4, 5, 6, 4]));
}

#[test]
fn way_counts_track_max_and_kinds() {
    let mut c = WayCounts::new();
    c.add_way(&vec![3, 9, 3]);
    c.add_way(&vec![1, 2]);
    c.add_way(&vec![]);
    assert_eq!(c, WayCounts { max_node: 9, polygons: 1, lines: 2 });
}

#[test]
fn negative_ids_count_as_large_keys() {
    let mut c = WayCounts::new();
    c.add_way(&vec![5, -1]);
    assert_eq!(c.max_node, u64::MAX);
}

#[test]
fn counters_wrap() {
    let c = WayCounts { max_node: 0, polygons: u64::MAX, lines: 0 };
    let mut d = c;
    d.add_way(&vec![1, 2, 1]);
    assert_eq!(d.polygons, 0);
}

#[test]
fn merge_equals_counting_together() {
    let a = vec![vec![1, 2, 1], vec![7, 8]];
    let b = vec![vec![20, 21, 22, 20], vec![3]];
    let mut ca = WayCounts::new();
    for w in &a {
        ca.add_way(w);
    }
    let mut cb = WayCounts::new();
    for w in &b {
        cb.add_way(w);
    }
    let mut all = WayCounts::new();
    for w in a.iter().chain(b.iter()) {
        all.add_way(w);
    }
    assert_eq!(ca.merge(&cb), all);
    assert_eq!(cb.merge(&ca), all);
    assert_eq!(WayCounts::new().merge(&all), all);
    assert_eq!(all, WayCounts { max_node: 22, polygons: 2, lines: 2 });
}
