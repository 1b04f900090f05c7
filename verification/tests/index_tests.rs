use osm_index::id_range::{upd_range, IdRange};
use osm_index::indexed::{node_map, Block, Element, Indexed, NodeLookup};
use osm_index::vec_buffer::VecBuffer;

#[test]
fn empty_range_holds_nothing() {
    let r = IdRange::empty();
    assert_eq!(r, IdRange { start: 1, end: 0 });
    assert!(r.is_empty());
    assert!(!r.contains(0));
    assert!(!r.contains(1));
}

#[test]
fn upd_range_starts_at_value() {
    let mut r = IdRange::empty();
    upd_range(&mut r, 42);
    assert_eq!(r, IdRange { start: 42, end: 42 });
    assert!(!r.is_empty());
    assert!(r.contains(42));
}

#[test]
fn upd_range_widens_both_ways() {
    let mut r = IdRange { start: 10, end: 20 };
    upd_range(&mut r, 5);
    assert_eq!(r, IdRange { start: 5, end: 20 });
    upd_range(&mut r, 30);
    assert_eq!(r, IdRange { start: 5, end: 30 });
    upd_range(&mut r, 12);
    assert_eq!(r, IdRange { start: 5, end: 30 });
    upd_range(&mut r, i64::MIN);
    assert_eq!(r, IdRange { start: i64::MIN, end: 30 });
}

#[test]
fn block_ranges_count_dense_nodes_and_ways_only() {
    let els = vec![
        Element::Node { id: 1, nano_lat: 0, nano_lon: 0 },
        Element::DenseNode { id: 7, nano_lat: 1, nano_lon: 2 },
        Element::DenseNode { id: 3, nano_lat: 1, nano_lon: 2 },
        Element::Way { id: 100 },
        Element::Relation { id: 500 },
        Element::DenseNode { id: 9, nano_lat: 1, nano_lon: 2 },
        Element::Way { id: 90 },
    ];
    let b = Block::from_elements(&els);
    assert_eq!(b.nodes, IdRange { start: 3, end: 9 });
    assert_eq!(b.ways, IdRange { start: 90, end: 100 });
}

#[test]
fn block_without_elements_has_empty_ranges() {
    let b = Block::from_elements(&vec![Element::Node { id: 4, nano_lat: 0, nano_lon: 0 }]);
    assert!(b.nodes.is_empty());
    assert!(b.ways.is_empty());
    assert_eq!(b.nodes, IdRange { start: 1, end: 0 });
}

#[test]
fn node_map_takes_plain_and_dense_nodes_last_wins() {
    let els = vec![
        Element::Node { id: 1, nano_lat: 10, nano_lon: 11 },
        Element::DenseNode { id: 2, nano_lat: 20, nano_lon: 21 },
        Element::Way { id: 1 },
        Element::DenseNode { id: 1, nano_lat: 12, nano_lon: 13 },
    ];
    let m = node_map(&els);
    assert_eq!(m.len(), 2);
    assert_eq!(m.get(&1), Some(&(12, 13)));
    assert_eq!(m.get(&2), Some(&(20, 21)));
    assert_eq!(m.get(&3), None);
}

#[test]
fn push_evicts_from_the_back() {
    let mut b: VecBuffer<u32> = VecBuffer::with_capacity(3);
    b.push(1);
    b.push(2);
    b.push(3);
    assert_eq!(b.items(), &[3, 2, 1]);
    b.push(4);
    assert_eq!(b.items(), &[4, 3, 2]);
}

#[test]
fn capacity_one_keeps_only_newest() {
    let mut b: VecBuffer<u32> = VecBuffer::with_capacity(1);
    b.push(1);
    b.push(2);
    assert_eq!(b.items(), &[2]);
}

#[test]
fn lookup_swaps_hit_to_front() {
    let mut b: VecBuffer<u32> = VecBuffer::with_capacity(5);
    for v in [5, 4, 3, 2, 1] {
        b.push(v);
    }
    assert_eq!(b.items(), &[1, 2, 3, 4, 5]);
    assert_eq!(b.lookup(|x| *x == 3), Some(3));
    assert_eq!(b.items(), &[3, 2, 1, 4, 5]);
    assert_eq!(b.lookup(|x| *x % 2 == 0), Some(2));
    assert_eq!(b.items(), &[2, 3, 1, 4, 5]);
}

#[test]
fn lookup_never_looks_at_last_item() {
    let mut b: VecBuffer<u32> = VecBuffer::with_capacity(5);
    b.push(9);
    assert_eq!(b.lookup(|x| *x == 9), None);
    b.push(8);
    assert_eq!(b.items(), &[8, 9]);
    assert_eq!(b.lookup(|x| *x == 9), None);
    assert_eq!(b.lookup(|x| *x == 8), Some(8));
    assert_eq!(b.items(), &[8, 9]);
}

#[test]
fn lookup_on_empty_buffer() {
    let mut b: VecBuffer<u32> = VecBuffer::with_capacity(2);
    assert_eq!(b.lookup(|_| true), None);
    assert!(b.items().is_empty());
}

fn sample_index() -> Indexed {
    let b1 = Block::from_elements(&vec![
        Element::DenseNode { id: 1, nano_lat: 10, nano_lon: 11 },
        Element::DenseNode { id: 5, nano_lat: 50, nano_lon: 51 },
    ]);
    let b2 = Block::from_elements(&vec![Element::Way { id: 1 }, Element::Way { id: 2 }]);
    let b3 = Block::from_elements(&vec![
        Element::DenseNode { id: 4, nano_lat: 40, nano_lon: 41 },
        Element::DenseNode { id: 8, nano_lat: 80, nano_lon: 81 },
        Element::Way { id: 3 },
    ]);
    Indexed::new(vec![(100, b1), (200, b2), (300, b3)])
}

#[test]
fn node_offset_is_first_block_holding_id() {
    let idx = sample_index();
    assert!(idx.contains_node(4));
    assert_eq!(idx.lookup_node_offset(4), 100);
    assert_eq!(idx.lookup_node_offset(5), 100);
    assert_eq!(idx.lookup_node_offset(6), 300);
    assert_eq!(idx.lookup_node_offset(8), 300);
    assert!(!idx.contains_node(9));
    assert!(!idx.contains_node(0));
}

#[test]
fn way_blocks_lists_blocks_with_ways() {
    let idx = sample_index();
    assert_eq!(idx.way_blocks(), vec![200, 300]);
}

#[test]
fn node_lookup_loads_then_serves_from_cache() {
    let mut idx = sample_index();
    let b1 = vec![
        Element::DenseNode { id: 1, nano_lat: 10, nano_lon: 11 },
        Element::DenseNode { id: 5, nano_lat: 50, nano_lon: 51 },
    ];
    let b3 = vec![
        Element::DenseNode { id: 4, nano_lat: 40, nano_lon: 41 },
        Element::DenseNode { id: 8, nano_lat: 80, nano_lon: 81 },
    ];
    assert_eq!(idx.lookup_node(5), NodeLookup::Load(100));
    assert_eq!(idx.load_node(5, 100, &b1), Some((50, 51)));
    // A single cached map sits in the last place, which lookups skip.
    assert_eq!(idx.lookup_node(1), NodeLookup::Load(100));
    assert_eq!(idx.lookup_node(8), NodeLookup::Load(300));
    assert_eq!(idx.load_node(8, 300, &b3), Some((80, 81)));
    assert_eq!(idx.lookup_node(8), NodeLookup::Found(80, 81));
    assert_eq!(idx.lookup_node(6), NodeLookup::NotInBlock);
    // Node 4 lies in the range of the first block, whose map is now last.
    assert_eq!(idx.lookup_node(4), NodeLookup::Load(100));
    assert_eq!(idx.load_node(2, 100, &b1), None);
}
