use sdg::codec::Cell;
use sdg::node::Zorder3d;
use sdg::sdg::SparseDirectedGraph;

#[test]
fn merge_check() {
    let mut sdg: SparseDirectedGraph = SparseDirectedGraph::new();
    let empty = sdg.add_leaf();
    let full = sdg.add_leaf();
    let mut head = sdg.get_root(empty);
    for x in 0..4 {
        for y in 0..4 {
            for z in 0..4 {
                let path = Zorder3d::path_from(Cell::new(x, y, z), 2);
                head = sdg.set_node(head, &path, full);
            }
        }
    }
    sdg.trim();
    assert_eq!(sdg.slot_count(), 2);
}

#[test]
fn full_volume_collapses_to_leaf() {
    let mut sdg = SparseDirectedGraph::new();
    let empty = sdg.add_leaf();
    let full = sdg.add_leaf();
    let mut head = sdg.get_root(empty);
    for x in 0..4 {
        for y in 0..4 {
            for z in 0..4 {
                let path = Zorder3d::path_from(Cell::new(x, y, z), 2);
                head = sdg.set_node(head, &path, full);
            }
        }
    }
    // The uniform volume deduplicates into the full leaf itself.
    assert_eq!(head, full);
    for x in 0..4 {
        for y in 0..4 {
            for z in 0..4 {
                let path = Zorder3d::path_from(Cell::new(x, y, z), 2);
                assert_eq!(sdg.descend(head, &path), full);
            }
        }
    }
    sdg.trim();
    assert_eq!(sdg.slot_count(), 2);
    assert_eq!(sdg.bulk_view().len(), 16);
}

#[test]
fn collapse_roundtrip_restores_node_count() {
    let mut sdg = SparseDirectedGraph::new();
    let a = sdg.add_leaf();
    let b = sdg.add_leaf();
    let mut head = sdg.get_root(a);
    sdg.trim();
    let before = sdg.slot_count();
    // Overwrite the 2^1-sized sub-cube at the origin of a height-2 volume
    // with leaf B, then put leaf A back.
    for x in 0..2 {
        for y in 0..2 {
            for z in 0..2 {
                let path = Zorder3d::path_from(Cell::new(x, y, z), 2);
                head = sdg.set_node(head, &path, b);
            }
        }
    }
    assert_ne!(head, a);
    for x in 0..2 {
        for y in 0..2 {
            for z in 0..2 {
                let path = Zorder3d::path_from(Cell::new(x, y, z), 2);
                head = sdg.set_node(head, &path, a);
            }
        }
    }
    assert_eq!(head, a);
    sdg.trim();
    assert_eq!(sdg.slot_count(), before);
}

#[test]
fn idempotent_write_returns_same_head() {
    let mut sdg = SparseDirectedGraph::new();
    let empty = sdg.add_leaf();
    let full = sdg.add_leaf();
    let mut head = sdg.get_root(empty);
    let path = Zorder3d::path_from(Cell::new(1, 2, 3), 2);
    head = sdg.set_node(head, &path, full);
    let slots_after_first = sdg.slot_count();
    let head_again = sdg.set_node(head, &path, full);
    assert_eq!(head_again, head);
    assert_eq!(sdg.slot_count(), slots_after_first);
    // Writing the value already present anywhere is also a no-op.
    let other = Zorder3d::path_from(Cell::new(0, 0, 0), 2);
    let head_third = sdg.set_node(head, &other, empty);
    assert_eq!(head_third, head);
}

#[test]
fn identical_edits_share_one_canonical_head() {
    let mut sdg = SparseDirectedGraph::new();
    let empty = sdg.add_leaf();
    let full = sdg.add_leaf();
    let path = Zorder3d::path_from(Cell::new(2, 1, 0), 2);
    let h1 = sdg.get_root(empty);
    let h1 = sdg.set_node(h1, &path, full);
    let h2 = sdg.get_root(empty);
    let h2 = sdg.set_node(h2, &path, full);
    // Hash-consing: structurally identical trees are the same index.
    assert_eq!(h1, h2);
}

#[test]
fn reference_counts_track_parents_and_roots() {
    let mut sdg = SparseDirectedGraph::new();
    let empty = sdg.add_leaf();
    let full = sdg.add_leaf();
    assert_eq!(sdg.get_ref(empty), 0);
    let head = sdg.get_root(empty);
    assert_eq!(sdg.get_ref(empty), 1);
    let path = Zorder3d::path_from(Cell::new(0, 0, 0), 2);
    let head = sdg.set_node(head, &path, full);
    // Two fresh branch nodes: the deep one holds full once and empty seven
    // times, the root holds the deep one once and empty seven times; the
    // root reference moved off the empty leaf onto the new head.
    assert_eq!(sdg.get_ref(empty), 14);
    assert_eq!(sdg.get_ref(full), 1);
    assert_eq!(sdg.get_ref(head), 1);
    // Reverting frees the two branch nodes and returns the root reference.
    let head = sdg.set_node(head, &path, empty);
    assert_eq!(head, empty);
    assert_eq!(sdg.get_ref(empty), 1);
    assert_eq!(sdg.get_ref(full), 0);
    sdg.trim();
    assert_eq!(sdg.slot_count(), 2);
}

#[test]
fn descend_stops_at_leaves() {
    let mut sdg = SparseDirectedGraph::new();
    let empty = sdg.add_leaf();
    let full = sdg.add_leaf();
    let long_path = Zorder3d::path_from(Cell::new(0, 0, 0), 10);
    // A leaf is self-referential: any path from it lands on it.
    assert_eq!(sdg.descend(empty, &long_path), empty);
    assert_eq!(sdg.descend(full, &long_path), full);
    assert_eq!(sdg.child(full, Zorder3d::BackBottomRight), full);
}

#[test]
fn leaves_are_self_referential_in_bulk_view() {
    let mut sdg = SparseDirectedGraph::new();
    let empty = sdg.add_leaf();
    let full = sdg.add_leaf();
    assert_eq!(empty, 0);
    assert_eq!(full, 1);
    assert!(sdg.is_leaf(empty));
    assert!(sdg.is_leaf(full));
    assert!(!sdg.is_leaf(2));
    let view = sdg.bulk_view();
    let mut expected = vec![0u32; 8];
    expected.extend(vec![1u32; 8]);
    assert_eq!(view, expected);
}

#[test]
fn removing_an_unreferenced_leaf_frees_its_slot() {
    let mut sdg = SparseDirectedGraph::new();
    let _empty = sdg.add_leaf();
    let _full = sdg.add_leaf();
    let extra = sdg.add_leaf();
    assert!(sdg.is_leaf(extra));
    sdg._remove_leaf(extra);
    assert!(!sdg.is_leaf(extra));
    sdg.trim();
    assert_eq!(sdg.slot_count(), 2);
}

#[test]
fn edits_preserve_other_cells() {
    let mut sdg = SparseDirectedGraph::new();
    let empty = sdg.add_leaf();
    let full = sdg.add_leaf();
    let extra = sdg.add_leaf();
    let mut head = sdg.get_root(empty);
    let p1 = Zorder3d::path_from(Cell::new(1, 1, 1), 3);
    let p2 = Zorder3d::path_from(Cell::new(6, 2, 7), 3);
    let p3 = Zorder3d::path_from(Cell::new(1, 1, 2), 3);
    head = sdg.set_node(head, &p1, full);
    head = sdg.set_node(head, &p2, extra);
    head = sdg.set_node(head, &p3, full);
    // Each earlier write still reads back after later, diverging writes.
    assert_eq!(sdg.descend(head, &p1), full);
    assert_eq!(sdg.descend(head, &p2), extra);
    assert_eq!(sdg.descend(head, &p3), full);
    let p4 = Zorder3d::path_from(Cell::new(0, 0, 0), 3);
    assert_eq!(sdg.descend(head, &p4), empty);
}

#[test]
fn large_pool_survives_compaction() {
    let mut sdg = SparseDirectedGraph::new();
    for expect in 0..70u32 {
        assert_eq!(sdg.add_leaf(), expect);
    }
    sdg.trim();
    assert_eq!(sdg.slot_count(), 70);
    // Allocation keeps working past the compaction and past the 64-slot
    // word boundary of the pool's free-slot bitmap.
    assert_eq!(sdg.add_leaf(), 70);
    sdg.trim();
    assert_eq!(sdg.slot_count(), 71);
    for expect in 71..200u32 {
        assert_eq!(sdg.add_leaf(), expect);
    }
    sdg.trim();
    assert_eq!(sdg.slot_count(), 200);
    assert!(sdg.is_occupied(199));
    assert!(!sdg.is_occupied(200));
}

#[test]
fn large_graph_edits_past_word_boundary() {
    let mut sdg = SparseDirectedGraph::new();
    let empty = sdg.add_leaf();
    let full = sdg.add_leaf();
    // Fill the pool past the 64-slot word boundary of its free-slot bitmap.
    for _ in 2..64u32 {
        let _ = sdg.add_leaf();
    }
    let mut head = sdg.get_root(empty);
    assert_eq!(sdg.root_count(), 1);
    for c in 0..12u32 {
        let path = Zorder3d::path_from(Cell::new(c, 15 - c, (c * 5) % 16), 4);
        head = sdg.set_node(head, &path, full);
    }
    assert!(sdg.slot_count() > 64);
    // Edits and reads keep working past the boundary.
    for c in 0..12u32 {
        let path = Zorder3d::path_from(Cell::new(c, 15 - c, (c * 5) % 16), 4);
        assert_eq!(sdg.descend(head, &path), full);
    }
    let path = Zorder3d::path_from(Cell::new(15, 15, 15), 4);
    head = sdg.set_node(head, &path, full);
    assert_eq!(sdg.descend(head, &path), full);
    assert_eq!(sdg.root_count(), 1);
}

#[test]
fn bfs_lists_head_then_child_blocks() {
    let mut sdg = SparseDirectedGraph::new();
    let empty = sdg.add_leaf();
    let full = sdg.add_leaf();
    let mut head = sdg.get_root(empty);
    let path = Zorder3d::path_from(Cell::new(0, 0, 0), 2);
    head = sdg.set_node(head, &path, full);
    let order = sdg.bfs_nodes(head);
    // The head, its eight children, then the eight children of its single
    // non-leaf child; leaves terminate the walk.
    assert_eq!(order.len(), 17);
    assert_eq!(order[0], head);
    let deep = order[1];
    assert!(deep != empty && deep != full && deep != head);
    for c in 2..9 {
        assert_eq!(order[c], empty);
    }
    assert_eq!(order[9], full);
    for c in 10..17 {
        assert_eq!(order[c], empty);
    }
    assert_eq!(sdg.bfs_nodes(empty), vec![empty]);
    assert_eq!(sdg.bfs_nodes(full), vec![full]);
}
