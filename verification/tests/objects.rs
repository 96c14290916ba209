use sdg::codec::Cell;
use sdg::node::Zorder3d;
use sdg::objects::{floor, DagRef, Sample};
use sdg::sdg::SparseDirectedGraph;

#[test]
fn dag_ref_pairs_head_and_height() {
    let r = DagRef::new(42, 4);
    assert_eq!(r.head, 42);
    assert_eq!(r.height, 4);
}

#[test]
fn sample_solidity_is_nonzero_value() {
    assert!(!Sample { value: 0, height: 3 }.is_solid());
    assert!(Sample { value: 1, height: 0 }.is_solid());
    assert!(Sample { value: 17, height: 2 }.is_solid());
}

#[test]
fn floor_builds_ground_layer_and_block() {
    let mut sdg = SparseDirectedGraph::new();
    let empty = sdg.add_leaf();
    let full = sdg.add_leaf();
    let obj = floor(&mut sdg);
    assert_eq!(obj.height, 4);
    // The whole ground layer is solid.
    for x in 0..16 {
        for z in 0..16 {
            let path = Zorder3d::path_from(Cell::new(x, 0, z), 4);
            assert_eq!(sdg.descend(obj.head, &path), full);
        }
    }
    // The raised block sits at x,z in 3..=4, y in 1..=2.
    for y in 1..=2 {
        for x in 3..=4 {
            for z in 3..=4 {
                let path = Zorder3d::path_from(Cell::new(x, y, z), 4);
                assert_eq!(sdg.descend(obj.head, &path), full);
            }
        }
    }
    // Away from the block, everything above the ground is empty.
    let path = Zorder3d::path_from(Cell::new(0, 1, 0), 4);
    assert_eq!(sdg.descend(obj.head, &path), empty);
    let path = Zorder3d::path_from(Cell::new(5, 3, 5), 4);
    assert_eq!(sdg.descend(obj.head, &path), empty);
    let path = Zorder3d::path_from(Cell::new(3, 3, 3), 4);
    assert_eq!(sdg.descend(obj.head, &path), empty);
}
