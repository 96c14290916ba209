use sdg::codec::Cell;
use sdg::node::{BasicNode3d, Zorder3d};

#[test]
fn path_from_packs_bits_root_first() {
    // x = 0b01, y = 0b10, z = 0b11: the top level packs the high bits
    // (0, 1, 1) -> code 6, the bottom level the low bits (1, 0, 1) -> 5.
    let p = Zorder3d::path_from(Cell::new(1, 2, 3), 2);
    assert_eq!(p.len(), 2);
    assert!(matches!(p[0], Zorder3d::BackBottomLeft));
    assert!(matches!(p[1], Zorder3d::BackTopRight));
    assert_eq!(p[0].to_index(), 6);
    assert_eq!(p[1].to_index(), 5);
}

#[test]
fn to_cell_inverts_path_from() {
    for depth in 0..6u32 {
        let side = 1u32 << depth;
        for x in [0, 1, side / 2, side.saturating_sub(1)] {
            for y in [0, side / 3, side.saturating_sub(1)] {
                for z in [0, side / 2, side.saturating_sub(1)] {
                    let (x, y, z) = (x % side, y % side, z % side);
                    let p = Zorder3d::path_from(Cell::new(x, y, z), depth);
                    let c = Zorder3d::to_cell(&p);
                    assert_eq!((c.x, c.y, c.z), (x, y, z));
                }
            }
        }
    }
    let p = Zorder3d::path_from(Cell::new(123_456, 9, 700_001), 32);
    let c = Zorder3d::to_cell(&p);
    assert_eq!((c.x, c.y, c.z), (123_456, 9, 700_001));
}

#[test]
fn to_cell_accumulates_most_significant_first() {
    let p = vec![Zorder3d::FrontTopRight, Zorder3d::FrontTopLeft];
    // x gets bits 1 then 0: 0b10 = 2; y and z stay 0.
    let c = Zorder3d::to_cell(&p);
    assert_eq!((c.x, c.y, c.z), (2, 0, 0));
}

#[test]
fn out_of_range_cell_is_rejected_not_wrapped() {
    assert!(Zorder3d::path_from_checked(Cell::new(4, 0, 0), 2).is_none());
    assert!(Zorder3d::path_from_checked(Cell::new(0, 4, 0), 2).is_none());
    assert!(Zorder3d::path_from_checked(Cell::new(0, 0, 4), 2).is_none());
    assert!(Zorder3d::path_from_checked(Cell::new(100, 1, 1), 2).is_none());
    let ok = Zorder3d::path_from_checked(Cell::new(3, 3, 3), 2);
    assert!(ok.is_some());
    assert_eq!(ok.unwrap(), Zorder3d::path_from(Cell::new(3, 3, 3), 2));
    // The boundary cell of a depth-0 grid is the origin alone.
    assert!(Zorder3d::path_from_checked(Cell::new(0, 0, 0), 0).is_some());
    assert!(Zorder3d::path_from_checked(Cell::new(1, 0, 0), 0).is_none());
}

#[test]
fn octant_codes_round_trip_coordinates() {
    let all = Zorder3d::all();
    assert_eq!(all.len(), 8);
    for (i, sel) in all.iter().enumerate() {
        assert_eq!(sel.to_index(), i);
        let (x, y, z) = sel.to_coord();
        assert_eq!(x + 2 * y + 4 * z, i as u32);
        let back = Zorder3d::new(x, y, z);
        assert_eq!(back.to_index(), i);
    }
}

#[test]
fn node_children_are_octant_indexed() {
    let children: Vec<u32> = (10..18).collect();
    let node = BasicNode3d::new(&children);
    assert_eq!(node.get(Zorder3d::FrontTopLeft), 10);
    assert_eq!(node.get(Zorder3d::BackBottomRight), 17);
    let node2 = node.with_child(Zorder3d::FrontBottomLeft, 99);
    assert_eq!(node2.get(Zorder3d::FrontBottomLeft), 99);
    assert_eq!(node.get(Zorder3d::FrontBottomLeft), 12);
    let mut node3 = node;
    node3.set(Zorder3d::FrontTopRight, 5);
    assert_eq!(node3.get(Zorder3d::FrontTopRight), 5);
    assert_eq!(node3.naive(), [10, 5, 12, 13, 14, 15, 16, 17]);
    assert_eq!(BasicNode3d::uniform(7), BasicNode3d::new(&[7u32; 8]));
}
