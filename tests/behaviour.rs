use octo::node::OctreeNode;
use octo::octree::Octree;
use octo::types::NodeLoc;
use octo::OctreeError;

fn drain(octree: &mut Octree<u8>) -> Vec<u8> {
    let mut it = octree.iter();
    let mut out = Vec::new();
    while let Some(v) = it.next() {
        out.push(v);
    }
    out
}

#[test]
fn round_trip_at_many_positions() {
    let mut octree = Octree::<u8>::new(16).unwrap();
    let cases: [([u16; 3], u8); 5] = [
        ([0, 0, 0], 1),
        ([15, 15, 15], 2),
        ([7, 8, 9], 3),
        ([15, 0, 15], 4),
        ([3, 12, 1], 5),
    ];
    for (loc, v) in cases.iter() {
        octree.insert(*loc, *v).unwrap();
        assert_eq!(octree.at(*loc), Some(*v));
    }
    for (loc, v) in cases.iter() {
        assert_eq!(octree.at(*loc), Some(*v));
    }
    assert_eq!(octree.at([1, 1, 1]), None);
}

#[test]
fn overwrite_unit_voxel() {
    let mut octree = Octree::<u8>::new(4).unwrap();
    octree.insert([1, 2, 3], 10).unwrap();
    octree.insert([1, 2, 3], 20).unwrap();
    assert_eq!(octree.at([1, 2, 3]), Some(20));
}

#[test]
fn removal_then_lookup_and_second_take() {
    let mut octree = Octree::<u8>::new(8).unwrap();
    octree.insert([5, 6, 7], 42).unwrap();
    octree.insert([5, 6, 6], 43).unwrap();
    assert_eq!(octree.take([5, 6, 7]), Some(42));
    assert_eq!(octree.at([5, 6, 7]), None);
    assert_eq!(octree.take([5, 6, 7]), None);
    assert_eq!(octree.at([5, 6, 6]), Some(43));
}

#[test]
fn clearing_with_insert_none() {
    let mut octree = Octree::<u8>::new(8).unwrap();
    octree.insert([2, 3, 4], 9).unwrap();
    octree.insert([7, 7, 7], 8).unwrap();
    octree.insert_none([2, 3, 4]);
    assert_eq!(octree.at([2, 3, 4]), None);
    assert_eq!(octree.at([7, 7, 7]), Some(8));
}

#[test]
fn insert_none_folds_empty_branches() {
    let mut octree = Octree::<u8>::new(16).unwrap();
    octree.insert([0, 0, 0], 255).unwrap();
    assert_eq!(octree.node_as_ref([0, 0, 0]).unwrap().dimension(), 1);
    octree.insert_none([0, 0, 0]);
    let node = octree.node_as_ref([0, 0, 0]).unwrap();
    assert_eq!(node.dimension(), 16);
    assert!(node.leaf());
    assert_eq!(node.get(), None);
    assert!(drain(&mut octree).is_empty());
    octree.insert([3, 3, 3], 7).unwrap();
    assert_eq!(octree.at([3, 3, 3]), Some(7));
}

#[test]
fn uniform_collapse_on_edge_eight() {
    let mut octree = Octree::<u8>::new(8).unwrap();
    let block: [[u16; 3]; 8] = [
        [0, 0, 0],
        [0, 0, 1],
        [0, 1, 0],
        [0, 1, 1],
        [1, 0, 0],
        [1, 0, 1],
        [1, 1, 0],
        [1, 1, 1],
    ];
    for loc in block.iter().take(7) {
        octree.insert(*loc, 5).unwrap();
    }
    assert_eq!(octree.node_as_ref([0, 0, 0]).unwrap().dimension(), 1);
    octree.insert(block[7], 5).unwrap();
    assert_eq!(octree.node_as_ref([0, 0, 0]).unwrap().dimension(), 2);
    for x in 0..4u16 {
        for y in 0..4u16 {
            for z in 0..4u16 {
                octree.insert([x, y, z], 5).unwrap();
            }
        }
    }
    assert_eq!(octree.node_as_ref([0, 0, 0]).unwrap().dimension(), 4);
    assert_eq!(octree.node_as_ref([3, 3, 3]).unwrap().dimension(), 4);
    assert_eq!(octree.at([2, 1, 3]), Some(5));
    assert_eq!(drain(&mut octree), vec![5]);
}

#[test]
fn desimplify_keeps_other_voxels() {
    let mut octree = Octree::<u8>::new(8).unwrap();
    for x in 4..8u16 {
        for y in 0..4u16 {
            for z in 0..4u16 {
                octree.insert([x, y, z], 1).unwrap();
            }
        }
    }
    assert_eq!(octree.node_as_ref([4, 0, 0]).unwrap().dimension(), 4);
    octree.insert([5, 2, 3], 2).unwrap();
    assert_eq!(octree.at([5, 2, 3]), Some(2));
    for x in 4..8u16 {
        for y in 0..4u16 {
            for z in 0..4u16 {
                if [x, y, z] != [5, 2, 3] {
                    assert_eq!(octree.at([x, y, z]), Some(1));
                }
            }
        }
    }
    assert_eq!(octree.at([0, 0, 0]), None);
    assert_eq!(octree.node_as_ref([5, 2, 3]).unwrap().dimension(), 1);
    assert_eq!(octree.node_as_ref([7, 3, 0]).unwrap().dimension(), 2);
}

#[test]
fn same_value_into_collapsed_region_changes_nothing() {
    let mut octree = Octree::<u8>::new(4).unwrap();
    for x in 0..2u16 {
        for y in 0..2u16 {
            for z in 0..2u16 {
                octree.insert([x, y, z], 3).unwrap();
            }
        }
    }
    octree.insert([1, 0, 1], 3).unwrap();
    assert_eq!(octree.node_as_ref([1, 0, 1]).unwrap().dimension(), 2);
    assert_eq!(octree.at([0, 1, 0]), Some(3));
}

#[test]
fn take_empties_a_collapsed_region() {
    let mut octree = Octree::<u8>::new(4).unwrap();
    for x in 0..2u16 {
        for y in 0..2u16 {
            for z in 0..2u16 {
                octree.insert([x, y, z], 6).unwrap();
            }
        }
    }
    octree.insert([3, 3, 3], 9).unwrap();
    assert_eq!(octree.take([1, 1, 0]), Some(6));
    assert_eq!(octree.at([0, 0, 0]), None);
    assert_eq!(octree.at([1, 1, 1]), None);
    assert_eq!(octree.at([3, 3, 3]), Some(9));
    octree.insert([0, 1, 0], 4).unwrap();
    assert_eq!(octree.at([0, 1, 0]), Some(4));
    assert_eq!(octree.at([0, 0, 0]), None);
}

#[test]
fn bounds_check_on_insert() {
    let mut octree = Octree::<u8>::new(16).unwrap();
    octree.insert([1, 2, 3], 7).unwrap();
    assert_eq!(octree.insert([16, 0, 0], 1), Err(OctreeError::OutOfBoundsError));
    assert_eq!(octree.insert([0, 16, 0], 1), Err(OctreeError::OutOfBoundsError));
    assert_eq!(octree.insert([0, 0, 65535], 1), Err(OctreeError::OutOfBoundsError));
    assert_eq!(octree.insert([15, 15, 15], 1), Ok(()));
    assert_eq!(octree.at([1, 2, 3]), Some(7));
    let mut values = drain(&mut octree);
    values.sort();
    assert_eq!(values, vec![1, 7]);
}

#[test]
fn out_of_bounds_reads_yield_nothing() {
    let mut octree = Octree::<u8>::new(4).unwrap();
    octree.insert([3, 3, 3], 1).unwrap();
    assert_eq!(octree.at([4, 3, 3]), None);
    assert_eq!(octree.take([3, 7, 3]), None);
    octree.insert_none([3, 3, 4]);
    assert!(octree.node_as_ref([4, 0, 0]).is_none());
    assert_eq!(octree.at([3, 3, 3]), Some(1));
}

#[test]
fn construction_validity() {
    for d in [0u16, 1, 3, 6, 9, 12, 25, 100, 65535] {
        assert!(matches!(Octree::<u8>::new(d), Err(OctreeError::DimensionError)));
    }
    let expected: [(u16, u8); 5] = [(2, 1), (4, 2), (16, 4), (64, 6), (32768, 15)];
    for (d, depth) in expected.iter() {
        let octree = Octree::<u8>::new(*d).unwrap();
        assert_eq!(octree.dimension(), *d);
        assert_eq!(octree.max_depth(), *depth);
    }
}

#[test]
fn smallest_tree() {
    let mut octree = Octree::<u8>::new(2).unwrap();
    for x in 0..2u16 {
        for y in 0..2u16 {
            for z in 0..2u16 {
                octree.insert([x, y, z], 8).unwrap();
            }
        }
    }
    assert_eq!(octree.at([1, 0, 1]), Some(8));
    assert_eq!(octree.node_as_ref([0, 0, 0]).unwrap().dimension(), 2);
    octree.insert([0, 0, 0], 9).unwrap();
    assert_eq!(octree.at([0, 0, 0]), Some(9));
    assert_eq!(octree.at([1, 1, 1]), Some(8));
}

#[test]
fn traversal_completeness() {
    let mut octree = Octree::<u8>::new(16).unwrap();
    let locs: [[u16; 3]; 6] = [
        [0, 0, 0],
        [0, 0, 1],
        [15, 15, 15],
        [8, 0, 4],
        [3, 9, 12],
        [1, 1, 1],
    ];
    for (i, loc) in locs.iter().enumerate() {
        octree.insert(*loc, 10 + i as u8).unwrap();
    }
    let mut values = drain(&mut octree);
    values.sort();
    assert_eq!(values, vec![10, 11, 12, 13, 14, 15]);
    let mut consumed = Vec::new();
    let mut it = octree.into_iter();
    while let Some(v) = it.next() {
        consumed.push(v);
    }
    consumed.sort();
    assert_eq!(consumed, vec![10, 11, 12, 13, 14, 15]);
}

#[test]
fn iterator_nth_skips() {
    let mut octree = Octree::<u8>::new(4).unwrap();
    octree.insert([0, 0, 0], 1).unwrap();
    octree.insert([3, 0, 0], 2).unwrap();
    octree.insert([0, 3, 0], 3).unwrap();
    let mut it = octree.iter();
    assert_eq!(it.nth(1), Some(2));
    assert_eq!(it.nth(0), Some(3));
    assert_eq!(it.nth(0), None);
    let mut it = octree.iter();
    assert_eq!(it.nth(5), None);
    assert_eq!(it.next(), None);
}

#[test]
fn concrete_collapse_scenario() {
    let mut octree = Octree::<u8>::new(16).unwrap();
    for loc in [[0, 0, 0], [0, 0, 1], [0, 1, 0], [0, 1, 1], [1, 0, 0], [1, 0, 1], [1, 1, 0]] {
        octree.insert(loc, 255).unwrap();
    }
    assert_eq!(octree.node_as_ref([0, 0, 0]).unwrap().dimension(), 1);
    octree.insert([1, 1, 1], 255).unwrap();
    assert_eq!(octree.node_as_ref([0, 0, 0]).unwrap().dimension(), 2);
    octree.insert([0, 0, 0], 128).unwrap();
    assert_eq!(octree.at([0, 0, 0]), Some(128));
    assert_eq!(octree.at([0, 0, 1]), Some(255));
}

#[test]
fn error_descriptions() {
    assert_eq!(
        OctreeError::DimensionError.description(),
        "Invalid dimension for octree. Must be an exponent of 2."
    );
    assert_eq!(
        OctreeError::OutOfBoundsError.description(),
        "Node location provided is out of octree bounds."
    );
}

#[test]
fn node_loc_axes() {
    let mut loc = NodeLoc::new((5, 6, 7));
    assert_eq!((loc.x(), loc.y(), loc.z()), (5, 6, 7));
    loc.sub_x(5);
    loc.sub_y(2);
    loc.sub_z(4);
    assert_eq!((loc.x(), loc.y(), loc.z()), (0, 4, 3));
}

#[test]
fn node_level_operations() {
    let mut root = OctreeNode::<u8>::construct_root(4);
    let mut loc = NodeLoc::new((3, 0, 2));
    root.insert(&mut loc, 11);
    let mut loc = NodeLoc::new((3, 0, 2));
    assert_eq!(root.at(&mut loc), Some(11));
    assert!(!root.leaf());
    assert_eq!(root.set(1), Err("Could not set octree node data: node is not a leaf".to_string()));
    let children = root.children();
    assert_eq!(children.len(), 8);
    assert_eq!(children.iter().filter(|c| c.is_some()).count(), 1);
    assert_eq!(children[5].as_ref().unwrap().dimension(), 2);
    let mut loc = NodeLoc::new((3, 0, 2));
    assert_eq!(root.take(&mut loc), Some(11));
    let mut loc = NodeLoc::new((3, 0, 2));
    assert_eq!(root.at(&mut loc), None);

    let mut unit = OctreeNode::<u8>::new(2, 4);
    assert_eq!(unit.dimension(), 1);
    assert_eq!(unit.get(), Some(4));
    assert_eq!(unit.set(6), Ok(()));
    assert_eq!(unit.get(), Some(6));
    let region = OctreeNode::<u8>::new(8, 4);
    assert_eq!(region.dimension(), 4);
    let mut loc = NodeLoc::new((3, 2, 1));
    assert_eq!(region.at(&mut loc), Some(4));
}

#[test]
fn insert_none_folds_region_emptied_by_take() {
    let mut octree = Octree::<u8>::new(16).unwrap();
    octree.insert([0, 0, 0], 1).unwrap();
    octree.insert([15, 15, 15], 2).unwrap();
    assert_eq!(octree.take([0, 0, 0]), Some(1));
    let kept = octree.node_as_ref([0, 0, 0]).unwrap();
    assert_eq!(kept.dimension(), 1);
    assert_eq!(kept.get(), None);
    octree.insert_none([15, 15, 15]);
    let root = octree.node_as_ref([0, 0, 0]).unwrap();
    assert_eq!(root.dimension(), 16);
    assert!(root.leaf());
    assert_eq!(root.get(), None);
}

#[test]
fn insert_none_into_absent_octant_still_folds() {
    let mut octree = Octree::<u8>::new(8).unwrap();
    octree.insert([1, 1, 1], 3).unwrap();
    octree.take([1, 1, 1]);
    octree.insert_none([7, 7, 7]);
    assert_eq!(octree.node_as_ref([1, 1, 1]).unwrap().dimension(), 8);
    assert_eq!(octree.at([1, 1, 1]), None);
}

#[test]
fn insert_none_keeps_branch_that_holds_a_value() {
    let mut octree = Octree::<u8>::new(8).unwrap();
    octree.insert([0, 0, 0], 3).unwrap();
    octree.insert([0, 0, 1], 4).unwrap();
    octree.insert_none([0, 0, 0]);
    assert_eq!(octree.at([0, 0, 1]), Some(4));
    assert_eq!(octree.node_as_ref([0, 0, 1]).unwrap().dimension(), 1);
    assert!(!octree.node_as_ref([0, 0, 1]).is_none());
}

#[test]
fn uniform_collapse_reaches_whole_tree() {
    let mut octree = Octree::<u8>::new(4).unwrap();
    for x in 0..4u16 {
        for y in 0..4u16 {
            for z in 0..4u16 {
                octree.insert([x, y, z], 7).unwrap();
            }
        }
    }
    let root = octree.node_as_ref([2, 1, 3]).unwrap();
    assert_eq!(root.dimension(), 4);
    assert_eq!(root.get(), Some(7));
    assert_eq!(octree.at([3, 3, 3]), Some(7));
}
