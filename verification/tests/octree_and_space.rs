use playform_server::octree::Octree;
use playform_server::protocol::Voxel;
use playform_server::space::{Aabb, Bounds, Vec3};

#[test]
fn insert_then_lookup_finds_the_block() {
    let root = Bounds { x: 0, y: 0, z: 0, lg_size: 8 };
    let mut t = Octree::new(root);
    let b = Bounds { x: 5, y: 6, z: 7, lg_size: 3 };
    assert_eq!(t.lookup(b), None);
    t.insert_or_replace(b, 3, Voxel::Volume(42));
    assert_eq!(t.lookup(b), Some((3, Voxel::Volume(42))));
    let other = Bounds { x: 4, y: 6, z: 7, lg_size: 3 };
    assert_eq!(t.lookup(other), None);
}

#[test]
fn equal_lod_insert_is_a_no_op() {
    let root = Bounds { x: 0, y: 0, z: 0, lg_size: 8 };
    let mut t = Octree::new(root);
    let b = Bounds { x: 2, y: 2, z: 2, lg_size: 4 };
    t.insert_or_replace(b, 4, Voxel::Volume(1));
    t.insert_or_replace(b, 4, Voxel::Volume(2));
    assert_eq!(
        t.lookup(b),
        Some((4, Voxel::Volume(1))),
        "a block at the same level is left untouched"
    );
    t.insert_or_replace(b, 2, Voxel::Volume(2));
    assert_eq!(t.lookup(b), Some((2, Voxel::Volume(2))));
}

#[test]
fn coarsen_discards_the_block() {
    let root = Bounds { x: 0, y: 0, z: 0, lg_size: 8 };
    let mut t = Octree::new(root);
    let b = Bounds { x: 9, y: 9, z: 9, lg_size: 2 };
    t.insert_or_replace(b, 2, Voxel::Surface(7));
    assert_eq!(t.lookup(b), Some((2, Voxel::Surface(7))));
    t.coarsen(b);
    assert_eq!(t.lookup(b), None);
}

#[test]
fn octants_halve_and_shift() {
    let b = Bounds { x: 3, y: 4, z: 5, lg_size: 6 };
    let o0 = b.octant(0);
    assert_eq!(o0, Bounds { x: 6, y: 8, z: 10, lg_size: 5 });
    let o7 = b.octant(7);
    assert_eq!(o7, Bounds { x: 7, y: 9, z: 11, lg_size: 5 });
    let o5 = b.octant(5);
    assert_eq!(o5, Bounds { x: 7, y: 8, z: 11, lg_size: 5 });
}

#[test]
fn octants_tile_the_parent_exactly() {
    let b = Bounds { x: 3, y: 4, z: 5, lg_size: 6 };
    let parent = b.to_aabb();
    let mut volume: i64 = 0;
    let mut boxes: Vec<Aabb> = Vec::new();
    for k in 0..8 {
        let o = b.octant(k).to_aabb();
        assert!(
            parent.min.x <= o.min.x && o.max.x <= parent.max.x
                && parent.min.y <= o.min.y && o.max.y <= parent.max.y
                && parent.min.z <= o.min.z && o.max.z <= parent.max.z,
            "octants stay inside the parent"
        );
        volume += (o.max.x - o.min.x) * (o.max.y - o.min.y) * (o.max.z - o.min.z);
        boxes.push(o);
    }
    for i in 0..8 {
        for j in 0..8 {
            if i != j {
                assert!(!boxes[i].overlaps(&boxes[j]), "siblings share no point");
            }
        }
    }
    let parent_volume = (parent.max.x - parent.min.x) * (parent.max.y - parent.min.y)
        * (parent.max.z - parent.min.z);
    assert_eq!(volume, parent_volume, "disjoint octants filling the volume cover it");
}

#[test]
fn bounds_to_aabb_scales_by_side() {
    let b = Bounds { x: 1, y: 2, z: 3, lg_size: 4 };
    let a = b.to_aabb();
    assert_eq!(a.min, Vec3 { x: 16, y: 32, z: 48 });
    assert_eq!(a.max, Vec3 { x: 32, y: 48, z: 64 });
}

#[test]
fn whole_world_block_at_largest_size() {
    let root = Bounds { x: 0, y: 0, z: 0, lg_size: 20 };
    let mut t = Octree::new(root);
    t.insert_or_replace(root, 20, Voxel::Volume(3));
    assert_eq!(t.lookup(root), Some((20, Voxel::Volume(3))));
    assert!(root.check_wf());
    assert!(
        !Bounds { x: 0, y: 0, z: 0, lg_size: 21 }.check_wf(),
        "a region coarser than the largest size is rejected"
    );
}

#[test]
fn aabb_overlap_is_strict() {
    let a = Aabb { min: Vec3 { x: 0, y: 0, z: 0 }, max: Vec3 { x: 10, y: 10, z: 10 } };
    let b = Aabb { min: Vec3 { x: 9, y: 9, z: 9 }, max: Vec3 { x: 20, y: 20, z: 20 } };
    let c = Aabb { min: Vec3 { x: 10, y: 0, z: 0 }, max: Vec3 { x: 20, y: 10, z: 10 } };
    assert!(a.overlaps(&b));
    assert!(b.overlaps(&a));
    assert!(!a.overlaps(&c), "touching faces do not overlap");
}

#[test]
fn leaves_intersecting_filters_by_overlap() {
    let root = Bounds { x: 0, y: 0, z: 0, lg_size: 8 };
    let mut t = Octree::new(root);
    let near = Bounds { x: 0, y: 0, z: 0, lg_size: 2 };
    let far = Bounds { x: 60, y: 60, z: 60, lg_size: 2 };
    t.insert_or_replace(near, 2, Voxel::Volume(1));
    t.insert_or_replace(far, 2, Voxel::Volume(2));
    let probe = Aabb { min: Vec3 { x: 1, y: 1, z: 1 }, max: Vec3 { x: 3, y: 3, z: 3 } };
    let hits = t.leaves_intersecting(&probe);
    assert_eq!(hits.len(), 1);
    assert_eq!(hits[0], (near, 2, Voxel::Volume(1)));
}

#[test]
fn generated_leaves_lists_blocks() {
    let root = Bounds { x: 0, y: 0, z: 0, lg_size: 8 };
    let mut t = Octree::new(root);
    assert_eq!(t.generated_leaves().len(), 0);
    let b1 = Bounds { x: 5, y: 6, z: 7, lg_size: 3 };
    let b2 = Bounds { x: 2, y: 1, z: 1, lg_size: 5 };
    t.insert_or_replace(b1, 3, Voxel::Volume(1));
    t.insert_or_replace(b2, 5, Voxel::Volume(2));
    let leaves = t.generated_leaves();
    assert_eq!(leaves.len(), 2);
    assert!(leaves.contains(&(b1, 3, Voxel::Volume(1))));
    assert!(leaves.contains(&(b2, 5, Voxel::Volume(2))));
}
