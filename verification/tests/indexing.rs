use space_carver::voxel::{Voxel, VoxelBlock};

#[test]
fn test_voxel_new_is_blank() {
    let voxel = Voxel::new();
    assert!(!voxel.carved);
    assert!(!voxel.visible);
    assert!(!voxel.seen);
    assert!(voxel.color.is_none());
}

// World coordinates are given in half-voxel units from the center of the
// block: with length 10 and resolution 10 one voxel is 1.0 world units, so
// the world point -5.0 is -10 half-voxels and -4.0 is -8.
#[test]
fn test_indexing() {
    let voxel_block = VoxelBlock::new(10, 10);
    assert_eq!(voxel_block.coordinate_to_index(-10, -10, -10), 0);
    assert_eq!(voxel_block.coordinate_to_index(-8, -10, -10), 1);
    assert_eq!(voxel_block.coordinate_to_index(-10, -8, -10), 10);
    assert_eq!(voxel_block.coordinate_to_index(-10, -10, -8), 100);
    assert_eq!(voxel_block.index_to_coordinate(0), (-10, -10, -10));
    assert_eq!(voxel_block.index_to_coordinate(1), (-8, -10, -10));
    assert_eq!(voxel_block.index_to_coordinate(11), (-8, -8, -10));
    assert_eq!(voxel_block.index_to_coordinate(111), (-8, -8, -8));
}

// Coordinate round-trip: sending a linear index out to world space and
// back recovers it, for every cell of the grid.
#[test]
fn test_coordinate_round_trip() {
    let voxel_block = VoxelBlock::new(10, 10);
    for index in 0..1000 {
        let (x, y, z) = voxel_block.index_to_coordinate(index);
        assert_eq!(voxel_block.coordinate_to_index(x, y, z), index);
    }
    let small = VoxelBlock::new(4, 2);
    for index in 0..8 {
        let (x, y, z) = small.index_to_coordinate(index);
        assert_eq!(small.coordinate_to_index(x, y, z), index);
    }
}

// Cell centers sit half a voxel above the lower corner on each axis and
// must land back in the same cell.
#[test]
fn test_center_maps_to_same_cell() {
    let voxel_block = VoxelBlock::new(10, 10);
    for index in 0..1000 {
        let (x, y, z) = voxel_block.index_to_coordinate(index);
        assert_eq!(voxel_block.coordinate_to_index(x + 1, y + 1, z + 1), index);
    }
}

// Shell initialization: a fresh grid's voxel is visible exactly when one
// of its axis indices is 0 or resolution - 1.
#[test]
fn test_shell_initialization() {
    let resolution: usize = 4;
    let voxel_block = VoxelBlock::new(8, resolution);
    for x in 0..resolution {
        for y in 0..resolution {
            for z in 0..resolution {
                let index = x + y * resolution + z * resolution * resolution;
                let voxel = &voxel_block.voxels[index];
                let on_shell = x == 0
                    || x == resolution - 1
                    || y == 0
                    || y == resolution - 1
                    || z == 0
                    || z == resolution - 1;
                assert_eq!(voxel.visible, on_shell);
                assert!(!voxel.carved);
                assert!(!voxel.seen);
                assert!(voxel.color.is_none());
            }
        }
    }
    // a single-cell grid is all shell
    let tiny = VoxelBlock::new(1, 1);
    assert!(tiny.voxels[0].visible);
}

// Carving marks the cell and reveals exactly its orthogonal neighbors.
#[test]
fn test_carve_reveals_neighbors() {
    let resolution: usize = 3;
    let mut block = VoxelBlock::new(3, resolution);
    block.carve(1, 1, 1);
    let center = 1 + 3 + 9;
    assert!(block.voxels[center].carved);
    assert!(!block.voxels[center].visible);
    assert!(block.voxels[center].seen);
    // all other cells are shell cells and stay visible and uncarved
    for i in 0..27 {
        if i != center {
            assert!(!block.voxels[i].carved);
            assert!(block.voxels[i].visible);
        }
    }
}

// Neighbor-bound correctness: carving the voxel at grid coordinate
// (0, y, z) must not mark the voxel in the last column of the previous
// row — its flat-index predecessor — visible.
#[test]
fn test_neighbor_bounds() {
    let resolution: usize = 3;
    let mut block = VoxelBlock::new(3, resolution);
    // carve the previous-row voxel (2, 0, 1) first, taking it off the frontier
    block.carve(2, 0, 1);
    let previous_row = 2 + 0 * 3 + 1 * 9;
    assert!(block.voxels[previous_row].carved);
    assert!(!block.voxels[previous_row].visible);

    // carving (0, 1, 1) has flat index previous_row + 1; a flat-index bound
    // check would treat previous_row as its left neighbor
    block.carve(0, 1, 1);
    assert!(!block.voxels[previous_row].visible);
    assert!(block.voxels[previous_row].carved);

    // the true neighbors are revealed: the interior cell (1, 1, 1)
    let interior = 1 + 3 + 9;
    assert!(block.voxels[interior].visible);
}
