use space_carver::carver::{carve, sweep_plane, Plane};
use space_carver::color::Rgb;
use space_carver::image::Image;
use space_carver::voxel::VoxelBlock;

/// A camera whose film is one pixel per grid cell: cell `i` projects onto
/// pixel `i`.  Every pixel holds the same color.
fn uniform_camera(color: (u8, u8, u8), look: (i8, i8, i8), cells: usize) -> Image {
    let mut data = Vec::new();
    for _ in 0..cells {
        data.push(color.0);
        data.push(color.1);
        data.push(color.2);
    }
    let projection = (0..cells).map(Some).collect();
    Image::new(data, cells, 1, look.0, look.1, look.2, projection).unwrap()
}

fn shell_of(resolution: usize, index: usize) -> bool {
    let x = index % resolution;
    let y = (index / resolution) % resolution;
    let z = index / (resolution * resolution);
    x == 0
        || x == resolution - 1
        || y == 0
        || y == resolution - 1
        || z == 0
        || z == resolution - 1
}

// End-to-end: an all-black image from a single camera carves the whole
// grid away, pass by pass, to an empty block.
#[test]
fn test_all_black_carves_everything() {
    let resolution: usize = 3;
    let cells = resolution * resolution * resolution;
    let mut block = VoxelBlock::new(3, resolution);
    let mut images = vec![uniform_camera((0, 0, 0), (1, 0, 0), cells)];
    carve(&mut block, &mut images, 50);
    for i in 0..cells {
        assert!(block.voxels[i].carved);
        assert!(!block.voxels[i].visible);
    }
}

// End-to-end: a uniformly colored silhouette seen from all six directions
// converges in one pass to a shell of consistent, colored voxels with no
// carving at all.
#[test]
fn test_uniform_silhouette_keeps_shell() {
    let resolution: usize = 3;
    let cells = resolution * resolution * resolution;
    let mut block = VoxelBlock::new(3, resolution);
    let mut images = vec![
        uniform_camera((100, 100, 100), (1, 0, 0), cells),
        uniform_camera((100, 100, 100), (-1, 0, 0), cells),
        uniform_camera((100, 100, 100), (0, 1, 0), cells),
        uniform_camera((100, 100, 100), (0, -1, 0), cells),
        uniform_camera((100, 100, 100), (0, 0, 1), cells),
        uniform_camera((100, 100, 100), (0, 0, -1), cells),
    ];
    carve(&mut block, &mut images, 50);
    for i in 0..cells {
        assert!(!block.voxels[i].carved);
        if shell_of(resolution, i) {
            assert!(block.voxels[i].visible);
            assert_eq!(block.voxels[i].color, Some(Rgb { r: 100, g: 100, b: 100 }));
        } else {
            assert!(!block.voxels[i].visible);
            assert!(block.voxels[i].color.is_none());
        }
    }
    // each shell cell claimed its pixel in the forward-X camera
    for i in 0..cells {
        assert_eq!(images[0].marked[i], shell_of(resolution, i));
    }
}

// Monotonic carving: a carved voxel stays carved and invisible through
// later passes.
#[test]
fn test_carved_stays_carved() {
    let resolution: usize = 2;
    let cells = resolution * resolution * resolution;
    let mut block = VoxelBlock::new(2, resolution);
    block.carve(0, 0, 0);
    // cameras with no opinion leave everything else alone
    let mut images: Vec<Image> = Vec::new();
    carve(&mut block, &mut images, 50);
    assert!(block.voxels[0].carved);
    assert!(!block.voxels[0].visible);
    for i in 1..cells {
        assert!(!block.voxels[i].carved);
    }
}

// A sweep reports exactly how many voxels it carved, and a sweep with no
// matching camera is a no-op.
#[test]
fn test_sweep_counts_carves() {
    let resolution: usize = 2;
    let cells = resolution * resolution * resolution;
    let mut block = VoxelBlock::new(2, resolution);
    let mut images = vec![uniform_camera((0, 0, 0), (1, 0, 0), cells)];

    let none = sweep_plane(&Plane::Y, false, &mut images, &mut block, 50);
    assert_eq!(none, 0);
    // a sweep with no matching camera is a no-op
    for i in 0..cells {
        assert!(!block.voxels[i].carved);
        assert!(block.voxels[i].color.is_none());
        assert!(!images[0].marked[i]);
    }

    let count = sweep_plane(&Plane::X, false, &mut images, &mut block, 50);
    assert_eq!(count, cells);
    for i in 0..cells {
        assert!(block.voxels[i].carved);
    }
}

// A single-cell grid seen as background empties in one pass.
#[test]
fn test_single_cell_grid() {
    let mut block = VoxelBlock::new(1, 1);
    let mut images = vec![uniform_camera((0, 0, 0), (0, 0, -1), 1)];
    carve(&mut block, &mut images, 50);
    assert!(block.voxels[0].carved);
}
