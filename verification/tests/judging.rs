use space_carver::carver::{
    colors_roughly_equal, is_roughly_equal, project_coordinate, should_carve_voxel, Consistency,
    Plane,
};
use space_carver::color::Rgb;
use space_carver::image::{Image, ImageError};

fn rgb(r: u8, g: u8, b: u8) -> Rgb {
    Rgb { r, g, b }
}

/// One-pixel camera: every listed cell projects onto its single pixel.
fn one_pixel_image(color: (u8, u8, u8), look: (i8, i8, i8), cells: usize) -> Image {
    Image::new(
        vec![color.0, color.1, color.2],
        1,
        1,
        look.0,
        look.1,
        look.2,
        vec![Some(0); cells],
    )
    .unwrap()
}

#[test]
fn test_is_roughly_equal() {
    assert!(is_roughly_equal(10, 10, 10));
    assert!(is_roughly_equal(10, 12, 10));
    assert!(is_roughly_equal(12, 10, 10));
    assert!(is_roughly_equal(20, 10, 10));
    assert!(is_roughly_equal(10, 20, 10));
    assert!(is_roughly_equal(5, 10, 10));
    assert!(is_roughly_equal(10, 5, 10));
    assert!(is_roughly_equal(254, 250, 10));
    assert!(is_roughly_equal(250, 254, 10));
    assert!(!is_roughly_equal(22, 10, 10));
    assert!(!is_roughly_equal(10, 22, 10));
}

// Consistency averaging: (10,10,10) and (20,20,20) with tolerance 5 agree
// on their mean (15,15,15).
#[test]
fn test_consistency_averaging() {
    let colors = vec![rgb(10, 10, 10), rgb(20, 20, 20)];
    assert_eq!(colors_roughly_equal(&colors, 5), Some(rgb(15, 15, 15)));
}

// Consistency averaging: (10,10,10) against (200,10,10) with tolerance 50
// is inconsistent — the red channel strays 95 from the mean of 105.
#[test]
fn test_consistency_inconsistent() {
    let colors = vec![rgb(10, 10, 10), rgb(200, 10, 10)];
    assert_eq!(colors_roughly_equal(&colors, 50), None);
}

// The mean rounds down per channel, as integer division does.
#[test]
fn test_mean_rounds_down() {
    let colors = vec![rgb(10, 10, 10), rgb(15, 15, 15)];
    assert_eq!(colors_roughly_equal(&colors, 50), Some(rgb(12, 12, 12)));
}

// Just outside the tolerance window the colors disagree.
#[test]
fn test_tolerance_boundary() {
    let colors = vec![rgb(10, 10, 10), rgb(20, 20, 20)];
    assert_eq!(colors_roughly_equal(&colors, 5), Some(rgb(15, 15, 15)));
    assert_eq!(colors_roughly_equal(&colors, 4), None);
}

#[test]
fn test_single_color_is_its_own_mean() {
    let colors = vec![rgb(7, 80, 255)];
    assert_eq!(colors_roughly_equal(&colors, 0), Some(rgb(7, 80, 255)));
}

// Background carving: one camera seeing pure black at the voxel's center
// outvotes every other camera, whatever colors they report.
#[test]
fn test_background_overrides() {
    let mut images = vec![
        one_pixel_image((200, 10, 10), (1, 0, 0), 1),
        one_pixel_image((0, 0, 0), (1, 0, 0), 1),
    ];
    let verdict = should_carve_voxel(0, &mut images, Plane::X, false, 50);
    assert_eq!(verdict, Consistency::Background);
    // nothing is claimed on a carve verdict
    assert!(!images[0].marked[0]);
    assert!(!images[1].marked[0]);
}

// A camera looking the wrong way along the swept axis has no opinion, even
// when it sees black.
#[test]
fn test_direction_filter() {
    let mut images = vec![one_pixel_image((0, 0, 0), (-1, 0, 0), 1)];
    assert_eq!(
        should_carve_voxel(0, &mut images, Plane::X, false, 50),
        Consistency::Inconclusive
    );
    // the same camera does take part in the backward sweep
    assert_eq!(
        should_carve_voxel(0, &mut images, Plane::X, true, 50),
        Consistency::Background
    );
}

// A consistent voxel claims its pixels; a farther voxel that projects onto
// the same pixel is starved of that camera's opinion and left inconclusive.
#[test]
fn test_claim_starvation() {
    let mut images = vec![one_pixel_image((100, 100, 100), (1, 0, 0), 2)];
    let first = should_carve_voxel(0, &mut images, Plane::X, false, 50);
    assert_eq!(first, Consistency::Consistent(rgb(100, 100, 100)));
    assert!(images[0].marked[0]);

    let second = should_carve_voxel(1, &mut images, Plane::X, false, 50);
    assert_eq!(second, Consistency::Inconclusive);
}

// Disagreeing cameras make a voxel inconsistent, and claim nothing.
#[test]
fn test_inconsistent_claims_nothing() {
    let mut images = vec![
        one_pixel_image((10, 10, 10), (1, 0, 0), 1),
        one_pixel_image((200, 10, 10), (1, 0, 0), 1),
    ];
    let verdict = should_carve_voxel(0, &mut images, Plane::X, false, 50);
    assert_eq!(verdict, Consistency::Inconsistent);
    assert!(!images[0].marked[0]);
    assert!(!images[1].marked[0]);
}

// project_coordinate reports the projected pixel until it is claimed.
#[test]
fn test_project_coordinate_respects_claims() {
    let mut image = one_pixel_image((9, 9, 9), (1, 0, 0), 1);
    assert_eq!(project_coordinate(0, &image), Some(0));
    image.marked[0] = true;
    assert_eq!(project_coordinate(0, &image), None);
}

// An out-of-frame cell contributes no opinion.
#[test]
fn test_out_of_frame_is_inconclusive() {
    let image = Image::new(vec![50, 50, 50], 1, 1, 1, 0, 0, vec![None]).unwrap();
    let mut images = vec![image];
    assert_eq!(
        should_carve_voxel(0, &mut images, Plane::X, false, 50),
        Consistency::Inconclusive
    );
}

// A pixel buffer whose length does not match width*height*3 is rejected at
// construction.
#[test]
fn test_image_data_size_mismatch() {
    let result = Image::new(vec![1, 2, 3, 4], 1, 1, 1, 0, 0, vec![Some(0)]);
    assert_eq!(result.err(), Some(ImageError::DataSizeMismatch));
}

// A projection entry naming a pixel outside the frame is rejected at
// construction.
#[test]
fn test_image_projection_out_of_frame() {
    let result = Image::new(vec![1, 2, 3], 1, 1, 1, 0, 0, vec![Some(1)]);
    assert_eq!(result.err(), Some(ImageError::ProjectionOutOfFrame));
}

#[test]
fn test_image_new_starts_unclaimed() {
    let image = Image::new(vec![1, 2, 3, 4, 5, 6], 2, 1, 0, 1, 0, vec![Some(1)]).unwrap();
    assert_eq!(image.marked, vec![false, false]);
    assert_eq!(image.width, 2);
    assert_eq!(image.height, 1);
}
