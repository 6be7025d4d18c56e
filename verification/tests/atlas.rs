use ecs_core::atlas::{AtlasBuilder, AtlasImage};

fn image(width: u32, height: u32) -> AtlasImage {
    AtlasImage { pixels: vec![0; (width * height * 4) as usize], width, height }
}

#[test]
fn handles_count_the_images() {
    let mut builder = AtlasBuilder::new();
    assert_eq!(builder.add_image(image(2, 2)), 0);
    assert_eq!(builder.add_image(image(3, 1)), 1);
    assert_eq!(builder.add_image(image(1, 1)), 2);
    assert_eq!(builder.images().len(), 3);
    assert_eq!(builder.images()[1].width, 3);
}

#[test]
fn images_fill_rows_left_to_right() {
    let images = vec![image(4, 2), image(5, 7), image(3, 1), image(10, 4), image(1, 1)];
    // width 10: [4x2, 5x7] | [3x1] | [10x4] | [1x1]
    assert_eq!(
        AtlasBuilder::placements(&images, 10),
        Some(vec![(0, 0), (4, 0), (0, 7), (0, 8), (0, 12)])
    );
    assert_eq!(AtlasBuilder::calculate_atlas_height(&images, 10), Some(13));
    // width 12: [4x2, 5x7, 3x1] | [10x4, 1x1]
    assert_eq!(
        AtlasBuilder::placements(&images, 12),
        Some(vec![(0, 0), (4, 0), (9, 0), (0, 7), (10, 7)])
    );
    assert_eq!(AtlasBuilder::calculate_atlas_height(&images, 12), Some(11));
}

#[test]
fn an_image_wider_than_the_atlas_gets_a_row_of_its_own() {
    let images = vec![image(2, 3), image(50, 1), image(2, 2)];
    assert_eq!(AtlasBuilder::placements(&images, 8), Some(vec![(0, 0), (0, 3), (0, 4)]));
    assert_eq!(AtlasBuilder::calculate_atlas_height(&images, 8), Some(6));
}

#[test]
fn no_images_make_an_atlas_of_no_height() {
    assert_eq!(AtlasBuilder::calculate_atlas_height(&[], 2048), Some(0));
    assert_eq!(AtlasBuilder::placements(&[], 2048), Some(vec![]));
}

#[test]
fn an_atlas_too_high_is_refused() {
    let tall = |height: u32| AtlasImage { pixels: Vec::new(), width: 3, height };
    let images = vec![tall(u32::MAX), tall(1)];
    assert_eq!(AtlasBuilder::calculate_atlas_height(&images, 4), None);
    assert_eq!(AtlasBuilder::placements(&images, 4), None);
    let images = vec![tall(u32::MAX - 1), tall(1)];
    assert_eq!(AtlasBuilder::calculate_atlas_height(&images, 4), Some(u32::MAX));
    assert_eq!(AtlasBuilder::placements(&images, 4), Some(vec![(0, 0), (0, u32::MAX - 1)]));
}

#[test]
fn flipping_turns_the_rows_round() {
    let picture = AtlasImage {
        pixels: vec![
            1, 1, 1, 1, 2, 2, 2, 2, // row 0
            3, 3, 3, 3, 4, 4, 4, 4, // row 1
            5, 5, 5, 5, 6, 6, 6, 6, // row 2
        ],
        width: 2,
        height: 3,
    };
    assert_eq!(
        picture.flipped_pixels(),
        Some(vec![
            5, 5, 5, 5, 6, 6, 6, 6, //
            3, 3, 3, 3, 4, 4, 4, 4, //
            1, 1, 1, 1, 2, 2, 2, 2,
        ])
    );
}

#[test]
fn flipping_needs_all_the_texels() {
    let short = AtlasImage { pixels: vec![0; 23], width: 2, height: 3 };
    assert_eq!(short.flipped_pixels(), None);
    let long = AtlasImage { pixels: vec![9; 30], width: 2, height: 3 };
    assert_eq!(long.flipped_pixels(), Some(vec![9; 24]));
    let empty = AtlasImage { pixels: vec![1, 2, 3], width: 0, height: 5 };
    assert_eq!(empty.flipped_pixels(), Some(vec![]));
}
