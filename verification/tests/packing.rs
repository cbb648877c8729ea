use shelf_packer::images::{SourceImage, BACKGROUND};
use shelf_packer::packer::pack;

fn image_with(id: &str, width: u32, height: u32, pixels: Vec<u32>) -> SourceImage {
    SourceImage::new(String::from(id), width, height, pixels).unwrap()
}

fn blank_image(id: &str, width: u32, height: u32) -> SourceImage {
    image_with(id, width, height, vec![0xFF00FFFF; (width * height) as usize])
}

#[test]
fn scenario_three_images() {
    let images = vec![
        blank_image("A", 2, 2),
        blank_image("B", 2, 1),
        blank_image("C", 3, 1),
    ];
    let (_atlas, manifest) = pack(&images, 4);
    assert_eq!(manifest.len(), 3);
    assert_eq!(manifest[0].id, "A");
    assert_eq!((manifest[0].x, manifest[0].y, manifest[0].width, manifest[0].height), (0, 0, 2, 2));
    assert_eq!(manifest[1].id, "B");
    assert_eq!((manifest[1].x, manifest[1].y, manifest[1].width, manifest[1].height), (2, 0, 2, 1));
    assert_eq!(manifest[2].id, "C");
    assert_eq!((manifest[2].x, manifest[2].y, manifest[2].width, manifest[2].height), (0, 2, 3, 1));
}

#[test]
fn empty_input_blank_atlas() {
    let images: Vec<SourceImage> = Vec::new();
    let (atlas, manifest) = pack(&images, 8);
    assert_eq!(manifest.len(), 0);
    assert_eq!(atlas.size, 8);
    for y in 0..8 {
        for x in 0..8 {
            assert_eq!(atlas.pixel(x, y), BACKGROUND);
        }
    }
}

#[test]
fn too_tall_image_skipped() {
    let images = vec![blank_image("tall", 1, 5), blank_image("small", 2, 2)];
    let (_atlas, manifest) = pack(&images, 4);
    assert_eq!(manifest.len(), 1);
    assert_eq!(manifest[0].id, "small");
    assert_eq!((manifest[0].x, manifest[0].y), (0, 0));
}

#[test]
fn too_wide_image_skipped() {
    let images = vec![blank_image("wide", 5, 1), blank_image("small", 1, 1)];
    let (_atlas, manifest) = pack(&images, 4);
    assert_eq!(manifest.len(), 1);
    assert_eq!(manifest[0].id, "small");
}

#[test]
fn pixel_fidelity_one_image() {
    // Row-major 2 x 2 grid: index y * width + x.
    let images = vec![image_with("quad", 2, 2, vec![1, 2, 3, 4])];
    let (atlas, manifest) = pack(&images, 4);
    assert_eq!(manifest.len(), 1);
    assert_eq!(atlas.pixel(0, 0), 1);
    assert_eq!(atlas.pixel(1, 0), 2);
    assert_eq!(atlas.pixel(0, 1), 3);
    assert_eq!(atlas.pixel(1, 1), 4);
    // Everything outside the placed rectangle keeps the background.
    assert_eq!(atlas.pixel(2, 0), BACKGROUND);
    assert_eq!(atlas.pixel(0, 2), BACKGROUND);
    assert_eq!(atlas.pixel(3, 3), BACKGROUND);
}

#[test]
fn deterministic_repacking() {
    let images = vec![
        image_with("P", 2, 2, vec![9, 8, 7, 6]),
        image_with("Q", 1, 2, vec![5, 4]),
        blank_image("R", 3, 1),
    ];
    let (atlas1, manifest1) = pack(&images, 4);
    let (atlas2, manifest2) = pack(&images, 4);
    assert_eq!(atlas1.pixels, atlas2.pixels);
    assert_eq!(manifest1.len(), manifest2.len());
    for (e1, e2) in manifest1.iter().zip(manifest2.iter()) {
        assert_eq!(e1.id, e2.id);
        assert_eq!((e1.x, e1.y, e1.width, e1.height), (e2.x, e2.y, e2.width, e2.height));
    }
}

#[test]
fn trivial_fit_places_everything() {
    // Widths sum to the atlas side, heights stay within it.
    let images = vec![
        blank_image("one", 1, 3),
        blank_image("two", 1, 2),
        blank_image("three", 2, 1),
    ];
    let (_atlas, manifest) = pack(&images, 4);
    assert_eq!(manifest.len(), 3);
}

#[test]
fn exact_width_fits_on_shelf() {
    // The second image ends exactly at the atlas edge: no wrap.
    let images = vec![blank_image("L", 2, 2), blank_image("R", 2, 2)];
    let (_atlas, manifest) = pack(&images, 4);
    assert_eq!(manifest.len(), 2);
    assert_eq!(manifest[0].id, "L");
    assert_eq!((manifest[0].x, manifest[0].y), (0, 0));
    assert_eq!(manifest[1].id, "R");
    assert_eq!((manifest[1].x, manifest[1].y), (2, 0));
}

#[test]
fn wrap_to_second_shelf() {
    let images = vec![blank_image("A", 3, 2), blank_image("B", 2, 2)];
    let (_atlas, manifest) = pack(&images, 4);
    assert_eq!(manifest.len(), 2);
    assert_eq!((manifest[0].x, manifest[0].y), (0, 0));
    assert_eq!(manifest[1].id, "B");
    assert_eq!((manifest[1].x, manifest[1].y), (0, 2));
}

#[test]
fn abandoned_shelf_reused_after_skip() {
    // B forces a wrap it cannot fit under and is dropped; the row height is
    // reset, so C is still placed from the same shelf top.
    let images = vec![
        blank_image("A", 3, 3),
        blank_image("B", 2, 2),
        blank_image("C", 4, 1),
    ];
    let (_atlas, manifest) = pack(&images, 4);
    assert_eq!(manifest.len(), 2);
    assert_eq!(manifest[0].id, "A");
    assert_eq!((manifest[0].x, manifest[0].y), (0, 0));
    assert_eq!(manifest[1].id, "C");
    assert_eq!((manifest[1].x, manifest[1].y), (0, 3));
}

#[test]
fn equal_heights_keep_input_order() {
    let images = vec![blank_image("first", 1, 1), blank_image("second", 1, 1)];
    let (_atlas, manifest) = pack(&images, 4);
    assert_eq!(manifest.len(), 2);
    assert_eq!(manifest[0].id, "first");
    assert_eq!((manifest[0].x, manifest[0].y), (0, 0));
    assert_eq!(manifest[1].id, "second");
    assert_eq!((manifest[1].x, manifest[1].y), (1, 0));
}

#[test]
fn source_image_validation() {
    assert!(SourceImage::new(String::from("ok"), 2, 3, vec![0; 6]).is_some());
    assert!(SourceImage::new(String::from("short"), 2, 3, vec![0; 5]).is_none());
    assert!(SourceImage::new(String::from("long"), 2, 3, vec![0; 7]).is_none());
    assert!(SourceImage::new(String::from("flat"), 0, 3, vec![]).is_none());
    assert!(SourceImage::new(String::from("thin"), 3, 0, vec![]).is_none());
}

#[test]
fn two_images_fidelity_and_background() {
    let images = vec![
        image_with("big", 2, 2, vec![11, 12, 13, 14]),
        image_with("small", 1, 1, vec![99]),
    ];
    let (atlas, manifest) = pack(&images, 3);
    assert_eq!(manifest.len(), 2);
    assert_eq!(manifest[0].id, "big");
    assert_eq!((manifest[0].x, manifest[0].y), (0, 0));
    assert_eq!(manifest[1].id, "small");
    assert_eq!((manifest[1].x, manifest[1].y), (2, 0));
    assert_eq!(atlas.pixel(0, 0), 11);
    assert_eq!(atlas.pixel(1, 0), 12);
    assert_eq!(atlas.pixel(0, 1), 13);
    assert_eq!(atlas.pixel(1, 1), 14);
    assert_eq!(atlas.pixel(2, 0), 99);
    assert_eq!(atlas.pixel(2, 1), BACKGROUND);
    assert_eq!(atlas.pixel(0, 2), BACKGROUND);
    assert_eq!(atlas.pixel(2, 2), BACKGROUND);
}
