use pixel_widgets::cache::{Cache, LoadError};
use pixel_widgets::draw::Update;

fn png(width: u32, height: u32, texels: Vec<u8>) -> Vec<u8> {
    let image = image::RgbaImage::from_raw(width, height, texels).expect("the texels fill the image");
    let mut bytes = Vec::new();
    image
        .write_to(&mut std::io::Cursor::new(&mut bytes), image::ImageFormat::Png)
        .expect("the image encodes");
    bytes
}

fn last_data(c: &mut Cache) -> (usize, [u32; 2], Vec<u8>) {
    match c.take_updates().pop().expect("an update") {
        Update::TextureSubresource { id, size, data, .. } => (id, size, data),
        Update::Texture { id, size, data, .. } => (id, size, data),
    }
}

#[test]
fn encoded_image_is_decoded_and_placed() {
    let texels: Vec<u8> = (0..3 * 2 * 4).map(|i| i as u8).collect();
    let mut c = Cache::new(64);
    c.take_updates();
    let (p, w, h) = c.load_image_bytes(&png(3, 2, texels.clone())).unwrap();
    assert_eq!((w, h), (3, 2));
    assert_eq!(p.texture, 1);
    let (area, side) = p.atlas_area.clone().unwrap();
    assert_eq!((area.left, area.top, area.right, area.bottom, side), (0, 0, 3, 2, 64));
    assert_eq!(last_data(&mut c), (1, [3, 2], texels));
}

#[test]
fn bytes_that_are_no_image_are_refused() {
    let mut c = Cache::new(64);
    c.take_updates();
    assert!(matches!(c.load_image_bytes(&[1, 2, 3, 4]), Err(LoadError::Decode)));
    assert!(matches!(c.load_patch_bytes(&[]), Err(LoadError::Decode)));
    assert!(c.take_updates().is_empty());
}

#[test]
fn image_wider_than_the_atlas_is_too_large() {
    let mut c = Cache::new(4);
    c.take_updates();
    assert!(matches!(c.load_image_bytes(&png(5, 1, vec![0; 20])), Err(LoadError::TooLarge)));
    assert!(c.take_updates().is_empty());
}

#[test]
fn patch_needs_a_border() {
    let mut c = Cache::new(64);
    assert!(matches!(c.load_patch_bytes(&png(1, 3, vec![0; 12])), Err(LoadError::NoBorder)));
}

#[test]
fn patch_reads_its_bars_and_drops_its_border() {
    // A 5 by 4 patch: the inside is 3 by 2 texels.
    let (w, h) = (5u32, 4u32);
    let mut texels = vec![0u8; (w * h * 4) as usize];
    let set = |t: &mut Vec<u8>, x: u32, y: u32, rgba: [u8; 4]| {
        let i = ((y * w + x) * 4) as usize;
        t[i..i + 4].copy_from_slice(&rgba);
    };
    // Stretch marks: top border over columns 1 and 2 (inner 0 and 1), left border over row 2.
    set(&mut texels, 1, 0, [0, 0, 0, 255]);
    set(&mut texels, 2, 0, [0, 0, 0, 255]);
    set(&mut texels, 0, 2, [0, 0, 0, 255]);
    // Content marks: bottom border over column 3 (inner 2), right border over row 1.
    set(&mut texels, 3, 3, [0, 0, 0, 200]);
    set(&mut texels, 4, 1, [0, 0, 0, 200]);
    // Inner texels, each its own colour.
    for y in 1..3 {
        for x in 1..4 {
            set(&mut texels, x, y, [x as u8, y as u8, 7, 9]);
        }
    }
    let mut c = Cache::new(64);
    c.take_updates();
    let p = c.load_patch_bytes(&png(w, h, texels)).unwrap();
    assert_eq!((p.width, p.height), (3, 2));
    assert_eq!(p.h_stretch, vec![(0, 2)]);
    assert_eq!(p.v_stretch, vec![(1, 2)]);
    assert_eq!(p.h_content, Some((2, 3)));
    assert_eq!(p.v_content, Some((0, 1)));
    let (area, _) = p.placement.atlas_area.clone().unwrap();
    assert_eq!((area.right - area.left, area.bottom - area.top), (3, 2));
    let expected: Vec<u8> = vec![1, 1, 7, 9, 2, 1, 7, 9, 3, 1, 7, 9, 1, 2, 7, 9, 2, 2, 7, 9, 3, 2, 7, 9];
    assert_eq!(last_data(&mut c), (1, [3, 2], expected));
}

#[test]
fn texels_are_loaded_without_decoding() {
    let mut c = Cache::new(64);
    c.take_updates();
    let (p, w, h) = c.load_image_texels(2, 1, vec![1, 2, 3, 4, 5, 6, 7, 8]).unwrap();
    assert_eq!((w, h, p.texture), (2, 1, 1));
    assert_eq!(last_data(&mut c), (1, [2, 1], vec![1, 2, 3, 4, 5, 6, 7, 8]));
    assert!(matches!(c.load_image_texels(65, 1, vec![0; 260]), Err(LoadError::TooLarge)));
    assert!(matches!(c.load_patch_texels(1, 1, vec![0; 4]), Err(LoadError::NoBorder)));
    let patch = c.load_patch_texels(3, 3, vec![255; 36]).unwrap();
    assert_eq!((patch.width, patch.height), (1, 1));
    assert_eq!(patch.h_stretch, vec![(0, 1)]);
    assert_eq!(patch.v_content, Some((0, 1)));
}
