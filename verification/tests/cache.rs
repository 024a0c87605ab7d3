use pixel_widgets::cache::{patch_bars, Cache};
use pixel_widgets::draw::Update;

fn texture(u: &Update) -> (usize, [u32; 2], usize, bool) {
    match u {
        Update::Texture { id, size, data, atlas } => (*id, *size, data.len(), *atlas),
        Update::TextureSubresource { .. } => panic!("expected a new texture"),
    }
}

fn subresource(u: &Update) -> (usize, [u32; 2], [u32; 2], Vec<u8>) {
    match u {
        Update::TextureSubresource { id, offset, size, data } => (*id, *offset, *size, data.clone()),
        Update::Texture { .. } => panic!("expected a texture update"),
    }
}

#[test]
fn new_cache_announces_its_textures() {
    let mut c = Cache::new(64);
    let updates = c.take_updates();
    assert_eq!(updates.len(), 2);
    assert_eq!(texture(&updates[0]), (0, [64, 64], 0, true));
    assert_eq!(texture(&updates[1]), (1, [64, 64], 0, true));
    assert!(c.take_updates().is_empty());
}

#[test]
fn small_image_goes_into_the_atlas() {
    let mut c = Cache::new(64);
    c.take_updates();
    let data: Vec<u8> = (0..16 * 8 * 4).map(|i| (i % 251) as u8).collect();
    let p = c.insert_image(16, 8, data.clone());
    assert_eq!(p.texture, 1);
    assert_eq!(*p.image_id, 1);
    let (a, side) = p.atlas_area.clone().expect("placed in the atlas");
    assert_eq!((a.left, a.top, a.right, a.bottom), (0, 0, 16, 8));
    assert_eq!(side, 64);
    let updates = c.take_updates();
    assert_eq!(updates.len(), 1);
    assert_eq!(subresource(&updates[0]), (1, [0, 0], [16, 8], data));

    let q = c.insert_image(3, 5, vec![0; 60]);
    assert_eq!(*q.image_id, 2);
    let (b, _) = q.atlas_area.clone().expect("placed in the atlas");
    assert_eq!((b.left, b.top, b.right, b.bottom), (16, 0, 19, 5));
}

#[test]
fn full_atlas_sends_images_to_their_own_texture() {
    let mut c = Cache::new(16);
    c.take_updates();
    let first = c.insert_image(16, 16, vec![1; 16 * 16 * 4]);
    assert_eq!(first.texture, 1);
    let second = c.insert_image(16, 16, vec![2; 16 * 16 * 4]);
    assert_eq!(second.texture, 2);
    assert!(second.atlas_area.is_none());
    let updates = c.take_updates();
    assert_eq!(updates.len(), 2);
    assert_eq!(texture(&updates[1]), (2, [16, 16], 16 * 16 * 4, false));
    let third = c.insert_image(4, 4, vec![3; 64]);
    assert_eq!(third.texture, 3);
    drop(first);
    let fourth = c.insert_image(4, 4, vec![4; 64]);
    assert_eq!(fourth.texture, 1);
    let (a, _) = fourth.atlas_area.clone().expect("the freed atlas takes it");
    assert_eq!((a.left, a.top, a.right, a.bottom), (0, 0, 4, 4));
    assert_eq!(*fourth.image_id, 4);
}

#[test]
fn patch_bars_find_runs_and_extent() {
    let (runs, extent) = patch_bars(&vec![0, 255, 255, 0, 200], &vec![0, 0, 129, 0, 255, 0]);
    assert_eq!(runs, vec![(1, 3), (4, 5)]);
    assert_eq!(extent, Some((2, 5)));
}

#[test]
fn patch_bars_threshold_is_strict() {
    let (runs, extent) = patch_bars(&vec![128, 129, 128], &vec![128, 128]);
    assert_eq!(runs, vec![(1, 2)]);
    assert_eq!(extent, None);
}

#[test]
fn patch_bars_of_empty_and_full_bars() {
    let (runs, extent) = patch_bars(&vec![], &vec![]);
    assert!(runs.is_empty());
    assert_eq!(extent, None);
    let (runs, extent) = patch_bars(&vec![255; 4], &vec![255; 3]);
    assert_eq!(runs, vec![(0, 4)]);
    assert_eq!(extent, Some((0, 3)));
}

#[test]
fn texture_size_is_the_side_asked_for() {
    assert_eq!(Cache::new(128).texture_size(), 128);
}

#[test]
fn fits_image_follows_the_atlas() {
    let mut c = Cache::new(64);
    assert!(c.fits_image(16, 8));
    assert!(c.fits_image(64, 64));
    assert!(!c.fits_image(65, 1));
    let small = c.insert_image(8, 8, vec![0; 256]);
    // a larger square would meet the split node of its own side that holds the small image
    assert!(!c.fits_image(16, 16));
    assert!(c.fits_image(8, 8));
    assert!(c.fits_image(4, 2));
    drop(small);
    assert!(!c.fits_image(16, 16));
    c.free_expired();
    assert!(c.fits_image(16, 16));
    assert!(c.fits_image(64, 64));
}

fn corner(p: &pixel_widgets::cache::Placement) -> Option<(usize, usize)> {
    p.atlas_area.as_ref().map(|(a, _)| (a.left, a.top))
}

#[test]
fn place_image_frees_exactly_the_flagged_areas() {
    let mut c = Cache::new(16);
    c.take_updates();
    let first = c.insert_image(8, 8, vec![0; 256]);
    let second = c.insert_image(8, 8, vec![0; 256]);
    assert_eq!((corner(&first), corner(&second)), (Some((0, 0)), Some((8, 0))));
    assert_eq!(c.expiry_flags(), vec![false, false]);
    drop(first);
    assert_eq!(c.expiry_flags(), vec![true, false]);
    let third = c.place_image(&vec![false, false], 8, 8, vec![0; 256]);
    assert_eq!(corner(&third), Some((0, 8)));
    let fourth = c.place_image(&vec![true, false, false], 8, 8, vec![0; 256]);
    assert_eq!(corner(&fourth), Some((0, 0)));
    c.free_flagged(&vec![false, true, false]);
    assert_eq!(c.expiry_flags().len(), 2);
    drop(second);
}
