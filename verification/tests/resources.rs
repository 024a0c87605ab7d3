use pixel_widgets::cache::{Cache, LoadError};
use pixel_widgets::resources::Resources;
use pixel_widgets::style::parse::{BackgroundValue, HexColor};

fn png(width: u32, height: u32) -> Vec<u8> {
    let image = image::RgbaImage::from_raw(width, height, vec![200; (width * height * 4) as usize]).unwrap();
    let mut bytes = Vec::new();
    image.write_to(&mut std::io::Cursor::new(&mut bytes), image::ImageFormat::Png).unwrap();
    bytes
}

fn white() -> HexColor {
    HexColor { r: 1, g: 1, b: 1, a: 1, max: 1 }
}

#[test]
fn a_url_is_read_once() {
    let mut cache = Cache::new(64);
    let mut res = Resources::new();
    let image = BackgroundValue::Image("a.png".to_string(), white());
    let (url, patch) = res.needs_read(&image).expect("not loaded yet");
    assert_eq!((url.as_str(), patch), ("a.png", false));
    assert_eq!(res.load(&mut cache, url, patch, &png(2, 2)).ok(), Some(0));
    assert!(res.needs_read(&image).is_none());
    assert_eq!(res.image_index("a.png"), Some(0));
    // the same url as a nine-patch is another resource
    let patch_value = BackgroundValue::Patch("a.png".to_string(), white());
    assert_eq!(res.needs_read(&patch_value).map(|(u, p)| (u, p)), Some(("a.png".to_string(), true)));
    assert!(res.needs_read(&BackgroundValue::Clear).is_none());
    assert!(res.needs_read(&BackgroundValue::Color(white())).is_none());
}

#[test]
fn a_url_that_does_not_decode_is_not_recorded() {
    let mut cache = Cache::new(64);
    let mut res = Resources::new();
    assert!(matches!(res.load(&mut cache, "x.png".to_string(), false, &[0, 1, 2]), Err(LoadError::Decode)));
    assert_eq!(res.image_index("x.png"), None);
    assert!(matches!(res.load(&mut cache, "p.9.png".to_string(), true, &png(3, 3)), Ok(0)));
    assert_eq!(res.patch_index("p.9.png"), Some(0));
}
