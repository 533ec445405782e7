use spark::assets::{AssetIndex, AssetKind};
use spark::textures::file_changed;
use spark::assets::TextureData;
use spark::textures::TextureCache;

fn png(width: u32, height: u32, rgba: Vec<u8>) -> Vec<u8> {
    let img = image::RgbaImage::from_raw(width, height, rgba).unwrap();
    let mut buf = Vec::new();
    image::DynamicImage::ImageRgba8(img)
        .write_to(&mut std::io::Cursor::new(&mut buf), image::ImageFormat::Png)
        .unwrap();
    buf
}

#[test]
fn texture_is_decoded_once_and_a_failed_decode_caches_nothing() {
    let mut cache = TextureCache::new();
    let bytes = png(2, 1, vec![255, 0, 0, 255, 0, 255, 0, 128]);
    assert!(cache.load("a.png", &bytes));
    let t = cache.get("a.png").unwrap();
    assert_eq!((t.width, t.height, t.version), (2, 1, 0));
    assert_eq!(t.rgba, vec![255, 0, 0, 255, 0, 255, 0, 128]);
    assert!(!cache.load("b.png", b"not an image"));
    assert!(cache.get("b.png").is_none());
    // already cached: the new bytes are not decoded
    assert!(cache.load("a.png", b"not an image"));
    assert_eq!(cache.get("a.png").unwrap().width, 2);
}

#[test]
fn reload_replaces_the_image_and_bumps_the_version() {
    let mut cache = TextureCache::new();
    assert!(cache.load("a.png", &png(1, 1, vec![1, 2, 3, 4])));
    assert!(!cache.reload("a.png", b"broken"));
    assert_eq!(cache.get("a.png").unwrap().version, 0);
    assert!(cache.reload("a.png", &png(1, 2, vec![9, 9, 9, 9, 8, 8, 8, 8])));
    let t = cache.get("a.png").unwrap();
    assert_eq!((t.width, t.height, t.version), (1, 2, 1));
    assert_eq!(t.rgba, vec![9, 9, 9, 9, 8, 8, 8, 8]);
    assert!(!cache.reload("missing.png", &png(1, 1, vec![0, 0, 0, 0])));
    assert!(cache.get("missing.png").is_none());
}

#[test]
fn a_changed_model_drops_its_textures() {
    let mut cache = TextureCache::new();
    let tex = |w: u32| Some(TextureData { width: w, height: 1, rgba: vec![0; (w * 4) as usize], version: 0 });
    assert!(cache.insert_decoded("m.glb#tex0", tex(1)));
    assert!(cache.insert_decoded("m.glb#tex1", tex(2)));
    assert!(cache.insert_decoded("m.glb2#tex0", tex(3)));
    assert!(cache.insert_decoded("a.png", tex(4)));
    assert!(!cache.insert_decoded("b.png", None));
    cache.drop_derived("m.glb");
    assert!(cache.get("m.glb#tex0").is_none() && cache.get("m.glb#tex1").is_none());
    assert_eq!(cache.get("m.glb2#tex0").unwrap().width, 3);
    assert_eq!(cache.get("a.png").unwrap().width, 4);
}

#[test]
fn file_changes_reload_and_invalidate() {
    let mut index = AssetIndex::new();
    index.index_mut_for("a.png".to_string(), "png", true);
    index.index_mut_for("m.glb".to_string(), "glb", true);
    index.index_mut_for("s.wav".to_string(), "wav", true);
    let mut cache = TextureCache::new();
    assert!(cache.load("a.png", &png(1, 1, vec![1, 1, 1, 1])));
    assert!(cache.insert_decoded("m.glb#tex0", Some(TextureData { width: 1, height: 1, rgba: vec![0; 4], version: 0 })));
    let mut reloaded: Vec<String> = Vec::new();
    let new = png(2, 1, vec![2; 8]);
    assert_eq!(file_changed(&mut index, &mut cache, &mut reloaded, "a.png", Some(&new)), Some(AssetKind::Texture));
    assert_eq!(cache.get("a.png").unwrap().version, 1);
    assert_eq!(index.meta("a.png").unwrap().version, 1);
    assert_eq!(file_changed(&mut index, &mut cache, &mut reloaded, "m.glb", None), Some(AssetKind::Model));
    assert!(cache.get("m.glb#tex0").is_none());
    assert_eq!(file_changed(&mut index, &mut cache, &mut reloaded, "s.wav", None), Some(AssetKind::Sound));
    assert_eq!(file_changed(&mut index, &mut cache, &mut reloaded, "nope.txt", None), None);
    assert_eq!(reloaded, vec!["a.png".to_string(), "m.glb".to_string()]);
}
