use pixel_agents_tui::assets::{string_asset_id, AssetError, AssetStore, DecodedAsset};

fn make_png(w: u32, h: u32, rgba: [u8; 4]) -> Vec<u8> {
    let mut buf = image::RgbaImage::new(w, h);
    for px in buf.pixels_mut() {
        *px = image::Rgba(rgba);
    }
    let mut out = std::io::Cursor::new(Vec::new());
    image::DynamicImage::ImageRgba8(buf).write_to(&mut out, image::ImageFormat::Png).unwrap();
    out.into_inner()
}

#[test]
fn djb2_matches_daemon_vectors() {
    assert_eq!(string_asset_id(""), 5381);
    assert_eq!(string_asset_id("a"), 177670);
    assert_eq!(string_asset_id("abc"), 193485963);
}

#[test]
fn djb2_wraps_modulo_2_32() {
    let long = "pixel-agents-furniture-asset-with-a-long-name";
    let mut h: u32 = 5381;
    for b in long.bytes() {
        h = h.wrapping_mul(33).wrapping_add(b as u32);
    }
    assert_eq!(string_asset_id(long), h);
}

#[test]
fn single_frame_decodes() {
    let png = make_png(2, 3, [10, 20, 30, 255]);
    let mut store = AssetStore::new();
    let nid = store.register_request("DESK");
    let done = store.on_frame(nid, 0, true, &png).unwrap();
    assert_eq!(done.as_deref(), Some("DESK"));
    let a = store.get("DESK").unwrap();
    assert_eq!((a.width, a.height), (2, 3));
    assert_eq!(a.rgba.len(), 2 * 3 * 4);
    assert_eq!(&a.rgba[0..4], &[10, 20, 30, 255]);
}

#[test]
fn multi_chunk_reassembles() {
    let png = make_png(4, 4, [1, 2, 3, 255]);
    let mid = png.len() / 2;
    let mut store = AssetStore::new();
    let nid = store.register_request("CHAIR");
    assert_eq!(store.on_frame(nid, 0, false, &png[..mid]).unwrap(), None);
    let done = store.on_frame(nid, 0, true, &png[mid..]).unwrap();
    assert_eq!(done.as_deref(), Some("CHAIR"));
    assert_eq!(store.get("CHAIR").unwrap().width, 4);
}

#[test]
fn distinct_tiers_accumulate_independently() {
    let png0 = make_png(1, 1, [9, 9, 9, 255]);
    let png1 = make_png(2, 2, [8, 8, 8, 255]);
    let mut store = AssetStore::new();
    let nid = store.register_request("LAMP");
    assert_eq!(store.on_frame(nid, 0, false, &png0[..3]).unwrap(), None);
    assert_eq!(store.on_frame(nid, 1, false, &png1[..3]).unwrap(), None);
    store.on_frame(nid, 0, true, &png0[3..]).unwrap();
    store.on_frame(nid, 1, true, &png1[3..]).unwrap();
    assert_eq!(store.get("LAMP").unwrap().width, 2);
}

#[test]
fn unknown_numeric_id_uses_synthetic_key() {
    let png = make_png(1, 1, [0, 0, 0, 255]);
    let mut store = AssetStore::new();
    let done = store.on_frame(12345, 0, true, &png).unwrap();
    assert_eq!(done.as_deref(), Some("#12345"));
}

#[test]
fn corrupt_png_errors() {
    let mut store = AssetStore::new();
    let nid = store.register_request("BAD");
    assert!(store.on_frame(nid, 0, true, b"not a png").is_err());
}

#[test]
fn corrupt_png_error_names_asset_and_tier() {
    let mut store = AssetStore::new();
    let nid = store.register_request("BAD");
    let err = store.on_frame(nid, 4, true, b"not a png").unwrap_err();
    assert_eq!(err, AssetError::Decode { asset_id: "BAD".to_string(), tier: 4 });
    assert!(store.is_empty());
    assert!(!store.contains("BAD"));
}

#[test]
fn store_queries_reflect_decoded_sprites() {
    let mut store = AssetStore::new();
    assert!(store.is_empty());
    assert_eq!(store.len(), 0);
    let a = store.register_request("A");
    let b = store.register_request("B");
    store.on_frame(a, 0, true, &make_png(1, 1, [1, 1, 1, 255])).unwrap();
    store.on_frame(b, 0, true, &make_png(1, 1, [2, 2, 2, 255])).unwrap();
    store.on_frame(a, 0, true, &make_png(2, 1, [3, 3, 3, 255])).unwrap();
    assert_eq!(store.len(), 2);
    assert!(store.contains("A") && store.contains("B") && !store.contains("C"));
    assert_eq!(store.get("A").unwrap().width, 2);
    let names: Vec<&str> = store.iter().iter().map(|(n, _)| n.as_str()).collect();
    assert_eq!(names.len(), 2);
    assert!(names.contains(&"A") && names.contains(&"B"));
}

#[test]
fn complete_stores_or_reports() {
    let mut store = AssetStore::new();
    let sprite = DecodedAsset { width: 1, height: 1, rgba: vec![1, 2, 3, 4] };
    assert_eq!(store.complete("X".to_string(), 0, Some(sprite.clone())).unwrap(), Some("X".to_string()));
    assert_eq!(store.get("X"), Some(&sprite));
    assert_eq!(store.complete("Y".to_string(), 2, None).unwrap_err(), AssetError::Decode { asset_id: "Y".to_string(), tier: 2 });
}
