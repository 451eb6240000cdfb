use magpie_app::image_cache::{
    expected_len, header_dims, parse_tagged_rgba, thumb_sibling, trusted_dims, FsImageStore,
};

/// Exactly the blob the platform clipboards build: LE width, LE height, RGBA.
fn tagged(w: u32, h: u32) -> Vec<u8> {
    let mut v = Vec::new();
    v.extend_from_slice(&w.to_le_bytes());
    v.extend_from_slice(&h.to_le_bytes());
    v.extend(std::iter::repeat(200u8).take((w * h * 4) as usize));
    v
}

#[test]
fn parse_tagged_rgba_reads_the_platform_container() {
    let blob = tagged(4, 2);
    let (w, h, rgba) = parse_tagged_rgba(&blob).unwrap();
    assert_eq!((w, h), (4, 2));
    assert_eq!(rgba.len(), 4 * 2 * 4);
}

#[test]
fn parse_tagged_rgba_rejects_bad_blobs() {
    assert!(parse_tagged_rgba(b"").is_none());
    assert!(parse_tagged_rgba(b"hello world").is_none());
    assert!(parse_tagged_rgba(&tagged(4, 2)[..20]).is_none()); // truncated
    let mut zero = tagged(1, 1);
    zero[0..4].copy_from_slice(&0u32.to_le_bytes()); // zero width
    assert!(parse_tagged_rgba(&zero).is_none());
}

#[test]
fn header_and_lengths() {
    let head = [0x50, 0x00, 0x00, 0x00, 0x28, 0x00, 0x00, 0x01];
    assert_eq!(header_dims(&head), (80, 0x0100_0028));
    assert_eq!(expected_len(80, 40), Some(80 * 40 * 4 + 8));
    assert_eq!(expected_len(u32::MAX, u32::MAX), None);
    let small = [80, 0, 0, 0, 40, 0, 0, 0];
    assert_eq!(trusted_dims(&small, 80 * 40 * 4 + 8), Some((80, 40)));
    assert_eq!(trusted_dims(&small, 11), None);
}

#[test]
fn thumbnail_paths() {
    let store = FsImageStore { dir: "/tmp/imgs".to_string() };
    assert_eq!(store.thumbnail_path("abcd"), "/tmp/imgs/abcd.thumb.png");
    assert_eq!(store.original_path("abcd"), "/tmp/imgs/abcd.bin");
    assert_eq!(thumb_sibling("/x/abcd.bin"), Some("/x/abcd.thumb.png".to_string()));
    assert_eq!(thumb_sibling("/x/abcd.png"), None);
}

#[test]
fn thumbnail_png_scales_and_encodes() {
    let rgba = vec![255u8; 4 * 4 * 2];
    let png = magpie_app::image_cache::thumbnail_png(4, 2, &rgba, 2, 1).unwrap();
    assert_eq!(&png[..4], &[0x89, b'P', b'N', b'G']);
    let back = image::load_from_memory(&png).unwrap();
    assert_eq!((back.width(), back.height()), (2, 1));
    assert!(magpie_app::image_cache::thumbnail_png(4, 2, &rgba[..10], 2, 1).is_none());
}
