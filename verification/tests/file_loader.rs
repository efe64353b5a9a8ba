use boundrs::file_loader::{
    is_supported_uri, is_unsupported_mime, BlockingFileLoader, BoundrsTextureLoader, ImageCrateLoader,
};

#[test]
fn supported_uris() {
    assert!(is_supported_uri("file://dir/a.jpg"));
    assert!(!is_supported_uri("file://dir/a.svg"));
    assert!(!is_supported_uri("a.svg/"));
    assert!(is_supported_uri("dir/noext"));
    assert!(is_supported_uri("dir/.svg"));
    assert!(is_supported_uri("dir/.."));
    assert!(is_supported_uri(""));
    assert!(is_supported_uri("a.SVG"));
}

#[test]
fn unsupported_mimes() {
    assert!(is_unsupported_mime("image/svg+xml"));
    assert!(!is_unsupported_mime("image/png"));
}

#[test]
fn file_addresses() {
    assert_eq!(BlockingFileLoader::path_of_uri("file:///tmp/a.jpg"), Some("/tmp/a.jpg".to_string()));
    assert_eq!(BlockingFileLoader::path_of_uri("http://x/a.jpg"), None);
    assert_eq!(BlockingFileLoader::path_of_uri("file:/"), None);
}

#[test]
fn image_bytes_need_a_known_format() {
    let png = [0x89u8, b'P', b'N', b'G', 0x0d, 0x0a, 0x1a, 0x0a, 0, 0];
    assert!(ImageCrateLoader::bytes_supported(None, &png));
    assert!(ImageCrateLoader::bytes_supported(Some("image/png"), &png));
    assert!(!ImageCrateLoader::bytes_supported(Some("image/svg+xml"), &png));
    assert!(!ImageCrateLoader::bytes_supported(None, b"<svg></svg>"));
    assert!(!ImageCrateLoader::bytes_supported(None, &[]));
}

#[test]
fn each_signature_is_recognized_and_a_short_one_is_not() {
    let signatures: [&[u8]; 6] = [b"BM..", &[0xff, 0xd8, 0xff, 0x00], b"GIF87a", b"P6 3 3", b"qoif", b"\0\0\0 ftypavif"];
    for s in signatures {
        assert!(ImageCrateLoader::bytes_supported(None, s));
    }
    assert!(!ImageCrateLoader::bytes_supported(None, &[0xff, 0xd8]));
    assert!(!ImageCrateLoader::bytes_supported(None, b"B"));
    assert!(!ImageCrateLoader::bytes_supported(None, b"P8"));
}

#[test]
fn loader_ids_and_sizes() {
    let b = BlockingFileLoader::default();
    let i = ImageCrateLoader::default();
    let t = BoundrsTextureLoader::default();
    assert_eq!(b.id(), "boundrs::file_loader::FileLoader");
    assert_eq!(i.id(), "boundrs::file_loader::ImageCrateLoader");
    assert_eq!(t.id(), "boundrs::file_loader::DefaultTextureLoader");
    assert_eq!(b.byte_size() + i.byte_size() + t.byte_size(), 0);
}
