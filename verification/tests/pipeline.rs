use thumbnailer::config::{get_cache_destination, is_image};
use thumbnailer::png::{decode, encode};
use thumbnailer::thumbnailer::{
    inject_metadata, prepare_thumbnail_bytes, temp_path, u64_to_dec, validate_dimensions,
};
use thumbnailer::{Args, Chunk, FormatError, ThumbError, ThumbSize, Thumbnailer, CRC};

fn chunk(kind: &[u8], data: &[u8]) -> Chunk {
    Chunk { kind: kind.to_vec(), data: data.to_vec() }
}

fn sample_chunks() -> Vec<Chunk> {
    vec![chunk(b"IHDR", &[0u8; 13]), chunk(b"IDAT", b"pixeldata"), chunk(b"IEND", b"")]
}

fn args(directory: &[u8]) -> Args {
    Args {
        arg_directory: directory.to_vec(),
        flag_verbose: false,
        flag_debug: false,
        flag_recursive: false,
        flag_normal: true,
        flag_large: false,
        flag_workers: None,
        flag_output: None,
        flag_xdg: false,
        flag_shared: false,
        flag_jobs: None,
    }
}

#[test]
fn test_inject_metadata_order() {
    let uri = b"file:///photos/me.png".to_vec();
    let injected = inject_metadata(sample_chunks(), &uri, 1500000000, 4096, 1920, 1080);
    assert_eq!(injected.len(), 8);
    assert_eq!(injected[0].kind, b"IHDR".to_vec());
    for i in 1..6 {
        assert_eq!(injected[i].kind, b"tEXt".to_vec());
    }
    assert_eq!(injected[1].data, b"Thumb::Image::Height\01080".to_vec());
    assert_eq!(injected[2].data, b"Thumb::Image::Width\01920".to_vec());
    assert_eq!(injected[3].data, b"Thumb::Size\04096".to_vec());
    assert_eq!(injected[4].data, b"Thumb::MTime\01500000000".to_vec());
    assert_eq!(injected[5].data, b"Thumb::URI\0file:///photos/me.png".to_vec());
    assert_eq!(injected[6].kind, b"IDAT".to_vec());
    assert_eq!(injected[6].data, b"pixeldata".to_vec());
    assert_eq!(injected[7].kind, b"IEND".to_vec());
}

#[test]
fn test_prepare_thumbnail_bytes() {
    let crc = CRC::new();
    let pixel_png = encode(&crc, &sample_chunks());
    let uri = b"file:///photos/me.png".to_vec();
    let out = prepare_thumbnail_bytes(&crc, &pixel_png, &uri, 1500000000, 4096, 640, 480)
        .unwrap();
    let chunks = decode(&crc, &out).unwrap();
    assert_eq!(chunks.len(), 8);
    assert_eq!(chunks[0].kind, b"IHDR".to_vec());
    assert_eq!(chunks[1].data, b"Thumb::Image::Height\0480".to_vec());
    assert_eq!(chunks[5].data, b"Thumb::URI\0file:///photos/me.png".to_vec());
    assert_eq!(chunks[7].kind, b"IEND".to_vec());
}

#[test]
fn test_prepare_is_idempotent() {
    let crc = CRC::new();
    let pixel_png = encode(&crc, &sample_chunks());
    let uri = b"file:///photos/me.png".to_vec();
    let first = prepare_thumbnail_bytes(&crc, &pixel_png, &uri, 7, 8, 9, 10).unwrap();
    let second = prepare_thumbnail_bytes(&crc, &pixel_png, &uri, 7, 8, 9, 10).unwrap();
    assert_eq!(first, second);
}

#[test]
fn test_prepare_rejects_corrupt_input() {
    let crc = CRC::new();
    let mut pixel_png = encode(&crc, &sample_chunks());
    let last = pixel_png.len() - 10;
    pixel_png[last] ^= 1;
    let uri = b"file:///photos/me.png".to_vec();
    let r = prepare_thumbnail_bytes(&crc, &pixel_png, &uri, 7, 8, 9, 10);
    assert!(matches!(
        r,
        Err(ThumbError::Format(FormatError::CrcMismatch))
            | Err(ThumbError::Format(FormatError::Truncated))
    ));
    let r2 = prepare_thumbnail_bytes(&crc, &b"not a png".to_vec(), &uri, 7, 8, 9, 10);
    assert_eq!(r2, Err(ThumbError::Format(FormatError::BadSignature)));
}

#[test]
fn test_validate_dimensions() {
    assert!(validate_dimensions(128, 96).is_ok());
    assert_eq!(validate_dimensions(0, 96), Err(ThumbError::DegenerateImage));
    assert_eq!(validate_dimensions(128, 0), Err(ThumbError::DegenerateImage));
}

#[test]
fn test_temp_path() {
    assert_eq!(temp_path(&b"/cache/normal/abc.png".to_vec()), b"/cache/normal/abc.png.tmp".to_vec());
}

#[test]
fn test_u64_to_dec() {
    assert_eq!(u64_to_dec(0), b"0".to_vec());
    assert_eq!(u64_to_dec(42), b"42".to_vec());
    assert_eq!(u64_to_dec(1500000000), b"1500000000".to_vec());
    assert_eq!(u64_to_dec(u64::MAX), b"18446744073709551615".to_vec());
}

#[test]
fn test_thumb_size() {
    assert_eq!(ThumbSize::Normal.size(), 128);
    assert_eq!(ThumbSize::Large.size(), 256);
    assert_eq!(ThumbSize::Normal.name(), "normal");
    assert_eq!(ThumbSize::Large.name(), "large");
    assert_eq!(ThumbSize::Normal.dir_name(), b"normal".to_vec());
    assert_eq!(ThumbSize::Large.dir_name(), b"large".to_vec());
}

#[test]
fn test_filename_and_destination() {
    let stage = Thumbnailer {
        source_path: b"/home/jens/photos/me.png".to_vec(),
        cache_path: b"/tmp/thumbnailer".to_vec(),
        destination_path: Vec::new(),
        thumbnail_size: ThumbSize::Normal,
        filename: Vec::new(),
        use_full_path_for_md5: true,
    };
    let stage = stage.calculate_filename();
    assert_eq!(stage.filename, b"c6ee772d9e49320e97ec29a7eb5b1697.png".to_vec());
    let stage = stage.calculate_destination();
    assert_eq!(
        stage.destination_path,
        b"/tmp/thumbnailer/normal/c6ee772d9e49320e97ec29a7eb5b1697.png".to_vec()
    );
}

#[test]
fn test_sizes() {
    let mut a = args(b"/photos");
    a.flag_large = true;
    assert_eq!(a.sizes(), vec![ThumbSize::Normal, ThumbSize::Large]);
    a.flag_normal = false;
    assert_eq!(a.sizes(), vec![ThumbSize::Large]);
    a.flag_large = false;
    assert_eq!(a.sizes(), Vec::<ThumbSize>::new());
}

#[test]
fn test_is_image() {
    assert!(is_image(&b"jpg".to_vec()));
    assert!(is_image(&b"JPG".to_vec()));
    assert!(is_image(&b"jpeg".to_vec()));
    assert!(is_image(&b"Png".to_vec()));
    assert!(!is_image(&b"gif".to_vec()));
    assert!(!is_image(&b"pn".to_vec()));
    assert!(!is_image(&b"".to_vec()));
}

#[test]
fn test_get_cache_destination() {
    let mut a = args(b"/photos");
    assert_eq!(get_cache_destination(&a, None, None), Err(ThumbError::InvalidInput));
    a.flag_output = Some(b"/custom/cache".to_vec());
    assert_eq!(get_cache_destination(&a, None, None), Ok(b"/custom/cache".to_vec()));
    a.flag_output = None;
    a.flag_shared = true;
    assert_eq!(
        get_cache_destination(&a, None, None),
        Ok(b"/photos/.sh_thumbnails".to_vec())
    );
    a.flag_shared = false;
    a.flag_xdg = true;
    assert_eq!(
        get_cache_destination(&a, Some(b"/home/u/.cache".to_vec()), None),
        Ok(b"/home/u/.cache/thumbnails".to_vec())
    );
    assert_eq!(
        get_cache_destination(&a, None, Some(b"/home/u".to_vec())),
        Ok(b"/home/u/.cache/thumbnails".to_vec())
    );
    assert_eq!(get_cache_destination(&a, None, None), Err(ThumbError::InvalidInput));
}
