use thumbnailer::ThumbError;
use thumbnailer::Thumbnailer;

#[test]
fn test_calculate_path_md5() {
    let path = b"/home/jens/photos/me.png".to_vec();
    assert_eq!(
        Thumbnailer::calculate_path_md5(true, &path),
        b"c6ee772d9e49320e97ec29a7eb5b1697".to_vec()
    );
    assert_eq!(
        Thumbnailer::calculate_path_md5(false, &path),
        b"7accaff1d29c5d074218919d4150d1e5".to_vec()
    );
}

#[test]
fn test_calculate_path_uri() {
    let path = b"/home/jens/photos/me.png".to_vec();
    assert_eq!(
        Thumbnailer::calculate_path_uri(true, &path),
        b"file:///home/jens/photos/me.png".to_vec()
    );
    assert_eq!(Thumbnailer::calculate_path_uri(false, &path), b"me.png".to_vec());
}

#[test]
fn test_uri_percent_encoding() {
    let path = b"/pics/my photo+1%.png".to_vec();
    assert_eq!(
        Thumbnailer::calculate_path_uri(true, &path),
        b"file:///pics/my%20photo+1%25.png".to_vec()
    );
    assert_eq!(Thumbnailer::calculate_path_uri(false, &path), b"my%20photo+1%25.png".to_vec());
}

#[test]
fn test_derive_deterministic() {
    let path = b"/home/jens/photos/me.png".to_vec();
    let first = thumbnailer::thumbnailer::derive(true, &path).unwrap();
    let second = thumbnailer::thumbnailer::derive(true, &path).unwrap();
    assert_eq!(first.0, second.0);
    assert_eq!(first.1, second.1);
}

#[test]
fn test_derive_modes_differ() {
    let path = b"/home/jens/photos/me.png".to_vec();
    let full = thumbnailer::thumbnailer::derive(true, &path).unwrap();
    let base = thumbnailer::thumbnailer::derive(false, &path).unwrap();
    assert_ne!(full.0, base.0);
    assert_ne!(full.1, base.1);
    assert_eq!(full.1, b"c6ee772d9e49320e97ec29a7eb5b1697.png".to_vec());
    assert_eq!(base.1, b"7accaff1d29c5d074218919d4150d1e5.png".to_vec());
}

#[test]
fn test_derive_rejects_bad_paths() {
    assert_eq!(thumbnailer::thumbnailer::derive(true, &b"relative/path.png".to_vec()), Err(ThumbError::InvalidInput));
    assert_eq!(thumbnailer::thumbnailer::derive(true, &b"/".to_vec()), Err(ThumbError::InvalidInput));
    assert_eq!(thumbnailer::thumbnailer::derive(true, &b"/a//b.png".to_vec()), Err(ThumbError::InvalidInput));
    assert_eq!(thumbnailer::thumbnailer::derive(true, &b"/a/b/".to_vec()), Err(ThumbError::InvalidInput));
    assert_eq!(thumbnailer::thumbnailer::derive(true, &b"".to_vec()), Err(ThumbError::InvalidInput));
}
