use fatimg::path::{inner_path_segments, normalize_inner_path, PathError};

#[test]
fn repeated_and_trailing_separators_are_dropped() {
    assert_eq!(normalize_inner_path("/a//b/".to_string()), Ok("a/b".to_string()));
    assert_eq!(
        inner_path_segments("/a//b/"),
        Ok(vec!["a".to_string(), "b".to_string()])
    );
}

#[test]
fn root_has_no_segments() {
    assert_eq!(normalize_inner_path("/".to_string()), Ok(String::new()));
    assert_eq!(inner_path_segments("///"), Ok(Vec::<String>::new()));
}

#[test]
fn relative_paths_are_refused() {
    assert_eq!(normalize_inner_path("a/b".to_string()), Err(PathError::InvalidPath));
    assert_eq!(normalize_inner_path(String::new()), Err(PathError::InvalidPath));
    assert_eq!(inner_path_segments(" /a"), Err(PathError::InvalidPath));
}

#[test]
fn dot_segments_pass_through() {
    assert_eq!(
        inner_path_segments("/./../x"),
        Ok(vec![".".to_string(), "..".to_string(), "x".to_string()])
    );
    assert_eq!(normalize_inner_path("/dir/sub/file.txt".to_string()), Ok("dir/sub/file.txt".to_string()));
}

#[test]
fn segments_are_never_empty_nor_hold_separators() {
    for p in ["/", "//", "/a", "/a/", "//a//b//c//", "/é/ü//ß"] {
        let segs = inner_path_segments(p).unwrap();
        for s in &segs {
            assert!(!s.is_empty());
            assert!(!s.contains('/'));
        }
        let joined = normalize_inner_path(p.to_string()).unwrap();
        assert!(!joined.starts_with('/'));
        assert!(!joined.ends_with('/'));
    }
}
