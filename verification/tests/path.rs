use sandbox_policy::path::{
    is_absolute, is_root, join, same_bytes, same_path, split, starts_with, to_bytes,
};

fn parts(path: &str) -> Vec<String> {
    split(path.as_bytes())
        .into_iter()
        .map(|part| String::from_utf8(part).expect("text"))
        .collect()
}

#[test]
fn components_skip_empty_pieces_and_dots() {
    assert_eq!(parts("/a/b"), vec!["/", "a", "b"]);
    assert_eq!(parts("/a//b/"), vec!["/", "a", "b"]);
    assert_eq!(parts("/a/./b/."), vec!["/", "a", "b"]);
    assert_eq!(parts("a/../b"), vec!["a", "..", "b"]);
    assert_eq!(parts("./a"), vec![".", "a"]);
    assert_eq!(parts("/./a"), vec!["/", "a"]);
    assert_eq!(parts("/"), vec!["/"]);
    assert!(parts("").is_empty());
}

#[test]
fn components_are_those_of_std() {
    for path in ["/", "//", "/.", "", ".", "..", "a", "a/", "./a/./b", "/a/../b//c/.", "/.a/b."] {
        let expected: Vec<String> = std::path::Path::new(path)
            .components()
            .map(|part| part.as_os_str().to_str().expect("text").to_owned())
            .collect();
        assert_eq!(parts(path), expected, "{path:?}");
    }
}

#[test]
fn lying_below_goes_by_components() {
    let bases = ["/", "/a", "/a/", "/a/b", "/ab", "", "a", ".", "./a"];
    let paths = ["/", "/a", "/a/b", "/a/b/c", "/ab", "a/b", "./a/b", ""];
    for base in bases {
        for path in paths {
            assert_eq!(
                starts_with(path.as_bytes(), base.as_bytes()),
                std::path::Path::new(path).starts_with(base),
                "{path:?} below {base:?}"
            );
        }
    }
    assert!(starts_with(b"/a/b", b"/a"));
    assert!(!starts_with(b"/ab", b"/a"));
    assert!(starts_with(b"/a", b""));
}

#[test]
fn sameness_goes_by_components() {
    assert!(same_path(b"/a//b/", b"/a/./b"));
    assert!(!same_path(b"/a/b", b"a/b"));
    assert!(!same_path(b"/a", b"/a/b"));
    assert!(!same_path(b"/a/b", b"/a/c"));
}

#[test]
fn root_in_all_spellings() {
    assert!(is_root(b"/"));
    assert!(is_root(b"//"));
    assert!(is_root(b"/."));
    assert!(!is_root(b"/a"));
    assert!(!is_root(b""));
    assert!(!is_root(b"."));
    assert!(!is_root(b"/.."));
}

#[test]
fn joining_is_that_of_std() {
    for base in ["/", "/a", "/a/", "", "a"] {
        for path in ["", "b", "b/c", "/c", "./d", "../e"] {
            let expected = std::path::Path::new(base).join(path);
            let joined = join(base.as_bytes(), path.as_bytes());
            assert_eq!(
                String::from_utf8(joined).expect("text"),
                expected.to_str().expect("text"),
                "{base:?} and {path:?}"
            );
        }
    }
    assert_eq!(join(b"/a", b"b"), b"/a/b".to_vec());
    assert_eq!(join(b"/a/", b"b"), b"/a/b".to_vec());
    assert_eq!(join(b"/a", b"/b"), b"/b".to_vec());
}

#[test]
fn bytes_and_absolute_paths() {
    assert!(is_absolute(b"/a"));
    assert!(!is_absolute(b"a"));
    assert!(!is_absolute(b""));
    assert!(same_bytes(b"ab", b"ab"));
    assert!(!same_bytes(b"ab", b"ac"));
    assert!(!same_bytes(b"ab", b"abc"));
    assert_eq!(to_bytes(b"\xff\x00"), vec![0xff, 0]);
}
