use pathrs::path::{path_within, single_component};
use pathrs::{path_file_name, path_is_absolute, path_join, path_parent, path_split, Error};
use std::path::Path;

fn short_paths(max: usize) -> Vec<String> {
    let alphabet = ['/', '.', 'a'];
    let mut all = vec![String::new()];
    let mut last = vec![String::new()];
    for _ in 0..max {
        let mut next = Vec::new();
        for prefix in &last {
            for c in alphabet {
                let mut s = prefix.clone();
                s.push(c);
                next.push(s);
            }
        }
        all.extend(next.iter().cloned());
        last = next;
    }
    all
}

fn no_trailing_component() -> Error {
    Error::InvalidArgument {
        name: "path".to_string(),
        description: "no trailing component".to_string(),
    }
}

#[test]
fn split_absolute_path() {
    let (dir, name) = path_split(b"/a/b").unwrap();
    assert_eq!(dir, b"/a");
    assert_eq!(name, b"b");
}

#[test]
fn split_directly_below_the_root() {
    let (dir, name) = path_split(b"/etc").unwrap();
    assert_eq!(dir, b"/");
    assert_eq!(name, b"etc");
}

#[test]
fn split_single_relative_component() {
    let (dir, name) = path_split(b"file").unwrap();
    assert_eq!(dir, b"/");
    assert_eq!(name, b"file");
    let (dir, name) = path_split(b"foo/.").unwrap();
    assert_eq!(dir, b"/");
    assert_eq!(name, b"foo");
}

#[test]
fn split_never_gives_an_empty_directory() {
    for path in short_paths(6) {
        if let Ok((dir, _)) = path_split(path.as_bytes()) {
            assert!(!dir.is_empty(), "{:?}", path);
            match path_parent(path.as_bytes()) {
                Some(parent) if !parent.is_empty() => assert_eq!(dir, parent),
                _ => assert_eq!(dir, b"/"),
            }
        }
    }
}

#[test]
fn names_with_a_separator_are_refused() {
    assert_eq!(single_component(b"name"), Ok(()));
    assert_eq!(single_component(b""), Ok(()));
    assert_eq!(single_component(b".."), Ok(()));
    for name in [&b"/"[..], b"a/b", b"/a", b"a/", b"../x"] {
        assert_eq!(
            single_component(name),
            Err(Error::SafetyViolation {
                description: "trailing component of split pathname contains '/'".to_string(),
            })
        );
    }
}

#[test]
fn within_goes_by_components() {
    assert!(path_within(b"/srv", b"/srv"));
    assert!(path_within(b"/srv", b"/srv/a/b"));
    assert!(path_within(b"/srv", b"/srv/"));
    assert!(path_within(b"/", b"/srv"));
    assert!(path_within(b"/", b"/"));
    assert!(path_within(b"/srv/", b"/srv/a"));
    assert!(!path_within(b"/srv", b"/srv2"));
    assert!(!path_within(b"/srv", b"/srv2/x"));
    assert!(!path_within(b"/srv", b"/sr"));
    assert!(!path_within(b"/srv", b"/"));
    assert!(!path_within(b"/srv/a", b"/srv/b"));
}

#[test]
fn split_drops_trailing_separators_and_dots() {
    let (dir, name) = path_split(b"a//b/./").unwrap();
    assert_eq!(dir, b"a");
    assert_eq!(name, b"b");
    let (dir, name) = path_split(b"/x/./y/.").unwrap();
    assert_eq!(dir, b"/x");
    assert_eq!(name, b"y");
}

#[test]
fn split_keeps_a_leading_dot() {
    let (dir, name) = path_split(b"./a").unwrap();
    assert_eq!(dir, b".");
    assert_eq!(name, b"a");
}

#[test]
fn split_refuses_paths_without_a_final_component() {
    for path in [&b""[..], b"/", b"//", b".", b"./", b"..", b"a/..", b"/..", b"/."] {
        assert_eq!(path_split(path), Err(no_trailing_component()), "{:?}", path);
    }
}

#[test]
fn split_name_never_holds_a_separator() {
    for path in short_paths(6) {
        if let Ok((_, name)) = path_split(path.as_bytes()) {
            assert!(!name.is_empty());
            assert!(!name.contains(&b'/'), "{:?}", path);
            assert_ne!(name, b".");
            assert_ne!(name, b"..");
        }
    }
}

#[test]
fn split_takes_bytes_that_are_no_text() {
    let (dir, name) = path_split(b"/\xff\xfe/\x80").unwrap();
    assert_eq!(dir, b"/\xff\xfe");
    assert_eq!(name, b"\x80");
}

#[test]
fn file_name_agrees_with_the_standard_library() {
    for path in short_paths(6) {
        let expected = Path::new(&path).file_name().map(|n| n.to_str().unwrap().as_bytes());
        assert_eq!(path_file_name(path.as_bytes()), expected, "{:?}", path);
    }
}

#[test]
fn parent_agrees_with_the_standard_library() {
    for path in short_paths(6) {
        let expected = Path::new(&path).parent().map(|p| p.to_str().unwrap().as_bytes());
        assert_eq!(path_parent(path.as_bytes()), expected, "{:?}", path);
    }
}

#[test]
fn join_agrees_with_the_standard_library() {
    for dir in short_paths(4) {
        for name in short_paths(3) {
            let expected = Path::new(&dir).join(&name);
            let joined = path_join(dir.as_bytes(), name.as_bytes());
            assert_eq!(joined, expected.to_str().unwrap().as_bytes(), "{:?} {:?}", dir, name);
        }
    }
}

#[test]
fn split_undoes_join() {
    let mut tried = 0;
    for dir in short_paths(5) {
        // What a split can give as a directory part: nothing to drop at the end.
        let trimmed = match path_split(path_join(dir.as_bytes(), b"x").as_slice()) {
            Ok((d, _)) => d == dir.as_bytes(),
            Err(_) => false,
        };
        for name in ["a", "..a", "a.", "...", ".a", "aa"] {
            let joined = path_join(dir.as_bytes(), name.as_bytes());
            let split = path_split(&joined);
            if trimmed {
                tried += 1;
                assert_eq!(split, Ok((dir.as_bytes(), name.as_bytes())), "{:?} {:?}", dir, name);
            } else {
                assert_ne!(split, Ok((dir.as_bytes(), name.as_bytes())), "{:?} {:?}", dir, name);
            }
        }
    }
    assert!(tried > 100);
}

#[test]
fn split_undoes_join_on_given_values() {
    assert_eq!(path_join(b"/srv/www", b"index.html"), b"/srv/www/index.html");
    assert_eq!(
        path_split(b"/srv/www/index.html"),
        Ok((&b"/srv/www"[..], &b"index.html"[..]))
    );
    assert_eq!(path_join(b"/", b"etc"), b"/etc");
    assert_eq!(path_join(b"", b"etc"), b"etc");
    // An empty directory part does not come back: the split gives `/`.
    assert_eq!(path_split(b"etc"), Ok((&b"/"[..], &b"etc"[..])));
    assert_eq!(path_join(b"a", b"/etc"), b"/etc");
    // A directory part that ends in a separator does not come back.
    assert_eq!(path_join(b"a/", b"b"), b"a/b");
    assert_eq!(path_split(b"a/b"), Ok((&b"a"[..], &b"b"[..])));
}

#[test]
fn absolute_paths_start_with_a_separator() {
    assert!(path_is_absolute(b"/"));
    assert!(path_is_absolute(b"/a"));
    assert!(path_is_absolute(b"//a"));
    assert!(!path_is_absolute(b""));
    assert!(!path_is_absolute(b"a/"));
    assert!(!path_is_absolute(b"./a"));
}
