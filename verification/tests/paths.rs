use dust_platform::path::PathBuf;
use std::path::Path;

const PATHS: [&str; 46] = [
    "", "/", "//", "///", ".", "./", "./.", "././/", "..", "../", "/.", "/..", "/./.", "a", "a/",
    "a//", "a/.", "a/./", "./a", "./a/", ".//a", "././a", "/a", "//a", "/a/", "/./a", "/a/b",
    "/a//b", "/a/./b/", "/a/../b", "a/b", "a/b/", "a/./b", "a/b/c", "./a/b", "../a", "../a/b/.",
    "/a/b//c/./d/", "ab", "/ab", ".a", "a.", "...", "/.../a", "/a/b/.c", " /a",
];

fn text(path: PathBuf) -> String {
    String::from_utf8(path.into_bytes()).unwrap()
}

fn std_components(path: &str) -> Vec<Vec<u8>> {
    Path::new(path)
        .components()
        .map(|c| c.as_os_str().to_str().unwrap().as_bytes().to_vec())
        .collect()
}

#[test]
fn components_are_those_of_std() {
    for p in PATHS {
        let path = PathBuf::from(p);
        let found: Vec<Vec<u8>> = path.components().iter().map(|c| c.to_vec()).collect();
        assert_eq!(found, std_components(p), "for {:?}", p);
        assert_eq!(path.is_absolute(), Path::new(p).is_absolute(), "for {:?}", p);
    }
}

#[test]
fn prefixes_are_those_of_std() {
    for p in PATHS {
        for base in PATHS {
            let path = PathBuf::from(p);
            let prefix = PathBuf::from(base);
            let starts = path.starts_with(&prefix);
            assert_eq!(starts, Path::new(p).starts_with(base), "{:?} {:?}", p, base);
            let rest = path.strip_prefix(&prefix).map(text);
            let expected = match Path::new(p).strip_prefix(base) {
                Ok(rest) => Some(rest.to_str().unwrap().to_string()),
                Err(_) => None,
            };
            assert_eq!(rest, expected, "{:?} {:?}", p, base);
        }
    }
}

#[test]
fn joined_paths_are_those_of_std() {
    for p in PATHS {
        for q in PATHS {
            let joined = text(PathBuf::from(p).join(&PathBuf::from(q)));
            let expected = Path::new(p).join(q);
            assert_eq!(joined, expected.to_str().unwrap(), "{:?} {:?}", p, q);
        }
    }
}

#[test]
fn paths_are_equal_where_those_of_std_are() {
    for p in PATHS {
        for q in PATHS {
            let same = PathBuf::from(p) == PathBuf::from(q);
            assert_eq!(same, Path::new(p) == Path::new(q), "{:?} {:?}", p, q);
        }
    }
}

#[test]
fn stripping_and_joining_gives_the_path_again() {
    for p in PATHS {
        for base in PATHS {
            let path = PathBuf::from(p);
            let prefix = PathBuf::from(base);
            if let Some(rest) = path.strip_prefix(&prefix) {
                assert_eq!(prefix.join(&rest), path, "{:?} {:?}", p, base);
            }
        }
    }
}

#[test]
fn a_path_can_hold_any_bytes() {
    let path = PathBuf::from_bytes(vec![0xff, 0x2f, 0x00, 0x2f, 0x80]);
    let parts: Vec<Vec<u8>> = path.components().iter().map(|c| c.to_vec()).collect();
    assert_eq!(parts, vec![vec![0xffu8], vec![0x00u8], vec![0x80u8]]);
    let rest = path.strip_prefix(&PathBuf::from_bytes(vec![0xff])).unwrap();
    assert_eq!(rest.into_bytes(), vec![0x00, 0x2f, 0x80]);
    assert_eq!(path.clone(), path);
}
