use dust_platform::firmlinks::{
    expand_firmlinks_inner, expand_with_firmlinks, get_firmlinked_paths, paths_to_canonicalize,
    try_match_path,
};
use dust_platform::path::PathBuf;

fn users() -> Vec<(PathBuf, PathBuf)> {
    vec![(
        PathBuf::from("/Users"),
        PathBuf::from("/System/Volumes/Data/Users"),
    )]
}

fn text(path: &PathBuf) -> String {
    String::from_utf8(path.clone().into_bytes()).unwrap()
}

fn texts(paths: &Vec<PathBuf>) -> Vec<String> {
    paths.iter().map(|p| text(p)).collect()
}

fn link(src: &str, dst: &str) -> (PathBuf, PathBuf) {
    (PathBuf::from(src), PathBuf::from(dst))
}

#[test]
fn test_get_firmlinked_paths() {
    let firmlink_string = "/System/Library\t/System/Volumes/Data/System/Library\n/Applications\t/System/Volumes/Data/Applications";
    let expected = vec![
        (
            PathBuf::from("/System/Library"),
            PathBuf::from("/System/Volumes/Data/System/Library"),
        ),
        (
            PathBuf::from("/Applications"),
            PathBuf::from("/System/Volumes/Data/Applications"),
        ),
    ];
    assert_eq!(get_firmlinked_paths(firmlink_string.to_string()), expected);
}

#[test]
fn test_expand_firmlinks_with_absolute_path() {
    // Simple test, you run -X Users with the input path of /
    let firmlinks = vec![(
        PathBuf::from("/Users"),
        PathBuf::from("/System/Volumes/Data/Users"),
    )];
    let paths: Vec<PathBuf> = vec![PathBuf::from("/Users")];
    let extras = expand_firmlinks_inner(&paths, &firmlinks, None, &[None]);
    assert!(
        extras.contains(&PathBuf::from("/System/Volumes/Data/Users")),
        "Expected /System/Volumes/Data/Users in extras, got: {:?}",
        extras
    );
}

#[test]
fn test_expand_firmlinks_with_nested_absolute_path() {
    // Test with nested absolute path - should work
    let firmlinks = vec![(
        PathBuf::from("/Users"),
        PathBuf::from("/System/Volumes/Data/Users"),
    )];
    let paths: Vec<PathBuf> = vec![PathBuf::from("/Users/employee")];
    let extras = expand_firmlinks_inner(&paths, &firmlinks, None, &[None]);
    assert!(
        extras.contains(&PathBuf::from("/System/Volumes/Data/Users/employee")),
        "Expected /System/Volumes/Data/Users/employee in extras, got: {:?}",
        extras
    );
}

#[test]
fn test_expand_firmlinks_with_relative_path() {
    // Test with relative path like ./Users - should NOT match
    // ./Users is relative to CWD, NOT equivalent to /Users
    // This also means that if the user runs ./Users in /, it will break
    let firmlinks = vec![(
        PathBuf::from("/Users"),
        PathBuf::from("/System/Volumes/Data/Users"),
    )];
    let paths: Vec<PathBuf> = vec![PathBuf::from("./Users")];
    for canonical in [None, Some(PathBuf::from("/Users"))] {
        let extras = expand_firmlinks_inner(&paths, &firmlinks, None, &[canonical]);
        assert!(
            extras.is_empty(),
            "Relative path ./Users should NOT match firmlink /Users, got: {:?}",
            extras
        );
    }
}

#[test]
fn test_expand_firmlinks_with_parent_path() {
    // Test with parent path like /bin/../Users - NOW FIXED
    // Parent paths should now canonicalize and match firmlinks
    let firmlinks = vec![(
        PathBuf::from("/Users"),
        PathBuf::from("/System/Volumes/Data/Users"),
    )];
    let paths: Vec<PathBuf> = vec![PathBuf::from("/bin/../Users")];
    let canonical = [Some(PathBuf::from("/Users"))];
    let extras = expand_firmlinks_inner(&paths, &firmlinks, None, &canonical);
    assert!(
        extras.contains(&PathBuf::from("/System/Volumes/Data/Users")),
        "Path /bin/../Users should canonicalize and match firmlink /Users, got: {:?}",
        extras
    );
}

#[test]
fn test_expand_firmlinks_with_dst_side() {
    // Test matching against the dst side of firmlink
    let firmlinks = vec![(
        PathBuf::from("/Users"),
        PathBuf::from("/System/Volumes/Data/Users"),
    )];
    let paths: Vec<PathBuf> = vec![PathBuf::from("/System/Volumes/Data/Users")];
    let extras = expand_firmlinks_inner(&paths, &firmlinks, None, &[None]);
    assert!(
        extras.contains(&PathBuf::from("/Users")),
        "Expected /Users in extras, got: {:?}",
        extras
    );
}

#[test]
fn test_expand_firmlinks_with_cwd() {
    // Test: ../Users with CWD=/bin should resolve to /Users
    // This simulates: user runs `dust -X Users ../` from /bin directory
    let firmlinks = vec![(
        PathBuf::from("/Users"),
        PathBuf::from("/System/Volumes/Data/Users"),
    )];
    let paths: Vec<PathBuf> = vec![PathBuf::from("../Users")];
    let mock_cwd = PathBuf::from("/bin");

    // With mock CWD, ../Users becomes /bin/../Users which canonicalizes to /Users
    let content = Some("/Users\tUsers\n".to_string());
    let asked = paths_to_canonicalize(&paths, content, Some(&mock_cwd));
    assert_eq!(text(asked[0].as_ref().unwrap()), "/bin/../Users");
    let canonical = [Some(PathBuf::from("/Users"))];
    let extras = expand_firmlinks_inner(&paths, &firmlinks, Some(&mock_cwd), &canonical);
    assert!(
        extras.contains(&PathBuf::from("/System/Volumes/Data/Users")),
        "Expected ../Users (from /bin) to resolve to /Users and match firmlink, got: {:?}",
        extras
    );
}

#[test]
fn test_try_match_path_logic() {
    let firmlinks = vec![
        (
            PathBuf::from("/Users"),
            PathBuf::from("/System/Volumes/Data/Users"),
        ),
        (
            PathBuf::from("/usr/local"),
            PathBuf::from("/System/Volumes/Data/usr/local"),
        ),
    ];

    // 1. Map from system path to data volume path
    assert_eq!(
        try_match_path(&PathBuf::from("/Users/employee/projects"), &firmlinks),
        Some(PathBuf::from(
            "/System/Volumes/Data/Users/employee/projects"
        ))
    );

    // 2. Map from data volume path back to system path
    assert_eq!(
        try_match_path(
            &PathBuf::from("/System/Volumes/Data/Users/employee/projects"),
            &firmlinks
        ),
        Some(PathBuf::from("/Users/employee/projects"))
    );

    // 3. Map second firmlink entry (/usr/local)
    assert_eq!(
        try_match_path(&PathBuf::from("/usr/local/bin/rustc"), &firmlinks),
        Some(PathBuf::from("/System/Volumes/Data/usr/local/bin/rustc"))
    );

    // 4. Exact match on the firmlink root
    assert_eq!(
        try_match_path(&PathBuf::from("/Users"), &firmlinks),
        Some(PathBuf::from("/System/Volumes/Data/Users"))
    );

    // 5. Path that does not exist in firmlinks
    assert_eq!(
        try_match_path(&PathBuf::from("/System/Library/CoreServices"), &firmlinks),
        None
    );
}

#[test]
fn relative_paths_in_the_file_are_on_the_data_volume() {
    let links = get_firmlinked_paths("/Users\tUsers\n/usr/local\tusr/local\n".to_string());
    assert_eq!(links.len(), 2);
    assert_eq!(text(&links[0].0), "/Users");
    assert_eq!(text(&links[0].1), "/System/Volumes/Data/Users");
    assert_eq!(text(&links[1].0), "/usr/local");
    assert_eq!(text(&links[1].1), "/System/Volumes/Data/usr/local");
}

#[test]
fn lines_without_a_tab_state_no_firmlink() {
    let content = "# comment\n\n/a\ta\r\n/b b\n/c\tc\tmore\n\t\n/d\t";
    let links = get_firmlinked_paths(content.to_string());
    let found: Vec<(String, String)> =
        links.iter().map(|l| (text(&l.0), text(&l.1))).collect();
    let expected: Vec<(String, String)> = [
        ("/a", "/System/Volumes/Data/a"),
        ("/c", "/System/Volumes/Data/c"),
        ("", "/System/Volumes/Data/"),
        ("/d", "/System/Volumes/Data/"),
    ]
    .iter()
    .map(|(s, d)| (s.to_string(), d.to_string()))
    .collect();
    assert_eq!(found, expected);
    assert!(get_firmlinked_paths(String::new()).is_empty());
}

#[test]
fn a_carriage_return_that_no_newline_follows_stays() {
    let links = get_firmlinked_paths("/a\ta\r".to_string());
    assert_eq!(text(&links[0].1), "/System/Volumes/Data/a\r");
    let links = get_firmlinked_paths("/a\ta\r\r\n".to_string());
    assert_eq!(text(&links[0].1), "/System/Volumes/Data/a\r");
}

#[test]
fn the_table_is_what_splitting_the_string_gives() {
    let contents = [
        "",
        "\n",
        "\r\n",
        "a\tb",
        "a\tb\n",
        "a\tb\r\n\r\nc\td\r",
        "\u{e9}\t\u{4e2d}\u{6587}/x\n\u{1f600}\t/abs\u{10a}\n\u{109}\u{10d}\t\u{809}\n",
        "x\n\ty\n\t\tz\n",
    ];
    for content in contents {
        let expected: Vec<(String, String)> = content
            .lines()
            .filter_map(|line| {
                let mut parts = line.split('\t');
                let src = parts.next()?.to_string();
                let dst = std::path::Path::new("/System/Volumes/Data").join(parts.next()?);
                Some((src, dst.to_str().unwrap().to_string()))
            })
            .collect();
        let found: Vec<(String, String)> = get_firmlinked_paths(content.to_string())
            .iter()
            .map(|l| (text(&l.0), text(&l.1)))
            .collect();
        assert_eq!(found, expected, "for {:?}", content);
    }
}

#[test]
fn two_files_in_a_row_hold_the_firmlinks_of_both() {
    let a = "/a\ta\n/b\tb";
    let b = "/c\tc\nnone";
    let mut both = get_firmlinked_paths(format!("{}\n", a));
    both.extend(get_firmlinked_paths(b.to_string()));
    assert_eq!(get_firmlinked_paths(format!("{}\n{}", a, b)), both);
    assert_eq!(both.len(), 3);
}

#[test]
fn the_first_firmlink_decides() {
    let links = vec![link("/a/b", "/x"), link("/a", "/y")];
    let found = try_match_path(&PathBuf::from("/a/b/c"), &links).unwrap();
    assert_eq!(text(&found), "/x/c");
    let found = try_match_path(&PathBuf::from("/a/c"), &links).unwrap();
    assert_eq!(text(&found), "/y/c");
    let links = vec![link("/a", "/y"), link("/a/b", "/x")];
    let found = try_match_path(&PathBuf::from("/a/b/c"), &links).unwrap();
    assert_eq!(text(&found), "/y/b/c");
}

#[test]
fn the_first_side_is_tried_first() {
    let links = vec![link("/a", "/a/b")];
    let found = try_match_path(&PathBuf::from("/a/b/c"), &links).unwrap();
    assert_eq!(text(&found), "/a/b/b/c");
}

#[test]
fn crossing_twice_leads_back() {
    let links = users();
    for path in ["/Users", "/Users/a", "/System/Volumes/Data/Users/a/b"] {
        let path = PathBuf::from(path);
        let across = try_match_path(&path, &links).unwrap();
        assert!(across != path);
        assert_eq!(try_match_path(&across, &links), Some(path));
    }
}

#[test]
fn crossing_does_not_lead_back_to_a_path_on_the_first_side() {
    let links = vec![link("/", "/System/Volumes/Data")];
    let path = PathBuf::from("/a");
    let across = try_match_path(&path, &links).unwrap();
    assert_eq!(text(&across), "/System/Volumes/Data/a");
    let again = try_match_path(&across, &links).unwrap();
    assert_eq!(text(&again), "/System/Volumes/Data/System/Volumes/Data/a");
}

#[test]
fn a_name_that_only_begins_alike_does_not_match() {
    assert_eq!(try_match_path(&PathBuf::from("/Users2"), &users()), None);
    assert_eq!(try_match_path(&PathBuf::from("/"), &users()), None);
    assert_eq!(try_match_path(&PathBuf::from(""), &users()), None);
    assert_eq!(try_match_path(&PathBuf::from("Users"), &users()), None);
}

#[test]
fn the_match_is_written_as_the_path_was() {
    let found = try_match_path(&PathBuf::from("//Users/./a//b/"), &users()).unwrap();
    assert_eq!(text(&found), "/System/Volumes/Data/Users/a//b");
    let found = try_match_path(&PathBuf::from("/Users/"), &users()).unwrap();
    assert_eq!(text(&found), "/System/Volumes/Data/Users/");
}

#[test]
fn only_what_has_no_match_is_made_canonical() {
    let content = Some("/Users\tUsers".to_string());
    let paths = vec![
        PathBuf::from("/Users/a"),
        PathBuf::from("/bin/../Users"),
        PathBuf::from("Users"),
    ];
    let cwd = PathBuf::from("/home/me");
    let asked = paths_to_canonicalize(&paths, content.clone(), Some(&cwd));
    assert_eq!(asked[0], None);
    assert_eq!(text(asked[1].as_ref().unwrap()), "/bin/../Users");
    assert_eq!(text(asked[2].as_ref().unwrap()), "/home/me/Users");
    let asked = paths_to_canonicalize(&paths, content, None);
    assert_eq!(asked[0], None);
    assert_eq!(text(asked[1].as_ref().unwrap()), "/bin/../Users");
    assert_eq!(asked[2], None);
    let asked = paths_to_canonicalize(&paths, None, Some(&cwd));
    assert_eq!(asked, vec![None, None, None]);
}

#[test]
fn expansions_are_added_in_order() {
    let mut paths = vec![
        PathBuf::from("/Users"),
        PathBuf::from("/etc"),
        PathBuf::from("../Users/b"),
        PathBuf::from("/System/Volumes/Data/Users/c"),
    ];
    let cwd = PathBuf::from("/bin");
    let content = Some("/Users\tUsers\n".to_string());
    let canonical = vec![
        None,
        Some(PathBuf::from("/private/etc")),
        Some(PathBuf::from("/Users/b")),
        None,
    ];
    expand_with_firmlinks(&mut paths, content, Some(&cwd), &canonical);
    let expected = [
        "/Users",
        "/etc",
        "../Users/b",
        "/System/Volumes/Data/Users/c",
        "/System/Volumes/Data/Users/",
        "/System/Volumes/Data/Users/b",
        "/Users/c",
    ];
    assert_eq!(texts(&paths), expected);
}

#[test]
fn without_a_firmlinks_file_the_paths_stay() {
    let mut paths = vec![PathBuf::from("/Users"), PathBuf::from("b")];
    expand_with_firmlinks(&mut paths, None, None, &[Some(PathBuf::from("/Users")), None]);
    assert_eq!(texts(&paths), ["/Users", "b"]);
}
