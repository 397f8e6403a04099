use gfs::path::{normalize_path, GfsPath, OwnedGfsPath, GFS_SEPARATOR};

#[test]
fn separator_is_slash() {
    assert_eq!(GFS_SEPARATOR, '/');
}

#[test]
fn normalize_empty_is_top() {
    assert_eq!(normalize_path(""), "/");
    assert_eq!(normalize_path("/"), "/");
    assert_eq!(normalize_path("///"), "/");
    assert_eq!(normalize_path("."), "/");
    assert_eq!(normalize_path("./."), "/");
}

#[test]
fn normalize_adds_leading_separator() {
    assert_eq!(normalize_path("a"), "/a");
    assert_eq!(normalize_path("a/b.txt"), "/a/b.txt");
}

#[test]
fn normalize_collapses_separators() {
    assert_eq!(normalize_path("a//b"), "/a/b");
    assert_eq!(normalize_path("//a///b//"), "/a/b");
    assert_eq!(normalize_path("/a/b/"), "/a/b");
}

#[test]
fn normalize_drops_dot_segments() {
    assert_eq!(normalize_path("/a/./b"), "/a/b");
    assert_eq!(normalize_path("./a/."), "/a");
}

#[test]
fn normalize_resolves_parent_segments() {
    assert_eq!(normalize_path("/a/../b"), "/b");
    assert_eq!(normalize_path("/a/b/.."), "/a");
    assert_eq!(normalize_path("/a/b/../.."), "/");
    assert_eq!(normalize_path("a/b/../c/./d/.."), "/a/c");
}

#[test]
fn normalize_clamps_at_top() {
    assert_eq!(normalize_path(".."), "/");
    assert_eq!(normalize_path("/../.."), "/");
    assert_eq!(normalize_path("a/b/../../../c"), "/c");
    assert_eq!(normalize_path("../a"), "/a");
}

#[test]
fn normalize_keeps_names_that_only_look_special() {
    assert_eq!(normalize_path("..."), "/...");
    assert_eq!(normalize_path("/.a/..b/c."), "/.a/..b/c.");
    assert_eq!(normalize_path("/a b/c"), "/a b/c");
}

#[test]
fn normalize_counts_characters_not_bytes() {
    assert_eq!(normalize_path("é//ü/./日本/../x"), "/é/ü/x");
    assert_eq!(normalize_path("/é/.."), "/");
}

#[test]
fn normalize_is_idempotent() {
    let samples = [
        "", "/", ".", "..", "a", "/a/b", "a//b/../c", "../../x/./y/", "/a/b/../..", "é/./ü//",
        "...", "/.../..", "a/./././b", "////",
    ];
    for raw in samples {
        let once = normalize_path(raw);
        let twice = normalize_path(&once);
        assert_eq!(twice, once);
    }
}

#[test]
fn borrowed_path_keeps_its_text() {
    let path = GfsPath::new("a//b/../c");
    assert_eq!(path.as_str(), "a//b/../c");
    assert_eq!(path.to_string(), "a//b/../c");
}

#[test]
fn owned_path_is_canonical() {
    let path: OwnedGfsPath<u8> = OwnedGfsPath::new("a//b/../c/");
    assert_eq!(path.as_str(), "/a/c");
}

#[test]
fn relative_to_strips_the_base() {
    let top: OwnedGfsPath<u8> = OwnedGfsPath::new("/");
    let data: OwnedGfsPath<u8> = OwnedGfsPath::new("/data");
    let deep: OwnedGfsPath<u8> = OwnedGfsPath::new("/data/a/b.txt");
    assert_eq!(deep.relative_to(&data).as_str(), "/a/b.txt");
    assert_eq!(deep.relative_to(&top).as_str(), "/data/a/b.txt");
    assert_eq!(deep.relative_to(&deep).as_str(), "/");
    assert_eq!(data.relative_to(&data).as_str(), "/");
    assert_eq!(top.relative_to(&top).as_str(), "/");
}

#[test]
fn relative_to_a_stranger_is_the_whole_path() {
    let other: OwnedGfsPath<u8> = OwnedGfsPath::new("/other");
    let longer: OwnedGfsPath<u8> = OwnedGfsPath::new("/data/a/b.txt/c");
    let deep: OwnedGfsPath<u8> = OwnedGfsPath::new("/data/a/b.txt");
    assert_eq!(deep.relative_to(&other).as_str(), "/data/a/b.txt");
    assert_eq!(deep.relative_to(&longer).as_str(), "/data/a/b.txt");
}

#[test]
fn relative_to_then_join_gives_the_path_back() {
    let data: OwnedGfsPath<u8> = OwnedGfsPath::new("/data/x");
    let deep: OwnedGfsPath<u8> = OwnedGfsPath::new("/data/x/a/b");
    let back = data.join(deep.relative_to(&data).as_str());
    assert!(back.same_as(&deep));
}

#[test]
fn join_appends_below() {
    let top: OwnedGfsPath<u8> = OwnedGfsPath::new("/");
    let data: OwnedGfsPath<u8> = OwnedGfsPath::new("/data");
    assert_eq!(top.join("a/b.txt").as_str(), "/a/b.txt");
    assert_eq!(top.join("/a").as_str(), "/a");
    assert_eq!(data.join("a/b.txt").as_str(), "/data/a/b.txt");
    assert_eq!(data.join("/a//b/").as_str(), "/data/a/b");
}

#[test]
fn join_of_nothing_is_the_path_itself() {
    let top: OwnedGfsPath<u8> = OwnedGfsPath::new("/");
    let data: OwnedGfsPath<u8> = OwnedGfsPath::new("/data/x");
    assert_eq!(top.join("").as_str(), "/");
    assert_eq!(top.join("/").as_str(), "/");
    assert_eq!(data.join("").as_str(), "/data/x");
    assert_eq!(data.join("./.").as_str(), "/data/x");
}

#[test]
fn join_never_leaves_the_base() {
    let data: OwnedGfsPath<u8> = OwnedGfsPath::new("/data");
    assert_eq!(data.join("..").as_str(), "/data");
    assert_eq!(data.join("../../etc").as_str(), "/data/etc");
    assert_eq!(data.join("a/../../b").as_str(), "/data/b");
    assert!(data.join("../x").starts_with(&data));
}

#[test]
fn depth_counts_segments() {
    let top: OwnedGfsPath<u8> = OwnedGfsPath::new("/");
    let deep: OwnedGfsPath<u8> = OwnedGfsPath::new("/a/b/c");
    assert_eq!(top.depth(), 0);
    assert_eq!(deep.depth(), 3);
}

#[test]
fn starts_with_compares_whole_segments() {
    let top: OwnedGfsPath<u8> = OwnedGfsPath::new("/");
    let a: OwnedGfsPath<u8> = OwnedGfsPath::new("/a");
    let ab: OwnedGfsPath<u8> = OwnedGfsPath::new("/a/b");
    let abc: OwnedGfsPath<u8> = OwnedGfsPath::new("/abc");
    assert!(ab.starts_with(&top));
    assert!(ab.starts_with(&a));
    assert!(ab.starts_with(&ab));
    assert!(top.starts_with(&top));
    assert!(!a.starts_with(&ab));
    assert!(!abc.starts_with(&a));
    assert!(!abc.starts_with(&ab));
    assert!(!top.starts_with(&a));
}

#[test]
fn ancestor_cuts_at_depth() {
    let deep: OwnedGfsPath<u8> = OwnedGfsPath::new("/a/b/c");
    assert_eq!(deep.ancestor(0).as_str(), "/");
    assert_eq!(deep.ancestor(1).as_str(), "/a");
    assert_eq!(deep.ancestor(2).as_str(), "/a/b");
    assert_eq!(deep.ancestor(3).as_str(), "/a/b/c");
    assert_eq!(deep.ancestor(9).as_str(), "/a/b/c");
}

#[test]
fn same_as_compares_locations() {
    let a: OwnedGfsPath<u8> = OwnedGfsPath::new("/a/./b");
    let b: OwnedGfsPath<u8> = OwnedGfsPath::new("a//b/");
    let c: OwnedGfsPath<u8> = OwnedGfsPath::new("/a/c");
    assert!(a.same_as(&b));
    assert!(!a.same_as(&c));
    assert!(a.clone().same_as(&a));
}
