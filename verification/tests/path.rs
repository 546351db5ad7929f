use std::path::Path;

use remote_tools::path::{components_of, extension_of_path, file_name_of, is_under, normalise, parent_of, pushed, replace_extension};

fn text(b: Vec<u8>) -> String {
    String::from_utf8(b).unwrap()
}

fn normal(p: &str) -> String {
    text(normalise(p.as_bytes()))
}

#[test]
fn dots_are_folded() {
    assert_eq!(normal("/a/./b/../c"), "/a/c");
    assert_eq!(normal("/../../a"), "/a");
    assert_eq!(normal("a/../../b"), "b");
    assert_eq!(normal("./a//b/"), "a/b");
    assert_eq!(normal("//"), "/");
    assert_eq!(normal("."), "");
    assert_eq!(normal(""), "");
    assert_eq!(normal("/a/..."), "/a/...");
}

#[test]
fn normalising_twice_is_once() {
    for p in ["/a/../b/./c", "../x", "/", "a//b/../..", "/.."] {
        assert_eq!(normal(&normal(p)), normal(p));
    }
}

#[test]
fn components_of_paths() {
    let of = |p: &str| components_of(p.as_bytes()).into_iter().map(text).collect::<Vec<_>>();
    assert_eq!(of("/usr/./lib/../x/"), ["/", "usr", "lib", "..", "x"]);
    assert_eq!(of("./a/."), [".", "a"]);
    assert_eq!(of(""), Vec::<String>::new());
    assert_eq!(of("///"), ["/"]);
}

#[test]
fn under_goes_by_components() {
    assert!(is_under(b"/a/b", b"/a"));
    assert!(is_under(b"/a/b", b"/a/"));
    assert!(is_under(b"/a", b"/a"));
    assert!(!is_under(b"/ab", b"/a"));
    assert!(!is_under(b"/a", b"/a/b"));
    assert!(!is_under(b"a/b", b"/a"));
    assert!(is_under(b"anything", b""));
}

#[test]
fn pushing_names() {
    assert_eq!(text(pushed(b"/a", b"b")), "/a/b");
    assert_eq!(text(pushed(b"/a/", b"b")), "/a/b");
    assert_eq!(text(pushed(b"", b"b")), "b");
    assert_eq!(text(pushed(b"/a", b"/b")), "/b");
    assert_eq!(text(pushed(b"/a", b"")), "/a/");
}

#[test]
fn names_parents_and_extensions() {
    let name = |p: &[u8]| file_name_of(p).map(text);
    assert_eq!(name(b"/a/b.txt/."), Some("b.txt".to_string()));
    assert_eq!(name(b"/a/.."), None);
    assert_eq!(name(b"/"), None);
    assert_eq!(name(b"."), None);
    let parent = |p: &[u8]| parent_of(p).map(text);
    assert_eq!(parent(b"/a/b/"), Some("/a".to_string()));
    assert_eq!(parent(b"/a"), Some("/".to_string()));
    assert_eq!(parent(b"a"), Some("".to_string()));
    assert_eq!(parent(b"./a"), Some(".".to_string()));
    assert_eq!(parent(b"a/./b"), Some("a".to_string()));
    assert_eq!(parent(b"."), Some("".to_string()));
    assert_eq!(parent(b"/"), None);
    assert_eq!(parent(b""), None);
    let ext = |p: &[u8]| extension_of_path(p).map(text);
    assert_eq!(ext(b"a.tar.gz"), Some("gz".to_string()));
    assert_eq!(ext(b"a."), Some("".to_string()));
    assert_eq!(ext(b".hidden"), None);
    assert_eq!(ext(b"a.b/c"), None);
    assert_eq!(text(replace_extension(b"/a/b.c", b"d")), "/a/b.d");
    assert_eq!(text(replace_extension(b"/a/b.c", b"")), "/a/b");
    assert_eq!(text(replace_extension(b"/a/..", b"d")), "/a/..");
}

/// Every text of slashes, dots and one letter with up to `len` characters.
fn short_paths(len: usize) -> Vec<String> {
    let mut all = vec![String::new()];
    let mut longest = all.clone();
    for _ in 0..len {
        longest = longest.iter().flat_map(|p| ["/", ".", "a"].iter().map(move |c| format!("{p}{c}"))).collect();
        all.extend(longest.clone());
    }
    all
}

#[test]
fn paths_are_taken_apart_as_the_standard_library_does() {
    for p in short_paths(8) {
        let (ours, std) = (p.as_bytes(), Path::new(&p));
        let parts: Vec<&str> = std.components().map(|c| c.as_os_str().to_str().unwrap()).collect();
        assert_eq!(components_of(ours).into_iter().map(text).collect::<Vec<_>>(), parts, "{p}");
        assert_eq!(parent_of(ours).map(text).as_deref(), std.parent().and_then(|p| p.to_str()), "{p}");
        assert_eq!(file_name_of(ours).map(text).as_deref(), std.file_name().and_then(|n| n.to_str()), "{p}");
        assert_eq!(extension_of_path(ours).map(text).as_deref(), std.extension().and_then(|e| e.to_str()), "{p}");
        for ext in ["", "x", ".x.y"] {
            let mut replaced = std.to_path_buf();
            replaced.set_extension(ext);
            assert_eq!(Some(text(replace_extension(ours, ext.as_bytes())).as_str()), replaced.to_str(), "{p}");
        }
    }
}

#[test]
fn paths_are_joined_as_the_standard_library_does() {
    for p in short_paths(4) {
        for q in short_paths(4) {
            let (a, b) = (Path::new(&p), Path::new(&q));
            assert_eq!(Some(text(pushed(p.as_bytes(), q.as_bytes())).as_str()), a.join(b).to_str(), "{p} {q}");
            assert_eq!(is_under(p.as_bytes(), q.as_bytes()), a.starts_with(b), "{p} {q}");
        }
    }
}

#[test]
fn a_path_under_one_root_is_under_no_other() {
    for p in ["/a/b/c", "/a/bc", "/a/b"] {
        assert!(!(is_under(p.as_bytes(), b"/a/b") && is_under(p.as_bytes(), b"/a/bc")));
    }
}
