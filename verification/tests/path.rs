use std::path::{Component, Path};
use unison_fsmonitor::path::PathPart;
use unison_fsmonitor::path_set::PathSet;
use unison_fsmonitor::prefix::PathPrefix;
use unison_fsmonitor::{FilePath, Syntax};

const PATHS: [&str; 33] = [
    "", "/", "//", ".", "./", "..", "../", "/.", "/..", "a", "a/", "a//", "/a", "/a/", "./a",
    "././a", "a/.", "a/./", "a/..", "a/b", "a//b", "a/./b", "/a/b", "//a//b//", "/a/./b/.",
    "./a/b", "a/b/c", "/a/b//c/./d/", "/a/bc", "ab", ".a", "a.", "/tmp/sample/sub dir/é",
];

fn path(text: &str) -> FilePath {
    FilePath::from_text(Syntax::Unix, text)
}

fn text(path: &FilePath) -> String {
    String::from_utf8(path.as_bytes().to_vec()).unwrap()
}

fn segment(text: &str) -> PathPart {
    PathPart::Segment(text.as_bytes().to_vec())
}

fn windows(text: &str) -> FilePath {
    FilePath::from_text(Syntax::Windows, text)
}

fn bytes(text: &str) -> Vec<u8> {
    text.as_bytes().to_vec()
}

#[test]
fn components_are_those_of_the_standard_library() {
    for p in PATHS {
        let expected: Vec<PathPart> = Path::new(p)
            .components()
            .map(|component| match component {
                Component::RootDir => PathPart::Root,
                other => segment(other.as_os_str().to_str().unwrap()),
            })
            .collect();
        assert_eq!(path(p).components(), expected, "{:?}", p);
        assert_eq!(path(p).is_absolute(), Path::new(p).is_absolute(), "{:?}", p);
    }
}

#[test]
fn equality_is_that_of_the_standard_library() {
    for a in PATHS {
        for b in PATHS {
            let expected = Path::new(a) == Path::new(b);
            assert_eq!(path(a) == path(b), expected, "{:?} {:?}", a, b);
            assert_eq!(path(a).same_path(&path(b)), expected, "{:?} {:?}", a, b);
        }
    }
}

#[test]
fn joining_is_that_of_the_standard_library() {
    for a in PATHS {
        for b in PATHS {
            let expected = Path::new(a).join(b);
            assert_eq!(
                text(&path(a).join(&path(b))),
                expected.to_str().unwrap(),
                "{:?} {:?}",
                a,
                b
            );
        }
    }
}

#[test]
fn prefixes_are_those_of_the_standard_library() {
    for a in PATHS {
        for b in PATHS {
            assert_eq!(
                path(a).starts_with(&path(b)),
                Path::new(a).starts_with(b),
                "{:?} {:?}",
                a,
                b
            );
            assert_eq!(
                path(a).strip_prefix(&path(b)).map(|rest| text(&rest)),
                Path::new(a)
                    .strip_prefix(b)
                    .ok()
                    .map(|rest| rest.to_str().unwrap().to_owned()),
                "{:?} {:?}",
                a,
                b
            );
        }
    }
}

#[test]
fn joining_what_was_stripped_gives_the_path_again() {
    let base = path("/tmp//sample/");
    let whole = path("/tmp/sample/a/./b");
    let rest = whole.strip_prefix(&base).unwrap();
    assert_eq!(text(&rest), "a/./b");
    assert_eq!(text(&base.join(&rest)), "/tmp//sample/a/./b");
    assert!(base.join(&rest) == whole);
    assert!(path("/tmp/samples").strip_prefix(&base).is_none());
}

#[test]
fn paths_as_text() {
    assert_eq!(path("/tmp/é").to_text(), "/tmp/é");
    assert_eq!(
        FilePath::new(Syntax::Unix, vec![97, 255, 98]).to_text(),
        "a\u{FFFD}b".to_owned()
    );
    assert_eq!(FilePath::new(Syntax::Unix, vec![97, 98]).as_bytes(), &[97, 98]);
}

#[test]
fn a_set_keeps_the_first_way_of_writing_a_path() {
    let mut set = PathSet::new();
    assert_eq!(set.len(), 0);
    set.insert(path("/a//b"));
    set.insert(path("/c"));
    set.insert(path("/a/b/"));
    assert_eq!(set.len(), 2);
    assert!(set.contains(&path("/a/./b")));
    assert!(!set.contains(&path("/a")));
    assert_eq!(text(set.get(0)), "/a//b");
    assert_eq!(text(set.get(1)), "/c");
}

#[test]
fn prefixes_of_windows_paths() {
    for (text, prefix, rooted, segments) in [
        (r"C:\a\b", PathPrefix::Disk(b'C'), true, vec!["a", "b"]),
        (r"c:/a\\.\b/", PathPrefix::Disk(b'C'), true, vec!["a", "b"]),
        (r"C:", PathPrefix::Disk(b'C'), false, vec![]),
        (r"C:.\a", PathPrefix::Disk(b'C'), false, vec!["a"]),
        (r"C:a\..", PathPrefix::Disk(b'C'), false, vec!["a", ".."]),
        (
            r"\\server\share",
            PathPrefix::Unc(bytes("server"), bytes("share")),
            true,
            vec![],
        ),
        (
            r"//server/share/foo\bar",
            PathPrefix::Unc(bytes("server"), bytes("share")),
            true,
            vec!["foo", "bar"],
        ),
        (
            r"//?/C:/a",
            PathPrefix::Unc(bytes("?"), bytes("C:")),
            true,
            vec!["a"],
        ),
        (
            r"\\.\foo/bar",
            PathPrefix::DeviceNs(bytes("foo")),
            true,
            vec!["bar"],
        ),
        (
            r"\\?\foo\.\bar",
            PathPrefix::Verbatim(bytes("foo")),
            true,
            vec![".", "bar"],
        ),
        (r"\\?\", PathPrefix::Verbatim(vec![]), false, vec![]),
        (
            r"\\?\C:/foo/bar",
            PathPrefix::VerbatimDisk(b'C'),
            true,
            vec!["foo/bar"],
        ),
        (
            r"\\?\C:foo\bar",
            PathPrefix::Verbatim(bytes("C:foo")),
            true,
            vec!["bar"],
        ),
        (r"\\?\c:", PathPrefix::VerbatimDisk(b'C'), false, vec![]),
        (
            r"\\?\UNC\server\share\foo.txt",
            PathPrefix::VerbatimUnc(bytes("server"), bytes("share")),
            true,
            vec!["foo.txt"],
        ),
        (
            r"\\?\UNC\server",
            PathPrefix::VerbatimUnc(bytes("server"), vec![]),
            false,
            vec![],
        ),
    ] {
        let mut expected = vec![PathPart::Prefix(prefix)];
        if rooted {
            expected.push(PathPart::Root);
        }
        expected.extend(segments.into_iter().map(segment));
        assert_eq!(windows(text).components(), expected, "{}", text);
    }
}

#[test]
fn windows_paths_without_a_prefix() {
    assert_eq!(windows(r"\\").components(), vec![PathPart::Root]);
    assert_eq!(
        windows(r"\\server").components(),
        vec![PathPart::Root, segment("server")]
    );
    assert_eq!(
        windows(r".\a/b").components(),
        vec![segment("."), segment("a"), segment("b")]
    );
    assert_eq!(path(r"C:\a\b").components(), vec![segment(r"C:\a\b")]);
}

#[test]
fn absolute_windows_paths() {
    for text in [
        r"C:\",
        r"c:/a",
        r"\\server\share",
        r"\\.\foo",
        r"\\?\foo",
        r"\\?\C:",
        r"\\?\UNC\server",
    ] {
        assert!(windows(text).is_absolute(), "{}", text);
    }
    for text in ["", r"\a", r"C:a", "C:", r"\\server", "a", "."] {
        assert!(!windows(text).is_absolute(), "{}", text);
    }
}

#[test]
fn joining_windows_paths() {
    for (base, part, expected) in [
        ("", "foo", "foo"),
        ("foo", "bar", r"foo\bar"),
        (r"foo\", "bar", r"foo\bar"),
        ("foo/", "bar", "foo/bar"),
        (r"foo\bar", r"\baz", r"\baz"),
        (r"C:\a", r"C:\b.txt", r"C:\b.txt"),
        (r"C:\a\b\c", "C:d", "C:d"),
        (r"C:a\b\c", "C:d", "C:d"),
        (r"C:\a\b", r"\c", r"C:\c"),
        ("C:", r"a\b\c", r"C:a\b\c"),
        ("C:", r"..\a", r"C:..\a"),
        (r"\\server\share\foo", "bar", r"\\server\share\foo\bar"),
        (r"\\server\share\foo", r"\bar", r"\\server\share\bar"),
        (r"\\server\share\foo", "C:baz", "C:baz"),
        (r"\\server\share", "bar", r"\\server\share\bar"),
        (r"\\.\foo\bar", "baz", r"\\.\foo\bar\baz"),
        (r"\\.\foo", r"..\bar", r"\\.\foo\..\bar"),
        (r"\\?\C:\a\b", r"C:c\d", r"C:c\d"),
        (r"\\?\foo\bar", "baz", r"\\?\foo\bar\baz"),
        (
            r"\\?\UNC\server\share\foo",
            "bar",
            r"\\?\UNC\server\share\foo\bar",
        ),
        (r"\\?\UNC\server", "foo", r"\\?\UNC\server\foo"),
        (r"C:\a", r"\\?\UNC\server\share", r"\\?\UNC\server\share"),
        (r"\\?\C:", "foo", r"\\?\C:\foo"),
        (r"\\?\C:\bar", "../foo", r"\\?\C:\foo"),
        (r"\\?\C:\bar", "../../foo", r"\\?\C:\foo"),
        (r"\\?\C:\", "../foo", r"\\?\C:\foo"),
        (r"\\?\C:", r"D:\foo/./", r"D:\foo/./"),
        (r"\\?\A:\x\y", "/foo", r"\\?\A:\foo"),
        (r"\\?\A:", r"..\foo\.", r"\\?\A:\foo"),
        (r"\\?\A:\x\y", r".\foo\.", r"\\?\A:\x\y\foo"),
        (r"\\?\A:\x\y", "", r"\\?\A:\x\y\"),
    ] {
        assert_eq!(
            text(&windows(base).join(&windows(part))),
            expected,
            "{} {}",
            base,
            part
        );
    }
}

#[test]
fn stripping_windows_paths() {
    for (whole, base, expected) in [
        (r"C:\a\b", r"C:\a", Some("b")),
        (r"C:\a\b", r"c:/a/", Some("b")),
        (r"C:\a\b/c\.\", r"C:\a", Some("b/c")),
        (r"C:\a\b", r"\a", None),
        (r"C:\a\b", r"D:\a", None),
        (r"C:\ab", r"C:\a", None),
        (r"C:\x\", "C:", Some(r"\x")),
        (r"C:x", "C:", Some("x")),
        (r"C:\a\.\", "", Some(r"C:\a")),
        (r"\\s\h\x", r"\\s\h", Some("x")),
        (r"\\s\h\x", r"\\S\h", None),
        (r"\\?\C:\a\b", r"\\?\C:\a", Some("b")),
        (r"\\?\C:\a\b", r"C:\a", None),
    ] {
        assert_eq!(
            windows(whole)
                .strip_prefix(&windows(base))
                .map(|rest| text(&rest)),
            expected.map(str::to_owned),
            "{} {}",
            whole,
            base
        );
        assert_eq!(
            windows(whole).starts_with(&windows(base)),
            expected.is_some(),
            "{} {}",
            whole,
            base
        );
    }
}

#[test]
fn windows_paths_that_are_the_same() {
    assert!(windows(r"c:\a\b") == windows("C:/a//b/."));
    assert!(windows(r"c:\a") != windows(r"c:\A"));
    assert!(windows(r"\\?\C:\a") != windows(r"C:\a"));
    assert!(windows("a/b") != path("a/b"));
    assert_eq!(windows("a").syntax(), Syntax::Windows);
}
