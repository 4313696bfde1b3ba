use disk_usage::error::TraversalError;
use disk_usage::fact::{path_extension, FileFact};
use std::path::Path;

#[test]
fn extension_is_lowercased() {
    let upper = FileFact::new(String::from("A.TXT"), 1);
    let lower = FileFact::new(String::from("b.txt"), 2);
    assert_eq!(upper.extension(), Some("txt"));
    assert_eq!(lower.extension(), Some("txt"));
    assert_eq!(upper.label(), "txt");
    assert_eq!(upper.label(), lower.label());
}

#[test]
fn extension_lowercasing_is_unicode_aware() {
    let fact = FileFact::new(String::from("notes.ÄÖ"), 1);
    assert_eq!(fact.extension(), Some("äö"));
}

#[test]
fn no_dot_groups_under_sentinel() {
    let fact = FileFact::new(String::from("Makefile"), 3);
    assert_eq!(fact.extension(), None);
    assert_eq!(fact.label(), "(none)");
}

#[test]
fn fact_keeps_path_and_size() {
    let fact = FileFact::new(String::from("dir/sub/report.PDF"), 4096);
    assert_eq!(fact.path(), "dir/sub/report.PDF");
    assert_eq!(fact.size(), 4096);
    assert_eq!(fact.extension(), Some("pdf"));
    let (path, size) = fact.into_parts();
    assert_eq!(path, "dir/sub/report.PDF");
    assert_eq!(size, 4096);
}

#[test]
fn extension_comes_from_the_file_name_only() {
    assert_eq!(path_extension("dir.d/file"), None);
    assert_eq!(path_extension("dir.d/file.rs"), Some(String::from("rs")));
    assert_eq!(path_extension("a/b.tar.gz"), Some(String::from("gz")));
    assert_eq!(path_extension("/abs/path/x.y/z"), None);
}

#[test]
fn extension_edge_cases() {
    assert_eq!(path_extension(""), None);
    assert_eq!(path_extension(".bashrc"), None);
    assert_eq!(path_extension("dir/.hidden"), None);
    assert_eq!(path_extension(".hidden.txt"), Some(String::from("txt")));
    assert_eq!(path_extension("foo."), Some(String::new()));
    assert_eq!(path_extension(".."), None);
    assert_eq!(path_extension("dir/.."), None);
    assert_eq!(path_extension("..a"), Some(String::from("a")));
    assert_eq!(path_extension("a..b"), Some(String::from("b")));
    assert_eq!(path_extension("naïve.tëxt"), Some(String::from("tëxt")));
}

#[test]
fn extension_agrees_with_std_on_file_paths() {
    for path in [
        "a", "a.b", "a.b.c", ".a", ".a.b", "a.", "a..", "..a", "a..b", "x/a.b", "x.y/a", "x.y/a.b",
        "x/.a", "x/y/z.TXT", "./a.rs", "../a.rs", "/a.rs", "/x/.y.z", "a b.c d", "ä.ö",
        "dir/sub.dir/name.ext", "...", "....", "a...",
    ] {
        let expected = Path::new(path).extension().and_then(|e| e.to_str()).map(String::from);
        assert_eq!(path_extension(path), expected, "path = {}", path);
    }
}

#[test]
fn error_messages() {
    assert_eq!(TraversalError::NotFound.message(), "path not found");
    assert_eq!(TraversalError::PermissionDenied.message(), "permission denied");
    assert_eq!(TraversalError::NotADirectory.message(), "not a directory");
    assert_eq!(TraversalError::IoFailure(5).message(), "I/O failure (os error 5)");
    assert_eq!(TraversalError::IoFailure(0).message(), "I/O failure (os error 0)");
    assert_eq!(TraversalError::IoFailure(-7).message(), "I/O failure (os error -7)");
    assert_eq!(
        TraversalError::IoFailure(i32::MIN).message(),
        "I/O failure (os error -2147483648)"
    );
}
