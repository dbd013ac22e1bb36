use org3d::paths::{
    find_extension, find_file_name, find_parent, find_stem, join, starts_with, strip_prefix,
};
use std::path::Path;

const SAMPLES: &[&str] = &[
    "", "/", "//", ".", "./", "..", "../a", "a", "a/", "a/b", "a//b", "a/./b", "./a", "././a", "/.", "/./a",
    "/a", "//a", "/a/b.txt", "/a/b/", "/a/.", "/a/..", "a/..", ".hidden", "a/.hidden", "a.b.c", "x.", "..x",
    "...", "/m/ä ö.3mf", "a/b/c/d", "/a/b/c/d.e/f", "a/.b.c", "a/b.", "a /b",
];

fn text(p: Option<&Path>) -> Option<String> {
    p.map(|q| q.to_str().unwrap().to_string())
}

#[test]
fn parents_agree_with_std() {
    for s in SAMPLES {
        assert_eq!(find_parent(s), text(Path::new(s).parent()), "parent of {s:?}");
    }
}

#[test]
fn file_names_agree_with_std() {
    for s in SAMPLES {
        let p = Path::new(s);
        let name = p.file_name().map(|o| o.to_str().unwrap().to_string());
        let stem = p.file_stem().map(|o| o.to_str().unwrap().to_string());
        let extension = p.extension().map(|o| o.to_str().unwrap().to_string());
        assert_eq!(find_file_name(s), name, "file name of {s:?}");
        assert_eq!(find_stem(s), stem, "stem of {s:?}");
        assert_eq!(find_extension(s), extension, "extension of {s:?}");
    }
}

#[test]
fn pairs_agree_with_std() {
    for s in SAMPLES {
        for t in SAMPLES {
            let (p, q) = (Path::new(s), Path::new(t));
            assert_eq!(join(s, t), p.join(q).to_str().unwrap(), "join of {s:?} and {t:?}");
            assert_eq!(starts_with(s, t), p.starts_with(q), "{s:?} under {t:?}");
            assert_eq!(strip_prefix(s, t), text(p.strip_prefix(q).ok()), "{s:?} without {t:?}");
        }
    }
}

#[test]
fn files_stay_in_their_directories() {
    for dir in ["", "/", "a", "/a", "a/b", "/a//b", "./a"] {
        let path = join(dir, "x.3mf");
        assert_eq!(find_parent(&path).as_deref(), Some(dir));
        assert_eq!(find_file_name(&path).as_deref(), Some("x.3mf"));
    }
}

#[test]
fn joined_paths_are_under_their_base() {
    for base in SAMPLES {
        for rel in ["a", "a/b", "./a", "a//b"] {
            assert!(starts_with(&join(base, rel), base), "{rel:?} below {base:?}");
        }
    }
}
