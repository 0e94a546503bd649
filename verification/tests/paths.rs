use std::path::Path;

use convmdblog::aux::{file_name, file_stem, is_dot_file, shorten_path};
use convmdblog::paths::{path_extension, path_file_name, path_file_stem, path_join, split_file_name};

const SAMPLES: &[&str] = &[
    "", "/", ".", "..", "./", "../", "a", "a/", "a/.", "a/./", "a//b", "/a/b.md", "a/b.tar.gz",
    ".bashrc", "dir/.hidden", "dir/.hidden.txt", "foo.", "a/..", "/..", "./a", "x/./.", "../assets/p.png",
    "notes/ABasicDeep.md", "..a", "a..b", "/./", "//", "a/b/", "名前/文書.md",
];

#[test]
fn file_name_agrees_with_std() {
    for p in SAMPLES {
        let expect = Path::new(p).file_name().map(|s| s.to_str().unwrap().to_owned());
        assert_eq!(path_file_name(p), expect, "file_name of {p:?}");
    }
}

#[test]
fn file_stem_agrees_with_std() {
    for p in SAMPLES {
        let expect = Path::new(p).file_stem().map(|s| s.to_str().unwrap().to_owned());
        assert_eq!(path_file_stem(p), expect, "file_stem of {p:?}");
    }
}

#[test]
fn extension_agrees_with_std() {
    for p in SAMPLES {
        let expect = Path::new(p).extension().map(|s| s.to_str().unwrap().to_owned());
        assert_eq!(path_extension(p), expect, "extension of {p:?}");
    }
}

#[test]
fn join_agrees_with_std() {
    for d in ["", "/", "a", "a/", "/x/y"] {
        for r in ["", "b", "/c", "b/c.md"] {
            let expect = Path::new(d).join(r).to_str().unwrap().to_owned();
            assert_eq!(path_join(d, r), expect, "{d:?} join {r:?}");
        }
    }
}

#[test]
fn file_stem_and_name_of_notes() {
    assert_eq!(file_stem("notes/graph-theory-basic.md"), Ok("graph-theory-basic".to_owned()));
    assert_eq!(file_name("notes/graph-theory-basic.md"), Ok("graph-theory-basic.md".to_owned()));
    assert_eq!(file_stem("a/b.tar.gz"), Ok("b.tar".to_owned()));
    assert_eq!(file_stem(".bashrc"), Ok(".bashrc".to_owned()));
}

#[test]
fn file_stem_error_names_the_path() {
    assert_eq!(file_stem("/"), Err("NO file stam found for \"/\"".to_owned()));
    assert_eq!(file_stem("a/.."), Err("NO file stam found for \"a/..\"".to_owned()));
    assert_eq!(file_name(""), Err("NO file name found for \"\"".to_owned()));
    assert_eq!(file_name("say \"hi\"/.."), Err("NO file name found for \"say \\\"hi\\\"/..\"".to_owned()));
}

#[test]
fn dot_files() {
    assert!(is_dot_file(".git"));
    assert!(is_dot_file("a/.hidden.md"));
    assert!(!is_dot_file("a/visible.md"));
    assert!(!is_dot_file("a/.."));
    assert!(!is_dot_file("."));
    assert!(is_dot_file("a/.x/"));
}

#[test]
fn stem_and_extension_rebuild_name() {
    for p in SAMPLES {
        if let Some(name) = path_file_name(p) {
            let (stem, ext) = split_file_name(&name);
            assert_eq!(path_file_stem(p), Some(stem.clone()));
            match ext {
                Some(e) => assert_eq!(format!("{stem}.{e}"), name),
                None => assert_eq!(stem, name),
            }
        } else {
            assert_eq!(path_file_stem(p), None);
        }
    }
}

#[test]
fn shorten_path_relative_to_cwd() {
    assert_eq!(shorten_path("/home/u/blog/a.md", "/home/u"), "blog/a.md");
    assert_eq!(shorten_path("/home/u/a.md", "/home/u/blog"), "../a.md");
    assert_eq!(shorten_path("/abs/a.md", "rel"), "/abs/a.md");
    assert_eq!(shorten_path("rel/a.md", "/abs"), "rel/a.md");
}
