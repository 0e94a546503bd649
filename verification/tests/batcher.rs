use convmdblog::batcher::{syn_walk, FindOptions, WalkEntry, WalkStep};

fn entry(path: &str, is_dir: bool) -> Result<WalkEntry, String> {
    Ok(WalkEntry { path: path.to_owned(), is_symlink: false, is_dir, pre_excluded: false })
}

fn exts(v: &[&str]) -> Vec<String> {
    v.iter().map(|s| s.to_string()).collect()
}

#[test]
fn default_options() {
    let o = FindOptions::default();
    assert!(o.exclude_dot && o.recursive && o.post_include_ext_opt.is_none());
}

#[test]
fn include_ext_strips_dot() {
    let o = FindOptions::default().with_post_include_ext(&exts(&[".md", "markdown", "..x"]));
    assert_eq!(o.post_include_ext_opt, Some(exts(&["md", "markdown", ".x"])));
}

#[test]
fn verify_files_and_dirs() {
    let o = FindOptions::default().with_post_include_ext(&exts(&[".md", ".markdown"]));
    assert!(o.verify("notes/a.md", false, false, false));
    assert!(o.verify("notes/a.markdown", false, false, false));
    assert!(!o.verify("notes/a.txt", false, false, false));
    assert!(!o.verify("notes/README", false, false, false));
    assert!(!o.verify("notes/.a.md", false, false, false));
    assert!(!o.verify("notes/a.md", true, false, false));
    assert!(o.verify("notes/sub", false, true, false));
    assert!(!o.verify("notes/sub", false, true, true));
    assert!(!o.verify("notes/.git", false, true, false));
    let o = o.recursive(false);
    assert!(!o.verify("notes/sub", false, true, false));
    assert!(!o.needs_pre_exclude(false, true));
    let o = FindOptions::default();
    assert!(o.verify("notes/a.txt", false, false, false));
    assert!(o.needs_pre_exclude(false, true));
    assert!(!o.needs_pre_exclude(true, true));
}

#[test]
fn walk_order() {
    let w = syn_walk(vec![entry("d/a.md", false), Err("bad".to_owned()), entry("d/sub", true), entry("d/.b.md", false), entry("d/c.txt", false)]);
    let mut w = w.post_include_ext(&exts(&[".md"]));
    // the last pending entry comes first; hidden and other files are dropped
    match w.next_step() {
        WalkStep::Descend(e) => assert_eq!(e.path, "d/sub"),
        _ => panic!("expected to go down into d/sub"),
    }
    w.extend(vec![entry("d/sub/x.md", false), entry("d/sub/y.md", false)]);
    match w.next_step() {
        WalkStep::Yield(e) => assert_eq!(e.path, "d/sub/y.md"),
        _ => panic!("expected d/sub/y.md"),
    }
    match w.next_step() {
        WalkStep::Yield(e) => assert_eq!(e.path, "d/sub/x.md"),
        _ => panic!("expected d/sub/x.md"),
    }
    match w.next_step() {
        WalkStep::Fail(e) => assert_eq!(e, "bad"),
        _ => panic!("expected the error"),
    }
    match w.next_step() {
        WalkStep::Yield(e) => assert_eq!(e.path, "d/a.md"),
        _ => panic!("expected d/a.md"),
    }
    assert!(matches!(w.next_step(), WalkStep::Done));
    assert!(matches!(w.next_step(), WalkStep::Done));
}

#[test]
fn walk_not_recursive() {
    let mut w = syn_walk(vec![entry("d/a.md", false), entry("d/sub", true)]).recursive(false);
    match w.next_step() {
        WalkStep::Yield(e) => assert_eq!(e.path, "d/a.md"),
        _ => panic!("expected d/a.md"),
    }
    assert!(matches!(w.next_step(), WalkStep::Done));
    let w = w.with_opt(FindOptions::default());
    assert!(w.opt().recursive);
}

/// The entries of the directories of an in-memory tree.
fn tree_dir(path: &str) -> Vec<Result<WalkEntry, String>> {
    match path {
        "d" => vec![entry("d/a.md", false), entry("d/s", true), entry("d/.h", true), entry("d/b.md", false)],
        "d/s" => vec![entry("d/s/x.md", false), entry("d/s/t", true), Err("denied".to_owned())],
        "d/s/t" => vec![entry("d/s/t/y.md", false), entry("d/s/t/.z.md", false)],
        "d/.h" => vec![entry("d/.h/hidden.md", false)],
        _ => panic!("no directory {path}"),
    }
}

#[test]
fn whole_walk_hands_out_each_kept_file_once() {
    let mut w = syn_walk(tree_dir("d"));
    let mut out = Vec::new();
    let mut steps = 0;
    loop {
        steps += 1;
        assert!(steps < 100, "the walk does not end");
        match w.next_step() {
            WalkStep::Done => break,
            WalkStep::Fail(e) => out.push(format!("error: {e}")),
            WalkStep::Yield(e) => out.push(e.path),
            WalkStep::Descend(e) => w.extend(tree_dir(&e.path)),
        }
    }
    assert_eq!(out, vec!["d/b.md", "error: denied", "d/s/t/y.md", "d/s/x.md", "d/a.md"]);
}
