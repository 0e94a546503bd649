use convmdblog::aux::RelaDateTime;
use convmdblog::mapper::{
    can_render_post, center_img_html, date_prefix, map_image_path, map_img_html,
    map_tags_to_cats, md_ref_target, md_ref_url, parse_md_ref, ref_link_url, render_post,
    tag_to_cat, Cat,
};
use convmdblog::reader::{FrontMatter, Markdown};
use regex::Regex;

fn tags(v: &[&str]) -> Vec<String> {
    v.iter().map(|s| s.to_string()).collect()
}

#[test]
fn cat_names() {
    assert_eq!(Cat::Algs.to_string(), "algs");
    assert_eq!(Cat::Lang.to_string(), "lang");
    assert_eq!(Cat::OS.to_string(), "os");
    assert_eq!(Cat::Net.to_string(), "net");
    assert_eq!(Cat::Oth.to_string(), "oth");
    assert_eq!(Cat::default(), Cat::Oth);
}

#[test]
fn tag_table() {
    assert_eq!(tag_to_cat("string pattern match"), Some(Cat::Algs));
    assert_eq!(tag_to_cat("common lisp"), Some(Cat::Lang));
    assert_eq!(tag_to_cat("sudo"), Some(Cat::OS));
    assert_eq!(tag_to_cat("ietf rfcs"), Some(Cat::Net));
    assert_eq!(tag_to_cat("Rust"), None);
    assert_eq!(tag_to_cat("cooking"), None);
}

#[test]
fn tags_to_categories() {
    assert_eq!(map_tags_to_cats(&tags(&["  Rust ", "linux", "LLVM", "graph"])), vec![Cat::Lang, Cat::OS, Cat::Algs]);
    assert_eq!(map_tags_to_cats(&tags(&["cooking", "travel"])), vec![Cat::Oth]);
    assert_eq!(map_tags_to_cats(&tags(&[])), vec![Cat::Oth]);
    assert_eq!(map_tags_to_cats(&tags(&["IETF", "kernel", "ietf rfcs"])), vec![Cat::Net, Cat::OS]);
    // lowercase by the Unicode mappings
    assert_eq!(map_tags_to_cats(&tags(&["\u{3000}PYTHON\t"])), vec![Cat::Lang]);
}

#[test]
fn image_paths() {
    assert_eq!(map_image_path("../assets/img/a.png", "/"), "/assets/img/a.png");
    assert_eq!(map_image_path("..//./assets//b.png/", "/"), "/assets//b.png");
    assert_eq!(map_image_path("./assets/a.png", "/"), "./assets/a.png");
    assert_eq!(map_image_path("../assetsX/a.png", "/"), "../assetsX/a.png");
    assert_eq!(map_image_path("https://x/y.png", "/"), "https://x/y.png");
    assert_eq!(map_image_path("../assets", "/img"), "/img/assets");
}

/// The same image path mapping, written with `std::path`.
fn mapdir_std(src: &str, imgdir: &str) -> String {
    let mut p = std::path::PathBuf::from(src);
    if p.starts_with("../assets") {
        p = std::path::Path::new(imgdir).join(p.strip_prefix("../").unwrap());
    }
    p.to_str().unwrap().to_owned()
}

#[test]
fn image_paths_agree_with_std() {
    for src in ["../assets/a.png", "../assets", "../assets/", "..//assets/x/./", "../../assets/a", "../assets/./.", "a/../assets", "../ assets", "../assets/a/../b"] {
        for dir in ["/", "/img", "img/", ""] {
            assert_eq!(map_image_path(src, dir), mapdir_std(src, dir), "{src:?} under {dir:?}");
        }
    }
}

#[test]
fn image_path_idempotent() {
    for src in ["../assets/a.png", "../assets", "x.png", "../b.png"] {
        let once = map_image_path(src, "/");
        assert_eq!(map_image_path(&once, "/"), once);
    }
}

#[test]
fn md_ref_agrees_with_pattern() {
    let re = Regex::new(r"^(\S+\.md)(#\S*)?$").unwrap();
    for u in ["./a.md", "a.md#x", "a.md#", ".md", "x.md", "a.md#b.md", "a.mdx", "a b.md", "a.md# x",
              "dir/a.markdown", "#.md", "a.md#x#y", "..md", "a\u{3000}.md", "./整顿.md#标题"] {
        let ours = parse_md_ref(u);
        let theirs = re.captures(u);
        assert_eq!(ours.is_some(), theirs.is_some(), "{u:?}");
        if let (Some(o), Some(t)) = (ours, theirs) {
            assert_eq!(o.get(0).as_deref(), t.get(0).map(|m| m.as_str()));
            assert_eq!(o.get(1).as_deref(), t.get(1).map(|m| m.as_str()));
            assert_eq!(o.get(2).as_deref(), t.get(2).map(|m| m.as_str()));
            assert_eq!(o.len(), t.len());
        }
    }
}

#[test]
fn md_ref_targets() {
    let t = md_ref_target("./ABasicDeep.md#整顿", "/notes").unwrap();
    assert_eq!(t.path, "/notes/./ABasicDeep.md");
    assert_eq!(t.stem, "ABasicDeep");
    assert_eq!(t.sharp, "#整顿");
    let t = md_ref_target("c_trap.md", "notes").unwrap();
    assert_eq!((t.path.as_str(), t.stem.as_str(), t.sharp.as_str()), ("notes/c_trap.md", "c_trap", ""));
    // a hidden name has no extension, so it is no note
    assert!(md_ref_target("dir/.md", "/notes").is_none());
    assert!(md_ref_target("https://example.com", "/notes").is_none());
}

#[test]
fn md_ref_urls() {
    assert_eq!(md_ref_url(Cat::Lang, "c_trap", ""), "{{site.url}}/lang/c_trap.html");
    assert_eq!(md_ref_url(Cat::Algs, "ABasicDeep", "#整顿"), "{{site.url}}/algs/ABasicDeep.html#整顿");
    let t = md_ref_target("./kmp.md#next", "/n").unwrap();
    assert_eq!(ref_link_url(&t, &tags(&["Graph", "rust"])), "{{site.url}}/algs/kmp.html#next");
    assert_eq!(ref_link_url(&t, &tags(&["misc"])), "{{site.url}}/oth/kmp.html#next");
}

#[test]
fn html_images() {
    assert_eq!(
        center_img_html("<img src=\"a.png\">").unwrap(),
        "<div class=\"sx-center\">\n<img src=\"a.png\"></div>"
    );
    assert_eq!(center_img_html("<p>no image</p>").unwrap(), "<p>no image</p>");
    assert_eq!(
        map_img_html("<img src=\"../assets/x.png\" width=\"3\">", "/").unwrap(),
        "<img src=\"/assets/x.png\" width=\"3\">"
    );
    assert_eq!(map_img_html("<img alt=\"x\">", "/").unwrap(), "<img alt=\"x\">");
}

fn note(title: Option<&str>, date: Option<RelaDateTime>, tg: &[&str], stem: &str) -> Markdown {
    let raw = "---\ntitle: t\n---\nBody text\n".to_owned();
    let fm = FrontMatter { title: title.map(|s| s.to_owned()), date, tags: tags(tg) };
    Markdown::from_parts(stem.to_owned(), raw, Some(fm))
}

#[test]
fn post_of_a_note() {
    let date = RelaDateTime::from_str("2022-08-26").unwrap();
    let md = note(Some("Compile the kernel"), Some(date), &["linux", "kernel"], "compile-linux-kernel");
    assert!(can_render_post(&md));
    let post = render_post(&md, &md.body(), "_posts").unwrap();
    assert_eq!(post.path, "_posts/2022-08-26-compile-linux-kernel.md");
    assert_eq!(
        post.content,
        "---\ntitle: Compile the kernel\ndate: 2022-08-26\nlayout: post\nmathjax: true\ncategory:\n- os\n---\n\nBody text\n"
    );
    assert_eq!(date_prefix(&date), "2022-08-26");
}

#[test]
fn post_needs_title_and_date() {
    let date = RelaDateTime::from_str("2022-08-26").unwrap();
    assert!(!can_render_post(&note(None, Some(date), &[], "a")));
    assert!(!can_render_post(&note(Some("t"), None, &[], "a")));
    let md = Markdown::from_parts("a".to_owned(), "x".to_owned(), None);
    assert!(!can_render_post(&md));
}
