use convmdblog::events::{center_img, map_images, map_img_ref, map_md_refs, md_ref_targets};
use pulldown_cmark::{Options, Parser};

/// The markdown `text` read into events and written back unchanged.
fn round_trip(text: &str) -> String {
    let mut out = String::new();
    pulldown_cmark_to_cmark::cmark(Parser::new_ext(text, Options::all()), &mut out).unwrap();
    out
}

fn tag_list(v: &[&str]) -> Vec<String> {
    v.iter().map(|s| s.to_string()).collect()
}

#[test]
fn image_pass_keeps_plain_markdown() {
    let t = "# Title\n\nsome *text* and `code`\n\n- a\n- b\n";
    assert_eq!(map_img_ref(t, "/").unwrap(), round_trip(t));
    assert_eq!(center_img(t).unwrap(), round_trip(t));
}

#[test]
fn image_pass_moves_image_urls() {
    let t = "text ![a pic](../assets/img/x.png) more\n";
    let r = map_img_ref(t, "/").unwrap();
    assert_eq!(r, round_trip("text ![a pic](/assets/img/x.png) more\n"));
    assert!(!r.contains("../assets"));
    // an image elsewhere stays where it is
    let t = "![b](./pics/y.png)\n";
    assert_eq!(map_img_ref(t, "/").unwrap(), round_trip(t));
}

#[test]
fn image_pass_rewrites_html_images() {
    let t = "<img src=\"../assets/y.png\" width=\"50%\">\n\ntext\n";
    let r = map_img_ref(t, "/").unwrap();
    assert!(r.contains("src=\"/assets/y.png\""), "{r}");
    assert!(!r.contains("../assets"), "{r}");
}

#[test]
fn center_pass_wraps_html_images() {
    let t = "<img src=\"a.png\">\n\ntext\n";
    let r = center_img(t).unwrap();
    assert!(r.contains("<div class=\"sx-center\">\n<img src=\"a.png\"></div>"), "{r}");
    // a markdown image is no HTML: it is kept
    let t = "![a](a.png)\n";
    assert_eq!(center_img(t).unwrap(), round_trip(t));
}

#[test]
fn link_targets_of_a_note() {
    let t = "see [y](./xx.md#sec), [w](other.txt) and [z](c_trap.md)\n";
    let targets = md_ref_targets(t, "/notes");
    assert_eq!(targets.len(), 2);
    assert_eq!(targets[0].path, "/notes/./xx.md");
    assert_eq!(targets[0].stem, "xx");
    assert_eq!(targets[0].sharp, "#sec");
    assert_eq!(targets[1].path, "/notes/c_trap.md");
    assert_eq!(targets[1].stem, "c_trap");
    assert_eq!(targets[1].sharp, "");
    assert!(md_ref_targets("no links here\n", "/notes").is_empty());
}

#[test]
fn link_pass_points_links_at_posts() {
    let t = "see [y](./xx.md#sec), [w](other.txt) and [z](c_trap.md)\n";
    let tags = vec![tag_list(&["Graph"]), tag_list(&["rust"])];
    let r = map_md_refs(t, "/notes", &tags).unwrap();
    let expected = round_trip(
        "see [y]({{site.url}}/algs/xx.html#sec), [w](other.txt) and [z]({{site.url}}/lang/c_trap.html)\n",
    );
    assert_eq!(r, expected);
}

#[test]
fn link_pass_needs_one_tag_list_per_link() {
    let t = "see [y](./xx.md)\n";
    assert!(map_md_refs(t, "/notes", &vec![]).is_none());
    assert!(map_md_refs(t, "/notes", &vec![tag_list(&["a"]), tag_list(&["b"])]).is_none());
    assert_eq!(map_md_refs("plain\n", "/notes", &vec![]).unwrap(), round_trip("plain\n"));
}

#[test]
fn image_passes_in_order() {
    let t = "<img src=\"../assets/p.png\">\n\n![q](../assets/q.png)\n";
    let r = map_images(t).unwrap();
    assert_eq!(r, center_img(&map_img_ref(t, "/").unwrap()).unwrap());
    assert!(r.contains("<div class=\"sx-center\">\n<img src=\"/assets/p.png\"></div>"), "{r}");
    assert!(r.contains("(/assets/q.png)"), "{r}");
}
