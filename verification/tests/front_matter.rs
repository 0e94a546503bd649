use convmdblog::reader::{FrontMatter, Markdown};
use regex::Regex;

/// The front matter as a byte range: what the pattern
/// `.*---(?s)(.*?)---` captures in a match from the start of the text.
fn by_find(text: &str) -> Option<std::ops::Range<usize>> {
    let re = Regex::new(r"\A.*---(?s)(.*?)---").unwrap();
    re.captures(text).and_then(|c| c.get(1)).map(|m| m.range())
}

const SAMPLES: &[&str] = &[
    "---\ntitle: x\ndate: 2020-01-01\n---\nbody\n",
    "no front matter",
    "---\nonly one",
    "------",
    "-------",
    "intro --- a --- b --- c",
    "line\n--- x --- y\n--- z ---",
    "a --- b\nc --- d",
    "\n\n---\ntitle: 标题\n---\n正文 --- 更多",
    "---\ntitle: 标题\n---\n正文 --- 更多",
    "---",
    "x---y---z---w\n---",
    "--- a\n--- b\n---",
    "----\n---",
    "------\nx\n---",
    "a --- b --- c\n--- end",
    "题 --- a ---\nb",
    "",
];

#[test]
fn front_matter_is_the_head_block() {
    for t in SAMPLES {
        assert_eq!(Markdown::fetch_front_matter(t), by_find(t), "front matter of {t:?}");
        let text = Markdown::front_matter_text(t);
        assert_eq!(text.as_deref(), by_find(t).map(|r| &t[r]), "front matter text of {t:?}");
    }
}

#[test]
fn typical_note() {
    let raw = "---\ntitle: Graph\ntags: [graph]\n---\n# Graph\n";
    let r = Markdown::fetch_front_matter(raw).unwrap();
    assert_eq!((r.start, r.end), (3, 31));
    assert_eq!(Markdown::front_matter_text(raw).unwrap(), "\ntitle: Graph\ntags: [graph]\n");
    let md = Markdown::from_parts("graph".to_owned(), raw.to_owned(), None);
    assert_eq!(md.text_start, 34);
    assert_eq!(md.body(), "\n# Graph\n");
}

#[test]
fn note_without_front_matter() {
    let raw = "# Title\ntext";
    assert!(Markdown::fetch_front_matter(raw).is_none());
    assert!(Markdown::front_matter_text(raw).is_none());
    let fm = FrontMatter { title: None, date: None, tags: vec![] };
    let md = Markdown::from_parts("t".to_owned(), raw.to_owned(), Some(fm));
    assert_eq!(md.text_start, 0);
    assert_eq!(md.body(), raw);
    assert_eq!(md.name_stem, "t");
}

#[test]
fn fences_below_the_head_are_no_front_matter() {
    let raw = "intro\n---\nx\n---\n";
    assert!(Markdown::fetch_front_matter(raw).is_none());
    assert!(Markdown::front_matter_text(raw).is_none());
    let md = Markdown::from_parts("intro".to_owned(), raw.to_owned(), None);
    assert_eq!(md.text_start, 0);
    assert_eq!(md.body(), raw);
}

#[test]
fn byte_offsets_with_wide_characters() {
    let t = "---\n题---";
    let r = Markdown::fetch_front_matter(t).unwrap();
    assert_eq!((r.start, r.end), (3, 7));

    let t = "---\n题: 值\n---\nrest";
    let r = Markdown::fetch_front_matter(t).unwrap();
    assert_eq!((r.start, r.end), (3, 13));
    assert_eq!(&t[r], "\n题: 值\n");
    let md = Markdown::from_parts("t".to_owned(), t.to_owned(), None);
    assert_eq!(md.text_start, 16);
    assert_eq!(md.body(), "\nrest");
}

#[test]
fn greedy_opener_on_first_line() {
    // the last `---` of the first line that can open is chosen
    let t = "------\nx\n---";
    let r = Markdown::fetch_front_matter(t).unwrap();
    assert_eq!((r.start, r.end), (6, 9));
    assert_eq!(Markdown::front_matter_text(t).unwrap(), "\nx\n");
    let t = "a --- b --- c\n--- end";
    let r = Markdown::fetch_front_matter(t).unwrap();
    assert_eq!(&t[r], " c\n");
    // byte offsets after a wide character on the first line
    let t = "题 --- a ---\nb";
    let r = Markdown::fetch_front_matter(t).unwrap();
    assert_eq!((r.start, r.end), (7, 10));
    assert_eq!(&t[r], " a ");
    let md = Markdown::from_parts("t".to_owned(), t.to_owned(), None);
    assert_eq!(md.text_start, 13);
    assert_eq!(md.body(), "\nb");
}

#[test]
fn front_matter_without_fences_is_dropped() {
    let fm = FrontMatter { title: Some("x".to_owned()), date: None, tags: vec![] };
    let md = Markdown::from_parts("t".to_owned(), "no fences".to_owned(), Some(fm));
    assert!(md.front_matter.is_none());
    let fm = FrontMatter { title: Some("x".to_owned()), date: None, tags: vec![] };
    let md = Markdown::from_parts("t".to_owned(), "---\ntitle: x\n---\n".to_owned(), Some(fm));
    assert!(md.front_matter.is_some());
    assert_eq!(&md.raw[..md.text_start], "---\ntitle: x\n---");
}

#[test]
fn unclosed_front_matter() {
    let t = "---\ntitle: x\n";
    assert!(Markdown::fetch_front_matter(t).is_none());
    let md = Markdown::from_parts("t".to_owned(), t.to_owned(), None);
    assert_eq!(md.text_start, 0);
}
