//! The passes over the markdown of a note: its text is read as a stream of
//! markdown events, the events that a pass is about are rewritten, and the
//! stream is written back as markdown.

use vstd::prelude::*;

use pulldown_cmark::Event::{End, Html, Start};
use pulldown_cmark::Tag::{Image, Link};
use pulldown_cmark::{LinkType, Options, Parser};
use pulldown_cmark_to_cmark::cmark;

use crate::reader::Markdown;
use crate::mapper::{
    can_render, cat_name, cats_of_tags, post_entries_of, Cat, YamlModel, center_img_html, map_image_path, map_img_html, mapped_image_path, md_ref_target,
    md_ref_target_of, md_ref_url_of, ref_link_url, spec_html_map_attr, spec_html_surround, views_of,
    MdRef,
};

verus! {

/// A markdown event, as the passes over a note see it: an HTML block, the
/// start or the end of an image with its URL, the end of a link with its
/// URL (and whether it was written inline), or any other event, by its
/// place in the stream.
pub enum MdEvent {
    Html(String),
    ImageStart(String),
    ImageEnd(String),
    LinkEnd { inline: bool, url: String },
    Other(u64),
}

/// The value of a markdown event, with its texts as character sequences.
pub enum MdEventView {
    Html(Seq<char>),
    ImageStart(Seq<char>),
    ImageEnd(Seq<char>),
    LinkEnd { inline: bool, url: Seq<char> },
    Other(u64),
}

impl View for MdEvent {
    type V = MdEventView;

    open spec fn view(&self) -> MdEventView {
        match self {
            MdEvent::Html(h) => MdEventView::Html(h@),
            MdEvent::ImageStart(u) => MdEventView::ImageStart(u@),
            MdEvent::ImageEnd(u) => MdEventView::ImageEnd(u@),
            MdEvent::LinkEnd { inline, url } => MdEventView::LinkEnd { inline: *inline, url: url@ },
            MdEvent::Other(k) => MdEventView::Other(*k),
        }
    }
}

/// The values of a sequence of events.
pub open spec fn events_view(s: Seq<MdEvent>) -> Seq<MdEventView> {
    s.map_values(|e: MdEvent| e@)
}

/// The value of each event of a sequence is the value at its place.
proof fn lemma_events_view_index(s: Seq<MdEvent>)
    ensures
        events_view(s).len() == s.len(),
        forall|i: int| 0 <= i < s.len() ==> #[trigger] events_view(s)[i] == s[i]@,
{
}

/// The events that `pulldown_cmark` reads in the markdown text `text`, with
/// every extension of `Options::all()` switched on.
pub uninterp spec fn spec_md_events(text: Seq<char>) -> Seq<MdEventView>;

/// The markdown that `pulldown_cmark_to_cmark` writes for the events read
/// in `text`, where the HTML and the URLs of the events `evs` (one for each
/// event read, in order) take the place of those read.  It names the
/// composition of two outside functions, the reading of `text` by
/// `pulldown_cmark::Parser::new_ext` with `Options::all()` and the writing
/// by `pulldown_cmark_to_cmark::cmark`: the events in between are values of
/// `pulldown_cmark`, which the library does not hold, so the two cannot be
/// named apart over plain values.
pub uninterp spec fn spec_write_md(text: Seq<char>, evs: Seq<MdEventView>) -> Seq<char>;

/// `pulldown_cmark::Parser::new_ext(text, Options::all())`: the events of
/// the markdown text `text`.  The result is named, not stated: the
/// CommonMark grammar is not written out here.
#[verifier::external_body]
fn md_events(text: &str) -> (r: Vec<MdEvent>)
    ensures
        events_view(r@) == spec_md_events(text@),
{
    Parser::new_ext(text, Options::all()).enumerate().map(|(i, e)| match e {
        Html(h) => MdEvent::Html(h.into_string()),
        Start(Image(_, u, _)) => MdEvent::ImageStart(u.into_string()),
        End(Image(_, u, _)) => MdEvent::ImageEnd(u.into_string()),
        End(Link(LinkType::Inline, u, _)) => MdEvent::LinkEnd { inline: true, url: u.into_string() },
        End(Link(_, u, _)) => MdEvent::LinkEnd { inline: false, url: u.into_string() },
        _ => MdEvent::Other(i as u64),
    }).collect()
}

/// `pulldown_cmark_to_cmark::cmark` on the events of `text` as
/// `pulldown_cmark` reads them, each HTML block and each URL of an image or
/// a link replaced by that of the event of `evs` at the same place.  The
/// result is named, not stated: the markdown writer is not written out
/// here.  The writer fails only when its output does, which a `String`
/// never does.
#[verifier::external_body]
fn write_md(text: &str, evs: Vec<MdEvent>) -> (r: String)
    ensures
        r@ == spec_write_md(text@, events_view(evs@)),
{
    let mut out = String::new();
    let _ = cmark(Parser::new_ext(text, Options::all()).zip(evs).map(|p| match p {
        (Html(_), MdEvent::Html(h)) => Html(h.into()),
        (Start(Image(t, _, s)), MdEvent::ImageStart(u)) => Start(Image(t, u.into(), s)),
        (End(Image(t, _, s)), MdEvent::ImageEnd(u)) => End(Image(t, u.into(), s)),
        (End(Link(t, _, s)), MdEvent::LinkEnd { url, .. }) => End(Link(t, url.into(), s)),
        (e, _) => e,
    }), &mut out);
    out
}

/// What the image pass makes of an event: the `src` of each `img` of an
/// HTML block, and the URL of an image, moved by `mapped_image_path`; any
/// other event is kept.  An HTML block that cannot be rewritten is kept
/// here; `image_event_ok` tells it apart.
pub open spec fn image_event(e: MdEventView, imgdir: Seq<char>) -> MdEventView {
    match e {
        MdEventView::Html(h) => match spec_html_map_attr(h, "img[src]"@, "src"@, imgdir) {
            Some(t) => MdEventView::Html(t),
            None => e,
        },
        MdEventView::ImageStart(u) => MdEventView::ImageStart(mapped_image_path(u, imgdir)),
        MdEventView::ImageEnd(u) => MdEventView::ImageEnd(mapped_image_path(u, imgdir)),
        _ => e,
    }
}

/// Whether the image pass can rewrite the event `e`: it is no HTML block,
/// or one that can be rewritten.
pub open spec fn image_event_ok(e: MdEventView, imgdir: Seq<char>) -> bool {
    match e {
        MdEventView::Html(h) => spec_html_map_attr(h, "img[src]"@, "src"@, imgdir) is Some,
        _ => true,
    }
}

/// What the centering pass makes of an event: each `img` of an HTML block
/// wrapped in a `<div class="sx-center">`; any other event is kept.  An
/// HTML block that cannot be rewritten is kept here; `center_event_ok`
/// tells it apart.
pub open spec fn center_event(e: MdEventView) -> MdEventView {
    match e {
        MdEventView::Html(h) => match spec_html_surround(
            h,
            "img[src]"@,
            "<div class=\"sx-center\">\n"@,
            "</div>"@,
        ) {
            Some(t) => MdEventView::Html(t),
            None => e,
        },
        _ => e,
    }
}

/// Whether the centering pass can rewrite the event `e`.
pub open spec fn center_event_ok(e: MdEventView) -> bool {
    match e {
        MdEventView::Html(h) => spec_html_surround(
            h,
            "img[src]"@,
            "<div class=\"sx-center\">\n"@,
            "</div>"@,
        ) is Some,
        _ => true,
    }
}

/// A copy of an event.
fn copy_event(e: &MdEvent) -> (r: MdEvent)
    ensures
        r@ == e@,
{
    match e {
        MdEvent::Html(h) => MdEvent::Html(h.clone()),
        MdEvent::ImageStart(u) => MdEvent::ImageStart(u.clone()),
        MdEvent::ImageEnd(u) => MdEvent::ImageEnd(u.clone()),
        MdEvent::LinkEnd { inline, url } => MdEvent::LinkEnd { inline: *inline, url: url.clone() },
        MdEvent::Other(k) => MdEvent::Other(*k),
    }
}

/// The events with the image pass applied to each: `None` when an HTML
/// block cannot be rewritten.
pub fn map_image_events(evs: Vec<MdEvent>, imgdir: &str) -> (r: Option<Vec<MdEvent>>)
    ensures
        r is Some <==> forall|i: int|
            0 <= i < evs@.len() ==> image_event_ok(#[trigger] events_view(evs@)[i], imgdir@),
        r matches Some(out) ==> events_view(out@) == events_view(evs@).map_values(
            |e: MdEventView| image_event(e, imgdir@),
        ),
{
    let mut out: Vec<MdEvent> = Vec::new();
    let mut i: usize = 0;
    while i < evs.len()
        invariant
            i <= evs@.len(),
            out@.len() == i,
            forall|j: int| 0 <= j < i ==> image_event_ok(#[trigger] evs@[j]@, imgdir@),
            forall|j: int|
                0 <= j < i ==> (#[trigger] out@[j])@ == image_event(evs@[j]@, imgdir@),
        decreases evs@.len() - i,
    {
        let e = match &evs[i] {
            MdEvent::Html(h) => match map_img_html(h.as_str(), imgdir) {
                Some(t) => MdEvent::Html(t),
                None => {
                    proof {
                        lemma_events_view_index(evs@);
                        assert(!image_event_ok(events_view(evs@)[i as int], imgdir@));
                    }
                    return None;
                },
            },
            MdEvent::ImageStart(u) => MdEvent::ImageStart(map_image_path(u.as_str(), imgdir)),
            MdEvent::ImageEnd(u) => MdEvent::ImageEnd(map_image_path(u.as_str(), imgdir)),
            other => copy_event(other),
        };
        out.push(e);
        i = i + 1;
    }
    proof {
        lemma_events_view_index(evs@);
        lemma_events_view_index(out@);
    }
    assert(events_view(out@) =~= events_view(evs@).map_values(
        |e: MdEventView| image_event(e, imgdir@),
    ));
    Some(out)
}

/// The events with the centering pass applied to each: `None` when an HTML
/// block cannot be rewritten.
pub fn center_events(evs: Vec<MdEvent>) -> (r: Option<Vec<MdEvent>>)
    ensures
        r is Some <==> forall|i: int|
            0 <= i < evs@.len() ==> center_event_ok(#[trigger] events_view(evs@)[i]),
        r matches Some(out) ==> events_view(out@) == events_view(evs@).map_values(
            |e: MdEventView| center_event(e),
        ),
{
    let mut out: Vec<MdEvent> = Vec::new();
    let mut i: usize = 0;
    while i < evs.len()
        invariant
            i <= evs@.len(),
            out@.len() == i,
            forall|j: int| 0 <= j < i ==> center_event_ok(#[trigger] evs@[j]@),
            forall|j: int| 0 <= j < i ==> (#[trigger] out@[j])@ == center_event(evs@[j]@),
        decreases evs@.len() - i,
    {
        let e = match &evs[i] {
            MdEvent::Html(h) => match center_img_html(h.as_str()) {
                Some(t) => MdEvent::Html(t),
                None => {
                    proof {
                        lemma_events_view_index(evs@);
                        assert(!center_event_ok(events_view(evs@)[i as int]));
                    }
                    return None;
                },
            },
            other => copy_event(other),
        };
        out.push(e);
        i = i + 1;
    }
    proof {
        lemma_events_view_index(evs@);
        lemma_events_view_index(out@);
    }
    assert(events_view(out@) =~= events_view(evs@).map_values(|e: MdEventView| center_event(e)));
    Some(out)
}

/// Whether the image pass can rewrite every event of the markdown `text`.
pub open spec fn image_pass_ok(text: Seq<char>, imgdir: Seq<char>) -> bool {
    forall|i: int|
        0 <= i < spec_md_events(text).len() ==> image_event_ok(
            #[trigger] spec_md_events(text)[i],
            imgdir,
        )
}

/// The markdown `text` after the image pass.
pub open spec fn image_pass(text: Seq<char>, imgdir: Seq<char>) -> Seq<char> {
    spec_write_md(text, spec_md_events(text).map_values(|e: MdEventView| image_event(e, imgdir)))
}

/// Whether the centering pass can rewrite every event of the markdown
/// `text`.
pub open spec fn center_pass_ok(text: Seq<char>) -> bool {
    forall|i: int|
        0 <= i < spec_md_events(text).len() ==> center_event_ok(#[trigger] spec_md_events(text)[i])
}

/// The markdown `text` after the centering pass.
pub open spec fn center_pass(text: Seq<char>) -> Seq<char> {
    spec_write_md(text, spec_md_events(text).map_values(|e: MdEventView| center_event(e)))
}

/// The markdown `text` with the image pass applied: the `src` of each `img`
/// in its HTML, and the URL of each of its images, moved by
/// `mapped_image_path(_, imgdir)`.  `None` when an HTML block cannot be
/// rewritten.
pub fn map_img_ref(text: &str, imgdir: &str) -> (r: Option<String>)
    ensures
        r is Some <==> image_pass_ok(text@, imgdir@),
        r matches Some(t) ==> t@ == image_pass(text@, imgdir@),
{
    let evs = md_events(text);
    proof {
        lemma_events_view_index(evs@);
    }
    match map_image_events(evs, imgdir) {
        Some(m) => Some(write_md(text, m)),
        None => None,
    }
}

/// The markdown `text` with each `img` of its HTML wrapped in a
/// `<div class="sx-center">`.  `None` when an HTML block cannot be
/// rewritten.
pub fn center_img(text: &str) -> (r: Option<String>)
    ensures
        r is Some <==> center_pass_ok(text@),
        r matches Some(t) ==> t@ == center_pass(text@),
{
    let evs = md_events(text);
    proof {
        lemma_events_view_index(evs@);
    }
    match center_events(evs) {
        Some(m) => Some(write_md(text, m)),
        None => None,
    }
}

/// The image passes over the text of a note, in their order: its image
/// paths moved under `/`, then its images centered.  `None` when an HTML
/// block cannot be rewritten by one of them.
pub fn map_images(text: &str) -> (r: Option<String>)
    ensures
        r is Some <==> image_pass_ok(text@, "/"@) && center_pass_ok(image_pass(text@, "/"@)),
        r matches Some(t) ==> t@ == center_pass(image_pass(text@, "/"@)),
{
    proof {
        reveal_strlit("/");
    }
    match map_img_ref(text, "/") {
        Some(t) => center_img(t.as_str()),
        None => None,
    }
}

/// The target of an event, as path, stem and anchor, when it ends an
/// inline link to another note of the directory `basedir`.
pub open spec fn event_target(e: MdEventView, basedir: Seq<char>) -> Option<
    (Seq<char>, Seq<char>, Seq<char>),
> {
    match e {
        MdEventView::LinkEnd { inline, url } => if inline {
            md_ref_target_of(url, basedir)
        } else {
            None
        },
        _ => None,
    }
}

/// The targets of the inline links to other notes among the events `evs`,
/// in order.
pub open spec fn link_targets(evs: Seq<MdEventView>, basedir: Seq<char>) -> Seq<
    (Seq<char>, Seq<char>, Seq<char>),
>
    decreases evs.len(),
{
    if evs.len() == 0 {
        Seq::empty()
    } else {
        let init = link_targets(evs.drop_last(), basedir);
        match event_target(evs.last(), basedir) {
            Some(t) => init.push(t),
            None => init,
        }
    }
}

/// What the link pass makes of an event, given the tags `tags` of the note
/// it links to: the end of an inline link to another note gets the blog URL
/// of that note under its first category; any other event is kept.
pub open spec fn relink_event(e: MdEventView, basedir: Seq<char>, tags: Seq<Seq<char>>) -> MdEventView {
    match event_target(e, basedir) {
        Some(t) => MdEventView::LinkEnd {
            inline: true,
            url: md_ref_url_of(cats_of_tags(tags)[0], t.1, t.2),
        },
        None => e,
    }
}

/// The events `evs` after the link pass, where `tags[k]` holds the tags of
/// the note that the `k`-th link to another note points to.
pub open spec fn relinked(evs: Seq<MdEventView>, basedir: Seq<char>, tags: Seq<Seq<Seq<char>>>) -> Seq<
    MdEventView,
>
    decreases evs.len(),
{
    if evs.len() == 0 {
        Seq::empty()
    } else {
        let init = relinked(evs.drop_last(), basedir, tags);
        let k = link_targets(evs.drop_last(), basedir).len();
        init.push(relink_event(evs.last(), basedir, tags[k as int]))
    }
}

/// The tags of each note, as character sequences.
pub open spec fn tag_lists_view(tags: Seq<Vec<String>>) -> Seq<Seq<Seq<char>>> {
    tags.map_values(|v: Vec<String>| views_of(v@))
}

/// A longer run of events has at least the links of a shorter one.
proof fn lemma_link_targets_grow(evs: Seq<MdEventView>, basedir: Seq<char>, i: int, j: int)
    requires
        0 <= i <= j <= evs.len(),
    ensures
        link_targets(evs.take(i), basedir).len() <= link_targets(evs.take(j), basedir).len(),
    decreases j - i,
{
    if i < j {
        lemma_link_targets_grow(evs, basedir, i, j - 1);
        assert(evs.take(j).drop_last() =~= evs.take(j - 1));
    }
}

/// The targets of the inline links of the markdown `text` to other notes
/// of the directory `basedir`, in order.
pub fn md_ref_targets(text: &str, basedir: &str) -> (r: Vec<MdRef>)
    ensures
        r@.map_values(|t: MdRef| t@) == link_targets(spec_md_events(text@), basedir@),
{
    let evs = md_events(text);
    proof {
        lemma_events_view_index(evs@);
    }
    let ghost ev = events_view(evs@);
    let mut out: Vec<MdRef> = Vec::new();
    let mut i: usize = 0;
    assert(ev.take(0) =~= Seq::<MdEventView>::empty());
    while i < evs.len()
        invariant
            i <= evs@.len() == ev.len(),
            ev == events_view(evs@),
            forall|j: int| 0 <= j < evs@.len() ==> #[trigger] ev[j] == evs@[j]@,
            out@.map_values(|t: MdRef| t@) == link_targets(ev.take(i as int), basedir@),
        decreases evs@.len() - i,
    {
        assert(ev.take(i + 1).drop_last() =~= ev.take(i as int));
        assert(ev.take(i + 1).last() == evs@[i as int]@);
        let ghost before = out@;
        match &evs[i] {
            MdEvent::LinkEnd { inline, url } => {
                if *inline {
                    match md_ref_target(url.as_str(), basedir) {
                        Some(t) => {
                            out.push(t);
                            assert(out@.map_values(|t: MdRef| t@) =~= before.map_values(
                                |t: MdRef| t@,
                            ).push(out@.last()@));
                        },
                        None => {},
                    }
                }
            },
            _ => {},
        }
        i = i + 1;
    }
    assert(ev.take(evs@.len() as int) =~= ev);
    out
}

/// The markdown `text` of a note of the directory `basedir` after the link
/// pass: each inline link to another note gets the blog URL of that note,
/// where `tags[k]` holds the tags of the note that the `k`-th such link
/// points to.  `None` when `tags` does not hold one entry for each link.
pub fn map_md_refs(text: &str, basedir: &str, tags: &Vec<Vec<String>>) -> (r: Option<String>)
    ensures
        r is Some <==> tags@.len() == link_targets(spec_md_events(text@), basedir@).len(),
        r matches Some(t) ==> t@ == spec_write_md(
            text@,
            relinked(spec_md_events(text@), basedir@, tag_lists_view(tags@)),
        ),
{
    let evs = md_events(text);
    proof {
        lemma_events_view_index(evs@);
    }
    let ghost ev = events_view(evs@);
    let ghost tv = tag_lists_view(tags@);
    let mut out: Vec<MdEvent> = Vec::new();
    let mut k: usize = 0;
    let mut i: usize = 0;
    assert(ev.take(0) =~= Seq::<MdEventView>::empty());
    while i < evs.len()
        invariant
            i <= evs@.len() == ev.len(),
            ev == events_view(evs@),
            ev == spec_md_events(text@),
            tv == tag_lists_view(tags@),
            forall|j: int| 0 <= j < evs@.len() ==> #[trigger] ev[j] == evs@[j]@,
            k == link_targets(ev.take(i as int), basedir@).len(),
            k <= tags@.len(),
            events_view(out@) == relinked(ev.take(i as int), basedir@, tv),
        decreases evs@.len() - i,
    {
        assert(ev.take(i + 1).drop_last() =~= ev.take(i as int));
        assert(ev.take(i + 1).last() == evs@[i as int]@);
        proof {
            lemma_events_view_index(out@);
        }
        let ghost before = out@;
        let e = match &evs[i] {
            MdEvent::LinkEnd { inline, url } => {
                if *inline {
                    match md_ref_target(url.as_str(), basedir) {
                        Some(t) => {
                            if k >= tags.len() {
                                proof {
                                    assert(event_target(ev[i as int], basedir@) == Some(t@));
                                    assert(link_targets(ev.take(i + 1), basedir@).len() == k + 1);
                                    lemma_link_targets_grow(ev, basedir@, i + 1, ev.len() as int);
                                    assert(ev.take(ev.len() as int) =~= ev);
                                }
                                return None;
                            }
                            let u = ref_link_url(&t, tags[k].as_slice());
                            k = k + 1;
                            MdEvent::LinkEnd { inline: true, url: u }
                        },
                        None => copy_event(&evs[i]),
                    }
                } else {
                    copy_event(&evs[i])
                }
            },
            other => copy_event(other),
        };
        out.push(e);
        proof {
            lemma_events_view_index(out@);
            assert(events_view(out@) =~= events_view(before).push(out@.last()@));
        }
        i = i + 1;
    }
    assert(ev.take(evs@.len() as int) =~= ev);
    if k != tags.len() {
        return None;
    }
    Some(write_md(text, out))
}

/// The link pass rewrites exactly the ends of inline links to other notes:
/// such a link gets the URL `{{site.url}}/<cat>/<stem>.html<anchor>`, where
/// `<cat>` is the first category of the tags of the note that it points
/// to; every other event is kept.
pub proof fn law_relinked_url(e: MdEventView, basedir: Seq<char>, tags: Seq<Seq<char>>)
    ensures
        event_target(e, basedir) matches Some(t) ==> relink_event(e, basedir, tags) == (
        MdEventView::LinkEnd {
            inline: true,
            url: "{{site.url}}/"@ + cat_name(cats_of_tags(tags)[0]) + "/"@ + t.1 + ".html"@ + t.2,
        }),
        event_target(e, basedir) is None ==> relink_event(e, basedir, tags) == e,
{
}

/// A link to a note that has a post leads to that post: the category in
/// the link's URL is the one written in the front matter of the post.
pub proof fn law_link_leads_to_post(e: MdEventView, basedir: Seq<char>, target: Markdown)
    requires
        can_render(target),
    ensures
        event_target(e, basedir) matches Some(t) ==> exists|c: Cat|
            post_entries_of(target)[4] == ("category"@, YamlModel::StrSeq(seq![cat_name(c)]))
                && relink_event(e, basedir, views_of(target.front_matter.unwrap().tags@)) == (
            MdEventView::LinkEnd { inline: true, url: md_ref_url_of(c, t.1, t.2) }),
{
    let c = cats_of_tags(views_of(target.front_matter.unwrap().tags@))[0];
    assert(post_entries_of(target)[4] == ("category"@, YamlModel::StrSeq(seq![cat_name(c)])));
    if let Some(t) = event_target(e, basedir) {
        assert(relink_event(e, basedir, views_of(target.front_matter.unwrap().tags@)) == (
        MdEventView::LinkEnd { inline: true, url: md_ref_url_of(c, t.1, t.2) }));
    }
}

} // verus!
