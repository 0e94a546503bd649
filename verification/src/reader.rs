//! A markdown note: its text, and the YAML front matter that opens it
//! between two `---` lines.

use vstd::prelude::*;

use core::ops::Range;

use crate::aux::RelaDateTime;
use crate::text::{
    byte_len, byte_offset, char_width_exec, chars_of, lemma_byte_len_encode, lemma_byte_len_take,
    lemma_byte_len_take_mono, string_of,
};

verus! {

/// The fields of a note's front matter.
#[derive(Debug)]
pub struct FrontMatter {
    pub title: Option<String>,
    pub date: Option<RelaDateTime>,
    pub tags: Vec<String>,
}

/// A note read from a file: its front matter (when it has one), the stem
/// of its file name, its raw text, and the byte offset where the text
/// after the front matter starts.
#[derive(Debug)]
pub struct Markdown {
    pub front_matter: Option<FrontMatter>,
    pub name_stem: String,
    pub raw: String,
    pub text_start: usize,
}

/// Whether `---` occurs in `s` at index `i`.
pub open spec fn dashes_at(s: Seq<char>, i: int) -> bool {
    0 <= i && i + 3 <= s.len() && s[i] == '-' && s[i + 1] == '-' && s[i + 2] == '-'
}

/// Whether a `---` at index `i` of `s` is followed, further on, by another
/// one: it can open a front matter.
pub open spec fn is_opener(s: Seq<char>, i: int) -> bool {
    dashes_at(s, i) && exists|j: int| i + 3 <= j && #[trigger] dashes_at(s, j)
}

/// Whether `s[a..b]` holds no line break.
pub open spec fn no_newline(s: Seq<char>, a: int, b: int) -> bool {
    forall|t: int| a <= t < b ==> #[trigger] s[t] != '\n'
}

/// Whether the front matter at the head of `s` is opened by the `---` at
/// `k` and closed by the `---` at `e`: the match of `.*---(?s)(.*?)---`
/// from the start of `s`, whose first `.*` stays on the first line.  The
/// opening `---` is the last one on the first line that can open a front
/// matter (greedy `.*`), and the closing `---` is the first one after it
/// (lazy `.*?`).
pub open spec fn front_matter_at(s: Seq<char>, k: int, e: int) -> bool {
    &&& is_opener(s, k)
    &&& no_newline(s, 0, k)
    &&& forall|j: int| k < j && #[trigger] is_opener(s, j) ==> !no_newline(s, 0, j)
    &&& k + 3 <= e
    &&& dashes_at(s, e)
    &&& forall|t: int| k + 3 <= t < e ==> !#[trigger] dashes_at(s, t)
}

/// Whether `s` has a front matter: a `---` on its first line is followed,
/// further on, by another one.
pub open spec fn has_front_matter(s: Seq<char>) -> bool {
    exists|k: int| #[trigger] is_opener(s, k) && no_newline(s, 0, k)
}

/// The index of the character after the `---` that closes the front
/// matter of `s`, or 0 when it has none.
pub open spec fn text_char_start(s: Seq<char>) -> int {
    if exists|k: int, e: int| front_matter_at(s, k, e) {
        let (k, e) = choose|k: int, e: int| front_matter_at(s, k, e);
        e + 3
    } else {
        0
    }
}

/// The byte offset where the text after the front matter of `s` starts.
pub open spec fn text_start_of(s: Seq<char>) -> int {
    byte_len(s.take(text_char_start(s))) as int
}

/// Whether `---` occurs in `v` at `i`.
fn dashes_at_exec(v: &Vec<char>, i: usize) -> (r: bool)
    requires
        i <= v@.len(),
    ensures
        r == dashes_at(v@, i as int),
{
    v.len() - i >= 3 && v[i] == '-' && v[i + 1] == '-' && v[i + 2] == '-'
}

/// Three more `-` add three bytes to the byte offset.
proof fn lemma_dashes_bytes(s: Seq<char>, i: int)
    requires
        dashes_at(s, i),
    ensures
        byte_len(s.take(i + 3)) == byte_len(s.take(i)) + 3,
{
    lemma_byte_len_take(s, i);
    lemma_byte_len_take(s, i + 1);
    lemma_byte_len_take(s, i + 2);
}

/// The index of the first `---` of `v` from `from` on.
fn first_dashes_from(v: &Vec<char>, from: usize) -> (r: Option<usize>)
    requires
        from <= v@.len(),
    ensures
        r matches Some(e) ==> from <= e && dashes_at(v@, e as int) && forall|t: int|
            from <= t < e ==> !#[trigger] dashes_at(v@, t),
        r is None ==> forall|t: int| from <= t ==> !#[trigger] dashes_at(v@, t),
{
    let n = v.len();
    let mut e: usize = from;
    while e < n
        invariant
            from <= e <= n == v@.len(),
            forall|t: int| from <= t < e ==> !#[trigger] dashes_at(v@, t),
        decreases n - e,
    {
        if dashes_at_exec(v, e) {
            return Some(e);
        }
        e = e + 1;
    }
    None
}

/// The index of the last `---` of `v`.
fn last_dashes(v: &Vec<char>) -> (r: Option<usize>)
    ensures
        r matches Some(l) ==> dashes_at(v@, l as int) && forall|t: int|
            l < t ==> !#[trigger] dashes_at(v@, t),
        r is None ==> forall|t: int| !#[trigger] dashes_at(v@, t),
{
    let mut j: usize = v.len();
    while j > 0
        invariant
            j <= v@.len(),
            forall|t: int| j <= t ==> !#[trigger] dashes_at(v@, t),
        decreases j,
    {
        if dashes_at_exec(v, j - 1) {
            return Some(j - 1);
        }
        j = j - 1;
    }
    None
}

/// The indices of the `---` that open and close the front matter of `v`.
fn locate_front_matter(v: &Vec<char>) -> (r: Option<(usize, usize)>)
    ensures
        r is Some <==> has_front_matter(v@),
        r matches Some((k, e)) ==> front_matter_at(v@, k as int, e as int),
{
    let n = v.len();
    let l = match last_dashes(v) {
        Some(l) => l,
        None => {
            assert forall|k: int| #[trigger] is_opener(v@, k) implies !no_newline(v@, 0, k) by {}
            return None;
        },
    };
    assert forall|t: int| #[trigger] is_opener(v@, t) <==> dashes_at(v@, t) && t + 3 <= l by {
        if dashes_at(v@, t) && t + 3 <= l {
            assert(dashes_at(v@, l as int));
        }
    }
    // the last `---` of the first line that can open a front matter
    let mut k: Option<usize> = None;
    let mut i: usize = 0;
    while i < n && v[i] != '\n'
        invariant
            i <= n == v@.len(),
            no_newline(v@, 0, i as int),
            forall|t: int| #[trigger] is_opener(v@, t) <==> dashes_at(v@, t) && t + 3 <= l,
            k matches Some(kk) ==> kk < i && is_opener(v@, kk as int) && forall|j: int|
                kk < j < i ==> !#[trigger] is_opener(v@, j),
            k is None ==> forall|j: int| 0 <= j < i ==> !#[trigger] is_opener(v@, j),
        decreases n - i,
    {
        if dashes_at_exec(v, i) && i + 3 <= l {
            k = Some(i);
        }
        i = i + 1;
    }
    // an opener on the first line lies before `i`
    assert forall|j: int| #[trigger] is_opener(v@, j) && no_newline(v@, 0, j) implies j < i by {
        if j >= i {
            assert(i < n);
            assert(v@[i as int] == '\n');
            if i < j {
                assert(v@[i as int] != '\n');
            }
        }
    }
    match k {
        None => {
            assert forall|j: int| #[trigger] is_opener(v@, j) implies !no_newline(v@, 0, j) by {
                if no_newline(v@, 0, j) {
                    assert(j < i);
                }
            }
            None
        },
        Some(k) => {
            assert(no_newline(v@, 0, k as int));
            assert forall|j: int| k < j && #[trigger] is_opener(v@, j) implies !no_newline(
                v@,
                0,
                j,
            ) by {
                if no_newline(v@, 0, j) {
                    assert(j < i);
                }
            }
            match first_dashes_from(v, k + 3) {
                Some(e) => Some((k, e)),
                None => {
                    assert(!dashes_at(v@, l as int));
                    None
                },
            }
        },
    }
}

impl Markdown {
    /// The byte range of the front matter of `text`, the `---`-quoted area
    /// at its head: the YAML text from after the last `---` of the first
    /// line that is followed by another one, up to the first `---` after it.
    pub fn fetch_front_matter(text: &str) -> (r: Option<Range<usize>>)
        ensures
            r is Some <==> has_front_matter(text@),
            r matches Some(rg) ==> exists|k: int, e: int|
                front_matter_at(text@, k, e) && rg.start == byte_len(text@.take(k + 3))
                    && rg.end == byte_len(text@.take(e)),
            r matches Some(rg) ==> rg.end + 3 <= byte_len(text@),
            byte_len(text@) <= usize::MAX,
    {
        proof {
            lemma_byte_len_encode(text@);
        }
        let len_bytes = text.as_bytes().len();
        assert(len_bytes == byte_len(text@));
        let v = chars_of(text);
        match locate_front_matter(&v) {
            Some((k, e)) => {
                let start = byte_offset(text, &v, k + 3);
                let end = byte_offset(text, &v, e);
                proof {
                    lemma_dashes_bytes(text@, e as int);
                    lemma_byte_len_take_mono(text@, e + 3, e + 3);
                }
                Some(Range { start, end })
            },
            None => None,
        }
    }

    /// The YAML text of the front matter of `raw`, when it has one.
    pub fn front_matter_text(raw: &str) -> (r: Option<String>)
        ensures
            r is Some <==> has_front_matter(raw@),
            r matches Some(y) ==> exists|k: int, e: int|
                front_matter_at(raw@, k, e) && y@ == raw@.subrange(k + 3, e),
    {
        let v = chars_of(raw);
        match locate_front_matter(&v) {
            Some((k, e)) => Some(string_of(&v, k + 3, e)),
            None => None,
        }
    }

    /// Puts a note together from the stem of its file name, its raw text and
    /// its front matter as read from the YAML text of `raw` (dropped when
    /// `raw` has no front matter).  The text after the front matter starts
    /// right after the `---` that closes it, or at the start when there is
    /// no front matter.
    pub fn from_parts(name_stem: String, raw: String, front_matter: Option<FrontMatter>) -> (r:
        Markdown)
        ensures
            r.name_stem == name_stem,
            r.raw == raw,
            r.front_matter == if has_front_matter(raw@) {
                front_matter
            } else {
                None
            },
            r.wf(),
            r.text_start == text_start_of(raw@),
            r.text_start <= byte_len(raw@),
            r.front_matter is Some ==> 3 <= text_char_start(raw@) && dashes_at(
                raw@,
                text_char_start(raw@) - 3,
            ),
    {
        let found = Self::fetch_front_matter(raw.as_str());
        let (text_start, front_matter) = match found {
            Some(rg) => (rg.end + 3, front_matter),
            None => (0, None),
        };
        proof {
            if exists|k: int, e: int| front_matter_at(raw@, k, e) {
                let (k, e) = choose|k: int, e: int| front_matter_at(raw@, k, e);
                law_front_matter_unique(raw@, k, e);
                lemma_dashes_bytes(raw@, e);
                lemma_byte_len_take_mono(raw@, e + 3, e + 3);
                assert(text_char_start(raw@) == e + 3);
                assert(has_front_matter(raw@));
            } else {
                assert(raw@.take(0) =~= Seq::<char>::empty());
                if has_front_matter(raw@) {
                    assert(found is Some);
                }
                lemma_byte_len_take_mono(raw@, 0, 0);
            }
        }
        let ghost c = text_char_start(raw@);
        let r = Markdown { front_matter, name_stem, raw, text_start };
        assert(0 <= c <= r.raw@.len() && byte_len(r.raw@.take(c)) == r.text_start);
        r
    }

    /// The byte offset where the text after the front matter starts is
    /// that of a character of the raw text, or its end.
    pub open spec fn wf(&self) -> bool {
        exists|c: int| 0 <= c <= self.raw@.len() && byte_len(self.raw@.take(c)) == self.text_start
    }

    /// The text of the note after its front matter.
    pub fn body(&self) -> (r: String)
        requires
            self.wf(),
        ensures
            forall|c: int|
                0 <= c <= self.raw@.len() && byte_len(self.raw@.take(c)) == self.text_start
                    ==> r@ == self.raw@.subrange(c, self.raw@.len() as int),
    {
        let v = chars_of(self.raw.as_str());
        let ghost s = self.raw@;
        let ghost c = choose|c: int| 0 <= c <= s.len() && byte_len(s.take(c)) == self.text_start;
        let n = v.len();
        let mut acc: usize = 0;
        let mut j: usize = 0;
        assert(s.take(0) =~= Seq::<char>::empty());
        while acc < self.text_start
            invariant
                v@ == s,
                n == s.len(),
                0 <= c <= s.len(),
                byte_len(s.take(c)) == self.text_start,
                j <= c,
                acc == byte_len(s.take(j as int)),
            decreases c - j,
        {
            proof {
                if j == c {
                    assert(false);
                }
                lemma_byte_len_take(s, j as int);
                lemma_byte_len_take_mono(s, j + 1, c);
            }
            acc = acc + char_width_exec(v[j]);
            j = j + 1;
        }
        proof {
            if j < c {
                lemma_byte_len_take_mono(s, j + 1, c);
                lemma_byte_len_take(s, j as int);
            }
            assert forall|c2: int|
                0 <= c2 <= s.len() && byte_len(s.take(c2)) == self.text_start implies c2 == j by {
                if c2 < j {
                    lemma_byte_len_take_mono(s, c2 + 1, j as int);
                    lemma_byte_len_take(s, c2);
                } else if j < c2 {
                    lemma_byte_len_take_mono(s, j + 1, c2);
                    lemma_byte_len_take(s, j as int);
                }
            }
        }
        string_of(&v, j, n)
    }
}

/// A text has at most one front matter: its opening and closing `---` are
/// determined by the text.
pub proof fn law_front_matter_unique(s: Seq<char>, k: int, e: int)
    requires
        front_matter_at(s, k, e),
    ensures
        forall|k2: int, e2: int| #[trigger] front_matter_at(s, k2, e2) ==> k2 == k && e2 == e,
{
    assert forall|k2: int, e2: int| #[trigger] front_matter_at(s, k2, e2) implies k2 == k && e2
        == e by {
        if k2 < k {
            assert(!no_newline(s, 0, k));
        } else if k < k2 {
            assert(!no_newline(s, 0, k2));
        }
        if e2 < e {
            assert(!dashes_at(s, e2));
        } else if e < e2 {
            assert(!dashes_at(s, e));
        }
    }
}

/// A note that opens with a `---` line, then a YAML text without `-`, then
/// `---`, has that YAML text as its front matter, and its text starts
/// right after the closing `---`, whatever follows.
pub proof fn law_front_matter_of_note(yaml: Seq<char>, rest: Seq<char>)
    requires
        yaml.len() > 0,
        yaml[0] == '\n',
        forall|i: int| 0 <= i < yaml.len() ==> #[trigger] yaml[i] != '-',
    ensures
        front_matter_at("---"@ + yaml + "---"@ + rest, 0, 3 + yaml.len() as int),
        ("---"@ + yaml + "---"@ + rest).subrange(3, 3 + yaml.len() as int) == yaml,
        text_char_start("---"@ + yaml + "---"@ + rest) == 6 + yaml.len(),
{
    reveal_strlit("---");
    let fence = seq!['-', '-', '-'];
    assert("---"@ =~= fence);
    let s = fence + yaml + fence + rest;
    let e: int = 3 + yaml.len() as int;
    assert("---"@ + yaml + "---"@ + rest =~= s);
    assert forall|i: int| 0 <= i < yaml.len() implies s[3 + i] == yaml[i] by {}
    assert(s[3] == '\n');
    assert(dashes_at(s, 0));
    assert(dashes_at(s, e));
    assert(is_opener(s, 0));
    assert forall|j: int| 0 < j && #[trigger] is_opener(s, j) implies !no_newline(s, 0, j) by {
        if j < 3 {
            assert(s[3] != '-');
        } else {
            assert(s[3] == '\n');
        }
    }
    assert forall|t: int| 3 <= t < e implies !#[trigger] dashes_at(s, t) by {
        assert(s[t] == yaml[t - 3]);
    }
    assert(front_matter_at(s, 0, e));
    law_front_matter_unique(s, 0, e);
    assert(s.subrange(3, e) =~= yaml);
}

} // verus!
