//! From a note to a blog post: categories of tags, image and note links,
//! the HTML of images, and the post's file name and front matter.

use vstd::prelude::*;

use indexmap::IndexSet;

use crate::aux::{
    all_ascii_digits, date_of_match, date_pattern_at, date_text_ok, decimal_value,
    first_date_from, law_dot_file_plain_name, match_is_ascii, RelaDateTime,
};
use crate::paths::{
    file_stem_of, first_segment_len, join_of, last_dot, path_extension, path_extension_of,
    path_file_stem,
    path_join, after_first_segment, skip_back, skip_front, starts_with_parent_then, strip_parent,
    strip_parent_then,
};
use crate::reader::Markdown;
use crate::text::{
    ascii_lower, char_is_white_space, chars_of, digit_value, is_ascii_digit, is_ascii_text,
    is_white_space, lemma_trim_ascii, push_char, spec_to_lowercase, str_eq, string_of,
    to_lowercase, trim, trim_str,
};

verus! {

/// The category of a post.
#[derive(Debug, Clone, Copy, PartialEq, Eq, Structural, PartialOrd)]
pub enum Cat {
    Algs,
    Lang,
    OS,
    Net,
    Oth,
}

impl Default for Cat {
    fn default() -> (r: Cat)
        ensures
            r == Cat::Oth,
    {
        Cat::Oth
    }
}

/// The name of a category, as the blog's URLs and front matters write it:
/// the variant's name in lowercase.
pub open spec fn cat_name(c: Cat) -> Seq<char> {
    match c {
        Cat::Algs => "algs"@,
        Cat::Lang => "lang"@,
        Cat::OS => "os"@,
        Cat::Net => "net"@,
        Cat::Oth => "oth"@,
    }
}

/// The number that stands for a category in a set of categories.
pub open spec fn cat_code(c: Cat) -> u8 {
    match c {
        Cat::Algs => 0,
        Cat::Lang => 1,
        Cat::OS => 2,
        Cat::Net => 3,
        Cat::Oth => 4,
    }
}

impl Cat {
    /// The name of the category, as its `Display` writes it.
    pub fn to_string(&self) -> (r: String)
        ensures
            r@ == cat_name(*self),
    {
        match self {
            Cat::Algs => String::from_str("algs"),
            Cat::Lang => String::from_str("lang"),
            Cat::OS => String::from_str("os"),
            Cat::Net => String::from_str("net"),
            Cat::Oth => String::from_str("oth"),
        }
    }

    fn code(&self) -> (r: u8)
        ensures
            r == cat_code(*self),
    {
        match self {
            Cat::Algs => 0,
            Cat::Lang => 1,
            Cat::OS => 2,
            Cat::Net => 3,
            Cat::Oth => 4,
        }
    }

    fn from_code(k: u8) -> (r: Cat)
        requires
            k <= 4,
        ensures
            cat_code(r) == k,
    {
        if k == 0 {
            Cat::Algs
        } else if k == 1 {
            Cat::Lang
        } else if k == 2 {
            Cat::OS
        } else if k == 3 {
            Cat::Net
        } else {
            Cat::Oth
        }
    }
}

/// The category of a tag, already trimmed and in lowercase, by the blog's
/// table of tags.
pub open spec fn tag_category(t: Seq<char>) -> Option<Cat> {
    if t == "string"@ || t == "string pattern match"@ || t == "algorithm"@ || t == "graph"@ {
        Some(Cat::Algs)
    } else     if t == "lang"@ || t == "language"@ || t == "c"@ || t == "common lisp"@ || t == "php"@ || t == "haskell"@ || t == "hy"@ || t == "python"@ || t == "compiler"@ || t == "llvm"@ || t == "rust"@ {
        Some(Cat::Lang)
    } else     if t == "linux"@ || t == "kernel"@ || t == "fs"@ || t == "shell"@ || t == "bash"@ || t == "sudo"@ {
        Some(Cat::OS)
    } else     if t == "ietf rfcs"@ || t == "ietf"@ {
        Some(Cat::Net)
    } else {
        None
    }
}

/// Looks a trimmed, lowercase tag up in the table of tags.
pub fn tag_to_cat(tag: &str) -> (r: Option<Cat>)
    ensures
        r == tag_category(tag@),
{
    if str_eq(tag, "string") {
        return Some(Cat::Algs);
    }
    if str_eq(tag, "string pattern match") {
        return Some(Cat::Algs);
    }
    if str_eq(tag, "algorithm") {
        return Some(Cat::Algs);
    }
    if str_eq(tag, "graph") {
        return Some(Cat::Algs);
    }
    if str_eq(tag, "lang") {
        return Some(Cat::Lang);
    }
    if str_eq(tag, "language") {
        return Some(Cat::Lang);
    }
    if str_eq(tag, "c") {
        return Some(Cat::Lang);
    }
    if str_eq(tag, "common lisp") {
        return Some(Cat::Lang);
    }
    if str_eq(tag, "php") {
        return Some(Cat::Lang);
    }
    if str_eq(tag, "haskell") {
        return Some(Cat::Lang);
    }
    if str_eq(tag, "hy") {
        return Some(Cat::Lang);
    }
    if str_eq(tag, "python") {
        return Some(Cat::Lang);
    }
    if str_eq(tag, "compiler") {
        return Some(Cat::Lang);
    }
    if str_eq(tag, "llvm") {
        return Some(Cat::Lang);
    }
    if str_eq(tag, "rust") {
        return Some(Cat::Lang);
    }
    if str_eq(tag, "linux") {
        return Some(Cat::OS);
    }
    if str_eq(tag, "kernel") {
        return Some(Cat::OS);
    }
    if str_eq(tag, "fs") {
        return Some(Cat::OS);
    }
    if str_eq(tag, "shell") {
        return Some(Cat::OS);
    }
    if str_eq(tag, "bash") {
        return Some(Cat::OS);
    }
    if str_eq(tag, "sudo") {
        return Some(Cat::OS);
    }
    if str_eq(tag, "ietf rfcs") {
        return Some(Cat::Net);
    }
    if str_eq(tag, "ietf") {
        return Some(Cat::Net);
    }
    None
}

/// How a tag is looked up: trimmed, then in lowercase.
pub open spec fn tag_key(t: Seq<char>) -> Seq<char> {
    spec_to_lowercase(trim(t))
}

/// The categories of the tags `keys` (already trimmed and in lowercase),
/// each once, in the order of their first tag.
pub open spec fn collect_cats(keys: Seq<Seq<char>>) -> Seq<Cat>
    decreases keys.len(),
{
    if keys.len() == 0 {
        Seq::empty()
    } else {
        let prev = collect_cats(keys.drop_last());
        match tag_category(keys.last()) {
            Some(c) => if prev.contains(c) {
                prev
            } else {
                prev.push(c)
            },
            None => prev,
        }
    }
}

/// The categories of a post with the tags `tags`: those of its tags, each
/// once, in the order of their first tag, or `Oth` alone when no tag has
/// one.
pub open spec fn cats_of_tags(tags: Seq<Seq<char>>) -> Seq<Cat> {
    let cats = collect_cats(tags.map_values(|t: Seq<char>| tag_key(t)));
    if cats.len() == 0 {
        seq![Cat::Oth]
    } else {
        cats
    }
}

/// The categories collected from the keys `keys`: none twice, never `Oth`,
/// each that of some key, and the category of every key among them.
proof fn lemma_collect_cats(keys: Seq<Seq<char>>)
    ensures
        forall|i: int, j: int|
            0 <= i < j < collect_cats(keys).len() ==> collect_cats(keys)[i] != collect_cats(
                keys,
            )[j],
        !collect_cats(keys).contains(Cat::Oth),
        forall|i: int|
            #![trigger collect_cats(keys)[i]]
            0 <= i < collect_cats(keys).len() ==> exists|k: int|
                0 <= k < keys.len() && #[trigger] tag_category(keys[k]) == Some(
                    collect_cats(keys)[i],
                ),
        forall|k: int|
            0 <= k < keys.len() ==> (#[trigger] tag_category(keys[k]) matches Some(c)
                ==> collect_cats(keys).contains(c)),
    decreases keys.len(),
{
    if keys.len() > 0 {
        let rest = keys.drop_last();
        lemma_collect_cats(rest);
        let prev = collect_cats(rest);
        let cats = collect_cats(keys);
        assert forall|i: int| #![trigger cats[i]] 0 <= i < cats.len() implies exists|k: int|
            0 <= k < keys.len() && #[trigger] tag_category(keys[k]) == Some(cats[i]) by {
            if i < prev.len() {
                assert(cats[i] == prev[i]);
                let k = choose|k: int| 0 <= k < rest.len() && #[trigger] tag_category(rest[k]) == Some(prev[i]);
                assert(keys[k] == rest[k]);
            } else {
                assert(tag_category(keys[keys.len() - 1]) == Some(cats[i]));
            }
        }
        assert forall|k: int| 0 <= k < keys.len() implies (#[trigger] tag_category(keys[k]) matches Some(c)
            ==> cats.contains(c)) by {
            if k < rest.len() {
                assert(keys[k] == rest[k]);
                if let Some(c) = tag_category(keys[k]) {
                    assert(prev.contains(c));
                    let j = choose|j: int| 0 <= j < prev.len() && prev[j] == c;
                    assert(cats[j] == c);
                }
            } else {
                if let Some(c) = tag_category(keys[k]) {
                    if !prev.contains(c) {
                        assert(cats[prev.len() as int] == c);
                    }
                }
            }
        }
    }
}

/// The categories of a post: at least one and none twice; `Oth` comes
/// alone, exactly when no tag has a category; every other one is the
/// category of one of its tags, and every tag's category is among them.
pub proof fn law_cats_of_tags(tags: Seq<Seq<char>>)
    ensures
        cats_of_tags(tags).len() >= 1,
        forall|i: int, j: int|
            0 <= i < j < cats_of_tags(tags).len() ==> cats_of_tags(tags)[i] != cats_of_tags(
                tags,
            )[j],
        cats_of_tags(tags).contains(Cat::Oth) <==> cats_of_tags(tags) == seq![Cat::Oth],
        cats_of_tags(tags) == seq![Cat::Oth] <==> forall|k: int|
            0 <= k < tags.len() ==> #[trigger] tag_category(tag_key(tags[k])) is None,
        forall|i: int|
            #![trigger cats_of_tags(tags)[i]]
            0 <= i < cats_of_tags(tags).len() && cats_of_tags(tags)[i] != Cat::Oth ==> exists|
                k: int,
            |
                0 <= k < tags.len() && #[trigger] tag_category(tag_key(tags[k])) == Some(
                    cats_of_tags(tags)[i],
                ),
        forall|k: int|
            0 <= k < tags.len() ==> (#[trigger] tag_category(tag_key(tags[k])) matches Some(c)
                ==> cats_of_tags(tags).contains(c)),
{
    let keys = tags.map_values(|t: Seq<char>| tag_key(t));
    lemma_collect_cats(keys);
    let cats = collect_cats(keys);
    assert forall|k: int| 0 <= k < tags.len() implies #[trigger] tag_key(tags[k]) == keys[k] by {}
    if cats.len() == 0 {
        assert(cats_of_tags(tags) == seq![Cat::Oth]);
        assert forall|k: int| 0 <= k < tags.len() implies #[trigger] tag_category(
            tag_key(tags[k]),
        ) is None by {
            assert(tag_key(tags[k]) == keys[k]);
        }
        assert(seq![Cat::Oth][0] == Cat::Oth);
    } else {
        assert(cats_of_tags(tags) == cats);
        assert(cats[0] != Cat::Oth);
        assert(cats != seq![Cat::Oth]) by {
            assert(seq![Cat::Oth][0] == Cat::Oth);
        }
        let c0 = cats[0];
        let k0 = choose|k: int| 0 <= k < keys.len() && #[trigger] tag_category(keys[k]) == Some(c0);
        assert(tag_key(tags[k0]) == keys[k0]);
        assert forall|i: int| #![trigger cats[i]] 0 <= i < cats.len() && cats[i] != Cat::Oth implies exists|k: int|
            0 <= k < tags.len() && #[trigger] tag_category(tag_key(tags[k])) == Some(cats[i]) by {
            let k = choose|k: int| 0 <= k < keys.len() && #[trigger] tag_category(keys[k]) == Some(cats[i]);
            assert(tag_key(tags[k]) == keys[k]);
        }
    }
    assert forall|k: int| 0 <= k < tags.len() implies (#[trigger] tag_category(tag_key(tags[k])) matches Some(c)
        ==> cats_of_tags(tags).contains(c)) by {
        assert(tag_key(tags[k]) == keys[k]);
    }
}

/// The first category collected is that of the first key that has one.
proof fn lemma_collect_first(keys: Seq<Seq<char>>, k: int)
    requires
        0 <= k < keys.len(),
        tag_category(keys[k]) is Some,
        forall|m: int| 0 <= m < k ==> #[trigger] tag_category(keys[m]) is None,
    ensures
        collect_cats(keys).len() > 0,
        collect_cats(keys)[0] == tag_category(keys[k])->0,
    decreases keys.len(),
{
    let rest = keys.drop_last();
    let prev = collect_cats(rest);
    if k < keys.len() - 1 {
        assert forall|m: int| 0 <= m < k implies #[trigger] tag_category(rest[m]) is None by {
            assert(rest[m] == keys[m]);
        }
        assert(rest[k] == keys[k]);
        lemma_collect_first(rest, k);
    } else {
        lemma_collect_cats(rest);
        if prev.len() > 0 {
            let c = prev[0];
            let m = choose|m: int| 0 <= m < rest.len() && #[trigger] tag_category(rest[m]) == Some(c);
            assert(rest[m] == keys[m]);
        }
    }
}

/// Categories come in the order of their first tags: when the key at `k`
/// has the category at `j`, a key before it has the category at `i < j`.
proof fn lemma_collect_order(keys: Seq<Seq<char>>, i: int, j: int, k: int)
    requires
        0 <= i < j < collect_cats(keys).len(),
        0 <= k < keys.len(),
        tag_category(keys[k]) == Some(collect_cats(keys)[j]),
    ensures
        exists|m: int| 0 <= m < k && #[trigger] tag_category(keys[m]) == Some(collect_cats(keys)[i]),
    decreases keys.len(),
{
    let rest = keys.drop_last();
    let prev = collect_cats(rest);
    let cats = collect_cats(keys);
    let last = keys.len() - 1;
    lemma_collect_cats(rest);
    assert(cats[i] == prev[i]);
    let m0 = choose|m: int| 0 <= m < rest.len() && #[trigger] tag_category(rest[m]) == Some(prev[i]);
    assert(keys[m0] == rest[m0]);
    if k < last {
        assert(keys[k] == rest[k]);
        if j < prev.len() {
            assert(cats[j] == prev[j]);
            lemma_collect_order(rest, i, j, k);
            let m = choose|m: int| 0 <= m < k && #[trigger] tag_category(rest[m]) == Some(prev[i]);
            assert(keys[m] == rest[m]);
        } else {
            // the category of the last key is new: no earlier key has it
            assert(tag_category(rest[k]) == Some(cats[j]));
            assert(prev.contains(cats[j]));
        }
    }
}

/// The first category of a post is that of its first tag that has one.
pub proof fn law_first_category(tags: Seq<Seq<char>>, k: int)
    requires
        0 <= k < tags.len(),
        tag_category(tag_key(tags[k])) is Some,
        forall|m: int| 0 <= m < k ==> #[trigger] tag_category(tag_key(tags[m])) is None,
    ensures
        cats_of_tags(tags)[0] == tag_category(tag_key(tags[k]))->0,
{
    let keys = tags.map_values(|t: Seq<char>| tag_key(t));
    assert forall|m: int| 0 <= m < k implies #[trigger] tag_category(keys[m]) is None by {
        assert(keys[m] == tag_key(tags[m]));
    }
    lemma_collect_first(keys, k);
}

/// The categories of a post come in the order of their first tags: when
/// the tag at `k` has the category at `j`, a tag before it has the
/// category at `i < j`.
pub proof fn law_cats_in_tag_order(tags: Seq<Seq<char>>, i: int, j: int, k: int)
    requires
        0 <= i < j < cats_of_tags(tags).len(),
        0 <= k < tags.len(),
        tag_category(tag_key(tags[k])) == Some(cats_of_tags(tags)[j]),
    ensures
        exists|m: int|
            0 <= m < k && #[trigger] tag_category(tag_key(tags[m])) == Some(cats_of_tags(tags)[i]),
{
    let keys = tags.map_values(|t: Seq<char>| tag_key(t));
    assert(collect_cats(keys).len() > 1);
    assert(keys[k] == tag_key(tags[k]));
    lemma_collect_order(keys, i, j, k);
    let m = choose|m: int| 0 <= m < k && #[trigger] tag_category(keys[m]) == Some(collect_cats(keys)[i]);
    assert(keys[m] == tag_key(tags[m]));
}

/// The blog's table of tags: each listed tag, trimmed and in lowercase,
/// has its category, and no other tag has one.
pub proof fn law_tag_table(t: Seq<char>)
    ensures
        tag_category("string"@) == Some(Cat::Algs),
        tag_category("string pattern match"@) == Some(Cat::Algs),
        tag_category("algorithm"@) == Some(Cat::Algs),
        tag_category("graph"@) == Some(Cat::Algs),
        tag_category("lang"@) == Some(Cat::Lang),
        tag_category("language"@) == Some(Cat::Lang),
        tag_category("c"@) == Some(Cat::Lang),
        tag_category("common lisp"@) == Some(Cat::Lang),
        tag_category("php"@) == Some(Cat::Lang),
        tag_category("haskell"@) == Some(Cat::Lang),
        tag_category("hy"@) == Some(Cat::Lang),
        tag_category("python"@) == Some(Cat::Lang),
        tag_category("compiler"@) == Some(Cat::Lang),
        tag_category("llvm"@) == Some(Cat::Lang),
        tag_category("rust"@) == Some(Cat::Lang),
        tag_category("linux"@) == Some(Cat::OS),
        tag_category("kernel"@) == Some(Cat::OS),
        tag_category("fs"@) == Some(Cat::OS),
        tag_category("shell"@) == Some(Cat::OS),
        tag_category("bash"@) == Some(Cat::OS),
        tag_category("sudo"@) == Some(Cat::OS),
        tag_category("ietf rfcs"@) == Some(Cat::Net),
        tag_category("ietf"@) == Some(Cat::Net),
        tag_category(t) is Some ==> (t == "string"@ || t == "string pattern match"@ || t == "algorithm"@ || t == "graph"@ || t == "lang"@ || t == "language"@ || t == "c"@ || t == "common lisp"@ || t == "php"@ || t == "haskell"@ || t == "hy"@ || t == "python"@ || t == "compiler"@ || t == "llvm"@ || t == "rust"@ || t == "linux"@ || t == "kernel"@ || t == "fs"@ || t == "shell"@ || t == "bash"@ || t == "sudo"@ || t == "ietf rfcs"@ || t == "ietf"@),
        cat_name(Cat::Algs) == "algs"@,
        cat_name(Cat::Lang) == "lang"@,
        cat_name(Cat::OS) == "os"@,
        cat_name(Cat::Net) == "net"@,
        cat_name(Cat::Oth) == "oth"@,
{
    {
        reveal_strlit("string");
        reveal_strlit("string pattern match");
        reveal_strlit("algorithm");
        reveal_strlit("graph");
        reveal_strlit("lang");
        reveal_strlit("language");
        reveal_strlit("c");
        reveal_strlit("common lisp");
        reveal_strlit("php");
        reveal_strlit("haskell");
        reveal_strlit("hy");
        reveal_strlit("python");
        reveal_strlit("compiler");
        reveal_strlit("llvm");
        reveal_strlit("rust");
        reveal_strlit("linux");
        reveal_strlit("kernel");
        reveal_strlit("fs");
        reveal_strlit("shell");
        reveal_strlit("bash");
        reveal_strlit("sudo");
        reveal_strlit("ietf rfcs");
        reveal_strlit("ietf");
        assert("string"@.len() == 6);
        assert("string pattern match"@.len() == 20);
        assert("algorithm"@.len() == 9);
        assert("graph"@.len() == 5);
        assert("lang"@.len() == 4);
        assert("language"@.len() == 8);
        assert("c"@.len() == 1);
        assert("common lisp"@.len() == 11);
        assert("php"@.len() == 3);
        assert("haskell"@.len() == 7);
        assert("hy"@.len() == 2);
        assert("python"@.len() == 6);
        assert("compiler"@.len() == 8);
        assert("llvm"@.len() == 4);
        assert("rust"@.len() == 4);
        assert("linux"@.len() == 5);
        assert("kernel"@.len() == 6);
        assert("fs"@.len() == 2);
        assert("shell"@.len() == 5);
        assert("bash"@.len() == 4);
        assert("sudo"@.len() == 4);
        assert("ietf rfcs"@.len() == 9);
        assert("ietf"@.len() == 4);
        assert("python"@[0] != "string"@[0]);
        assert("linux"@[0] != "graph"@[0]);
        assert("kernel"@[0] != "string"@[0]);
        assert("kernel"@[0] != "python"@[0]);
        assert("fs"@[0] != "hy"@[0]);
        assert("shell"@[0] != "graph"@[0]);
        assert("bash"@[0] != "lang"@[0]);
        assert("bash"@[0] != "llvm"@[0]);
        assert("bash"@[0] != "rust"@[0]);
        assert("sudo"@[0] != "lang"@[0]);
        assert("sudo"@[0] != "llvm"@[0]);
        assert("sudo"@[0] != "rust"@[0]);
        assert("ietf rfcs"@[0] != "algorithm"@[0]);
        assert("ietf"@[0] != "lang"@[0]);
        assert("ietf"@[0] != "llvm"@[0]);
        assert("ietf"@[0] != "rust"@[0]);
        assert("ietf"@[0] != "bash"@[0]);
        assert("ietf"@[0] != "sudo"@[0]);
    }
}

/// The views of a list of strings.
pub open spec fn views_of(v: Seq<String>) -> Seq<Seq<char>> {
    v.map_values(|s: String| s@)
}

#[verifier::external_type_specification]
#[verifier::external_body]
#[verifier::reject_recursive_types(T)]
#[verifier::reject_recursive_types(S)]
pub struct ExIndexSet<T, S>(IndexSet<T, S>);

/// The items of a set of category numbers, in their order of insertion.
pub uninterp spec fn cat_set_items(s: IndexSet<u8>) -> Seq<u8>;

/// `IndexSet::new`: an empty set.
#[verifier::external_body]
fn cat_set_new() -> (r: IndexSet<u8>)
    ensures
        cat_set_items(r) == Seq::<u8>::empty(),
{
    IndexSet::new()
}

/// `IndexSet::insert`: an item that the set does not hold yet goes last
/// and `true` is returned; otherwise the set is left as it is and `false`
/// is returned.
#[verifier::external_body]
fn cat_set_insert(s: &mut IndexSet<u8>, v: u8) -> (r: bool)
    ensures
        r == !cat_set_items(*old(s)).contains(v),
        cat_set_items(*final(s)) == if cat_set_items(*old(s)).contains(v) {
            cat_set_items(*old(s))
        } else {
            cat_set_items(*old(s)).push(v)
        },
{
    s.insert(v)
}

/// `IndexSet::is_empty`.
#[verifier::external_body]
fn cat_set_is_empty(s: &IndexSet<u8>) -> (r: bool)
    ensures
        r == (cat_set_items(*s).len() == 0),
{
    s.is_empty()
}

/// The items of the set in their order, as `IndexSet::into_iter` yields
/// them.
#[verifier::external_body]
fn cat_set_into_vec(s: IndexSet<u8>) -> (r: Vec<u8>)
    ensures
        r@ == cat_set_items(s),
{
    s.into_iter().collect()
}

/// Codes of categories stand for the categories one for one.
proof fn lemma_codes_contains(cats: Seq<Cat>, c: Cat)
    ensures
        cats.map_values(|x: Cat| cat_code(x)).contains(cat_code(c)) == cats.contains(c),
{
    let codes = cats.map_values(|x: Cat| cat_code(x));
    if codes.contains(cat_code(c)) {
        let i = choose|i: int| 0 <= i < codes.len() && codes[i] == cat_code(c);
        assert(cats[i] == c);
    }
    if cats.contains(c) {
        let i = choose|i: int| 0 <= i < cats.len() && cats[i] == c;
        assert(codes[i] == cat_code(c));
    }
}

/// The categories of a post with the tags `tags`: the categories of its
/// tags (trimmed and in lowercase), each once, in the order of their first
/// tag, or `Oth` alone when no tag has one.
pub fn map_tags_to_cats(tags: &[String]) -> (r: Vec<Cat>)
    ensures
        r@ == cats_of_tags(views_of(tags@)),
        forall|i: int|
            0 <= i < tags@.len() && is_ascii_text(#[trigger] tags@[i]@) ==> tag_key(tags@[i]@)
                == ascii_lower(trim(tags@[i]@)),
{
    let ghost keys = views_of(tags@).map_values(|t: Seq<char>| tag_key(t));
    let mut cats = cat_set_new();
    let mut i: usize = 0;
    while i < tags.len()
        invariant
            i <= tags@.len(),
            keys == views_of(tags@).map_values(|t: Seq<char>| tag_key(t)),
            cat_set_items(cats) == collect_cats(keys.take(i as int)).map_values(
                |x: Cat| cat_code(x),
            ),
            forall|j: int|
                0 <= j < i && is_ascii_text(#[trigger] tags@[j]@) ==> tag_key(tags@[j]@)
                    == ascii_lower(trim(tags@[j]@)),
        decreases tags.len() - i,
    {
        proof {
            if is_ascii_text(tags@[i as int]@) {
                lemma_trim_ascii(tags@[i as int]@);
            }
        }
        let tag = to_lowercase(trim_str(tags[i].as_str()).as_str());
        assert(keys[i as int] == tag@);
        assert(keys.take(i + 1).drop_last() =~= keys.take(i as int));
        let ghost prev = collect_cats(keys.take(i as int));
        if let Some(cat) = tag_to_cat(tag.as_str()) {
            proof {
                lemma_codes_contains(prev, cat);
            }
            cat_set_insert(&mut cats, cat.code());
            assert(cat_set_items(cats) =~= collect_cats(keys.take(i + 1)).map_values(
                |x: Cat| cat_code(x),
            ));
        }
        i = i + 1;
    }
    assert(keys.take(tags@.len() as int) =~= keys);
    if cat_set_is_empty(&cats) {
        cat_set_insert(&mut cats, Cat::Oth.code());
    }
    let codes = cat_set_into_vec(cats);
    let ghost expect = cats_of_tags(views_of(tags@));
    assert(codes@ =~= expect.map_values(|x: Cat| cat_code(x)));
    let mut out: Vec<Cat> = Vec::new();
    let mut j: usize = 0;
    while j < codes.len()
        invariant
            j <= codes@.len(),
            codes@ == expect.map_values(|x: Cat| cat_code(x)),
            out@ == expect.take(j as int),
        decreases codes.len() - j,
    {
        let c = Cat::from_code(codes[j]);
        assert(cat_code(expect[j as int]) == codes@[j as int]);
        assert(c == expect[j as int]);
        out.push(c);
        j = j + 1;
        assert(out@ =~= expect.take(j as int));
    }
    assert(expect.take(codes@.len() as int) =~= expect);
    out
}

/// Where an image of a note is served from: a path whose components start
/// with `../assets` is moved under `imgdir`, with its leading `..` dropped;
/// any other path is kept.
pub open spec fn mapped_image_path(src: Seq<char>, imgdir: Seq<char>) -> Seq<char> {
    if starts_with_parent_then(src, "assets"@) {
        join_of(imgdir, strip_parent(src))
    } else {
        src
    }
}

/// With an absolute image directory, moving an image path is idempotent:
/// a moved path starts at the root, so it is not moved again.
pub proof fn law_image_path_idempotent(src: Seq<char>, imgdir: Seq<char>)
    requires
        imgdir.len() > 0 && imgdir[0] == '/',
    ensures
        mapped_image_path(mapped_image_path(src, imgdir), imgdir) == mapped_image_path(
            src,
            imgdir,
        ),
{
    if starts_with_parent_then(src, "assets"@) {
        let r = join_of(imgdir, strip_parent(src));
        assert(r[0] == '/');
        assert(first_segment_len(r) == 0);
        assert(r.subrange(0, 0) =~= Seq::<char>::empty());
        assert(!starts_with_parent_then(r, "assets"@)) by {
            if r.subrange(0, 0) == seq!['.', '.'] {
                assert(seq!['.', '.'].len() == 2);
            }
        }
    }
}

/// The first segment of `a + b`, where `a` holds no `/` and `b` is empty or
/// starts with `/`, is `a`.
proof fn lemma_first_segment_of(a: Seq<char>, b: Seq<char>)
    requires
        forall|i: int| 0 <= i < a.len() ==> #[trigger] a[i] != '/',
        b.len() == 0 || b[0] == '/',
    ensures
        first_segment_len(a + b) == a.len(),
    decreases a.len(),
{
    if a.len() > 0 {
        assert((a + b).drop_first() =~= a.drop_first() + b);
        lemma_first_segment_of(a.drop_first(), b);
    } else {
        assert(a + b =~= b);
    }
}

/// An image path `../assets/<name>`, for a plain file name, is served from
/// `<imgdir>/assets/<name>`.
pub proof fn law_image_path_moved(imgdir: Seq<char>, name: Seq<char>)
    requires
        name.len() > 0,
        forall|i: int| 0 <= i < name.len() ==> #[trigger] name[i] != '/',
        name != seq!['.'],
    ensures
        mapped_image_path("../assets/"@ + name, imgdir) == join_of(imgdir, "assets/"@ + name),
{
    reveal_strlit("../assets/");
    reveal_strlit("assets/");
    reveal_strlit("assets");
    let word = seq!['a', 's', 's', 'e', 't', 's'];
    assert("../assets/"@ =~= seq!['.', '.', '/'] + word + seq!['/']);
    assert("assets/"@ =~= word + seq!['/']);
    assert("assets"@ =~= word);
    let src = "../assets/"@ + name;
    let tail = seq!['/'] + word + seq!['/'] + name;
    let rest = word + seq!['/'] + name;
    assert(src =~= seq!['.', '.'] + tail);
    lemma_first_segment_of(seq!['.', '.'], tail);
    assert(src.subrange(0, 2) =~= seq!['.', '.']);
    assert(after_first_segment(src) =~= tail);
    assert(tail.drop_first() =~= rest);
    assert(skip_front(rest) == rest);
    assert(skip_front(tail) == rest);
    assert(rest =~= word + (seq!['/'] + name));
    lemma_first_segment_of(word, seq!['/'] + name);
    assert(rest.subrange(0, 6) =~= word);
    assert(starts_with_parent_then(src, "assets"@));
    assert(rest.last() == name.last());
    if name.last() == '.' {
        if name.len() == 1 {
            assert(name =~= seq!['.']);
        } else {
            assert(rest[rest.len() - 2] == name[name.len() - 2]);
        }
    }
    assert(skip_back(rest) == rest);
    assert("assets/"@ + name =~= rest);
}

/// The first segment of a path lies within it.
proof fn lemma_first_segment_bound(p: Seq<char>)
    ensures
        first_segment_len(p) <= p.len(),
    decreases p.len(),
{
    if p.len() > 0 && p[0] != '/' {
        lemma_first_segment_bound(p.drop_first());
    }
}

/// An image path that does not start with `.` is kept as it is.
pub proof fn law_image_path_kept(src: Seq<char>, imgdir: Seq<char>)
    requires
        src.len() == 0 || src[0] != '.',
    ensures
        mapped_image_path(src, imgdir) == src,
{
    if starts_with_parent_then(src, "assets"@) {
        let k = first_segment_len(src);
        lemma_first_segment_bound(src);
        assert(src.subrange(0, k as int) == seq!['.', '.']);
        assert(src.subrange(0, k as int)[0] == '.');
    }
}

/// Moves the path of an image of a note under the blog's image directory
/// `imgdir` when it points into `../assets`.
pub fn map_image_path(src: &str, imgdir: &str) -> (r: String)
    ensures
        r@ == mapped_image_path(src@, imgdir@),
{
    match strip_parent_then(src, "assets") {
        Some(rest) => path_join(imgdir, rest.as_str()),
        None => src.to_owned(),
    }
}

/// Whether `u[..p]` can be the note part of a link to a note: at least one
/// character and then `.md`, followed by the end of `u` or by `#`.
pub open spec fn md_ref_split(u: Seq<char>, p: int) -> bool {
    &&& 4 <= p <= u.len()
    &&& u[p - 3] == '.' && u[p - 2] == 'm' && u[p - 1] == 'd'
    &&& (p == u.len() || u[p] == '#')
}

/// Whether `u` holds no white space.
pub open spec fn no_white_space(u: Seq<char>) -> bool {
    forall|i: int| 0 <= i < u.len() ==> !is_white_space(#[trigger] u[i])
}

/// Whether `u` matches `^(\S+\.md)(#\S*)?$` with its first group `u[..p]`:
/// `u` holds no white space, and `p` is the longest split (greedy `\S+`).
pub open spec fn md_ref_match_at(u: Seq<char>, p: int) -> bool {
    &&& no_white_space(u)
    &&& md_ref_split(u, p)
    &&& forall|q: int| p < q && #[trigger] md_ref_split(u, q) ==> false
}

/// Whether `u` matches `^(\S+\.md)(#\S*)?$` at all.
pub open spec fn is_md_ref(u: Seq<char>) -> bool {
    no_white_space(u) && exists|p: int| #[trigger] md_ref_split(u, p)
}

/// The groups of a match of `^(\S+\.md)(#\S*)?$` on a link: the whole
/// link, the note part, and the anchor part (from its `#`) when there is
/// one.
pub struct MdRefMatch {
    pub whole: String,
    pub base: String,
    pub sharp: Option<String>,
}

impl MdRefMatch {
    /// The number of groups of the pattern, the whole match included.
    pub fn len(&self) -> (r: usize)
        ensures
            r == 3,
    {
        3
    }

    /// Group `i`: 0 is the whole link, 1 the note part, 2 the anchor part.
    pub fn get(&self, i: usize) -> (r: Option<String>)
        ensures
            i == 0 ==> r == Some(self.whole),
            i == 1 ==> r == Some(self.base),
            i == 2 ==> r == self.sharp,
            i > 2 ==> r is None,
    {
        if i == 0 {
            Some(self.whole.clone())
        } else if i == 1 {
            Some(self.base.clone())
        } else if i == 2 {
            match &self.sharp {
                Some(s) => Some(s.clone()),
                None => None,
            }
        } else {
            None
        }
    }
}

/// Matches a link against `^(\S+\.md)(#\S*)?$`, the shape of a link to
/// another note.
pub fn parse_md_ref(url: &str) -> (r: Option<MdRefMatch>)
    ensures
        r is Some <==> is_md_ref(url@),
        r matches Some(m) ==> exists|p: int|
            md_ref_match_at(url@, p) && m.whole@ == url@ && m.base@ == url@.subrange(0, p) && (
            if p == url@.len() {
                m.sharp is None
            } else {
                m.sharp matches Some(sh) && sh@ == url@.subrange(p, url@.len() as int)
            }),
{
    let v = chars_of(url);
    let n = v.len();
    let mut i: usize = 0;
    while i < n
        invariant
            i <= n == v@.len(),
            v@ == url@,
            forall|j: int| 0 <= j < i ==> !is_white_space(#[trigger] v@[j]),
        decreases n - i,
    {
        if char_is_white_space(v[i]) {
            assert(!no_white_space(v@)) by {
                assert(is_white_space(v@[i as int]));
            }
            return None;
        }
        i = i + 1;
    }
    let mut p: usize = n;
    while p >= 4
        invariant
            p <= n == v@.len(),
            v@ == url@,
            no_white_space(v@),
            forall|q: int| p < q && #[trigger] md_ref_split(v@, q) ==> false,
        decreases p,
    {
        if v[p - 3] == '.' && v[p - 2] == 'm' && v[p - 1] == 'd' && (p == n || v[p] == '#') {
            assert(md_ref_split(v@, p as int));
            let sharp = if p == n {
                None
            } else {
                Some(string_of(&v, p, n))
            };
            assert(v@.subrange(0, n as int) =~= v@);
            assert(md_ref_match_at(url@, p as int));
            return Some(
                MdRefMatch { whole: string_of(&v, 0, n), base: string_of(&v, 0, p), sharp },
            );
        }
        p = p - 1;
    }
    None
}

/// A link to another note, once resolved: the path of the note, its stem,
/// and the anchor that followed it (empty when there was none).
pub struct MdRef {
    pub path: String,
    pub stem: String,
    pub sharp: String,
}

impl View for MdRef {
    type V = (Seq<char>, Seq<char>, Seq<char>);

    /// The path, the stem and the anchor.
    open spec fn view(&self) -> (Seq<char>, Seq<char>, Seq<char>) {
        (self.path@, self.stem@, self.sharp@)
    }
}

/// The target of a link `url` of a note in the directory `basedir`, as
/// path, stem and anchor, when it links to another note: the path is the
/// note part joined to `basedir`, and the anchor is what follows the note
/// part.
pub open spec fn md_ref_target_of(url: Seq<char>, basedir: Seq<char>) -> Option<
    (Seq<char>, Seq<char>, Seq<char>),
> {
    if exists|p: int| md_ref_match_at(url, p) && is_markdown_file(url.subrange(0, p)) {
        let p = choose|p: int| md_ref_match_at(url, p) && is_markdown_file(url.subrange(0, p));
        let base = url.subrange(0, p);
        Some((join_of(basedir, base), file_stem_of(base).unwrap(), url.subrange(p, url.len() as int)))
    } else {
        None
    }
}

/// Whether the note part `base` of a link names a markdown file: its
/// extension is `md` or `markdown`.
pub open spec fn is_markdown_file(base: Seq<char>) -> bool {
    path_extension_of(base) == Some("md"@) || path_extension_of(base) == Some("markdown"@)
}

/// Resolves a link `url` of a note in the directory `basedir` when it is a
/// link to another note: a match of `^(\S+\.md)(#\S*)?$` whose note part
/// names a markdown file.
pub fn md_ref_target(url: &str, basedir: &str) -> (r: Option<MdRef>)
    ensures
        r is Some <==> is_md_ref(url@) && exists|p: int|
            md_ref_match_at(url@, p) && is_markdown_file(url@.subrange(0, p)),
        r matches Some(t) ==> exists|p: int|
            md_ref_match_at(url@, p) && is_markdown_file(url@.subrange(0, p)) && t.path@
                == join_of(basedir@, url@.subrange(0, p)) && file_stem_of(url@.subrange(0, p))
                == Some(t.stem@) && t.sharp@ == url@.subrange(p, url@.len() as int),
        r matches Some(t) ==> md_ref_target_of(url@, basedir@) == Some(t@),
        r is None <==> md_ref_target_of(url@, basedir@) is None,
{
    match parse_md_ref(url) {
        None => None,
        Some(m) => {
            let ghost p = choose|p: int|
                md_ref_match_at(url@, p) && m.whole@ == url@ && m.base@ == url@.subrange(0, p) && (
                if p == url@.len() {
                    m.sharp is None
                } else {
                    m.sharp matches Some(sh) && sh@ == url@.subrange(p, url@.len() as int)
                });
            proof {
                law_md_ref_unique(url@, p);
            }
            let ext = path_extension(m.base.as_str());
            let is_md = match &ext {
                Some(e) => str_eq(e.as_str(), "md") || str_eq(e.as_str(), "markdown"),
                None => false,
            };
            if !is_md {
                return None;
            }
            let stem = match path_file_stem(m.base.as_str()) {
                Some(s) => s,
                None => {
                    proof {
                        assert(false);
                    }
                    String::new()
                },
            };
            let sharp = match m.sharp {
                Some(s) => s,
                None => {
                    assert(url@.subrange(p, url@.len() as int) =~= Seq::<char>::empty());
                    String::new()
                },
            };
            Some(MdRef { path: path_join(basedir, m.base.as_str()), stem, sharp })
        },
    }
}

/// A link has at most one match: its note part is determined by the link.
pub proof fn law_md_ref_unique(u: Seq<char>, p: int)
    requires
        md_ref_match_at(u, p),
    ensures
        forall|q: int| #[trigger] md_ref_match_at(u, q) ==> q == p,
{
    assert forall|q: int| #[trigger] md_ref_match_at(u, q) implies q == p by {
        if q < p {
            assert(md_ref_split(u, p));
        } else if p < q {
            assert(md_ref_split(u, q));
        }
    }
}

/// The last `.` of `stem + ".md"`, where `stem` holds no `.`, is the one
/// before `md`.
proof fn lemma_last_dot_of_md(stem: Seq<char>)
    requires
        forall|i: int| 0 <= i < stem.len() ==> #[trigger] stem[i] != '.',
    ensures
        last_dot(stem + seq!['.', 'm', 'd']) == stem.len(),
{
    let n = stem + seq!['.', 'm', 'd'];
    assert(n.drop_last() =~= stem + seq!['.', 'm']);
    assert(n.drop_last().drop_last() =~= stem + seq!['.']);
    assert((stem + seq!['.']).last() == '.');
    reveal_with_fuel(last_dot, 3);
}

/// A link `<stem>.md<anchor>` to a note, whose stem is a plain name without
/// `.` and whose anchor is empty or a `#` part without `.`, points to the
/// note `<basedir>/<stem>.md`, with that stem and that anchor.
pub proof fn law_md_ref_of_note(stem: Seq<char>, anchor: Seq<char>, basedir: Seq<char>)
    requires
        stem.len() > 0,
        forall|i: int|
            0 <= i < stem.len() ==> !is_white_space(#[trigger] stem[i]) && stem[i] != '/'
                && stem[i] != '.',
        anchor.len() == 0 || anchor[0] == '#',
        forall|i: int| 0 <= i < anchor.len() ==> !is_white_space(#[trigger] anchor[i]) && anchor[i] != '.',
    ensures
        md_ref_target_of(stem + ".md"@ + anchor, basedir) == Some(
            (join_of(basedir, stem + ".md"@), stem, anchor),
        ),
{
    reveal_strlit(".md");
    reveal_strlit("md");
    reveal_strlit("markdown");
    let md = seq!['.', 'm', 'd'];
    assert(".md"@ =~= md);
    let base = stem + md;
    let u = base + anchor;
    let p = base.len() as int;
    assert(stem + ".md"@ + anchor =~= u);
    assert(u.subrange(0, p) =~= base);
    assert(u.subrange(p, u.len() as int) =~= anchor);
    // no white space in the link
    assert forall|i: int| 0 <= i < u.len() implies !is_white_space(#[trigger] u[i]) by {
        if i < stem.len() {
            assert(u[i] == stem[i]);
        } else if i >= p {
            assert(u[i] == anchor[i - p]);
        }
    }
    assert(md_ref_split(u, p));
    // the only `.` of the link stands before `md`
    assert forall|q: int| #[trigger] md_ref_split(u, q) implies q == p by {
        if q - 3 < stem.len() {
            assert(u[q - 3] == stem[q - 3]);
        } else if q - 3 >= p {
            assert(u[q - 3] == anchor[q - 3 - p]);
        }
    }
    assert(md_ref_match_at(u, p));
    law_md_ref_unique(u, p);
    // the note part is a markdown file named `<stem>.md`
    assert forall|i: int| 0 <= i < base.len() implies #[trigger] base[i] != '/' by {
        if i < stem.len() {
            assert(base[i] == stem[i]);
        }
    }
    assert(base != seq!['.']) by {
        assert(base.len() >= 4);
    }
    assert(base != seq!['.', '.']) by {
        assert(base.len() >= 4);
    }
    law_dot_file_plain_name(Seq::empty(), base);
    assert(join_of(Seq::empty(), base) == base);
    assert forall|i: int| 0 <= i < stem.len() implies #[trigger] stem[i] != '.' by {}
    lemma_last_dot_of_md(stem);
    assert(base.subrange(p - 2, p) =~= "md"@);
    assert(base.subrange(0, stem.len() as int) =~= stem);
    assert(path_extension_of(base) == Some("md"@));
    assert(is_markdown_file(base));
    assert(file_stem_of(base) == Some(stem));
}

/// The blog URL of a note of category `cat` with stem `stem`, followed by
/// the anchor `sharp`: `{{site.url}}/<cat>/<stem>.html<sharp>`.
pub open spec fn md_ref_url_of(cat: Cat, stem: Seq<char>, sharp: Seq<char>) -> Seq<char> {
    "{{site.url}}/"@ + cat_name(cat) + "/"@ + stem + ".html"@ + sharp
}

/// The blog URL of a note of category `cat` with stem `stem`, followed by
/// the anchor `sharp`.
pub fn md_ref_url(cat: Cat, stem: &str, sharp: &str) -> (r: String)
    ensures
        r@ == md_ref_url_of(cat, stem@, sharp@),
{
    let mut s = String::from_str("{{site.url}}/");
    let name = cat.to_string();
    s.append(name.as_str());
    s.append("/");
    s.append(stem);
    s.append(".html");
    s.append(sharp);
    s
}

/// The blog URL that a link to another note becomes, given the tags of that
/// note: the URL of its first category.
pub fn ref_link_url(target: &MdRef, tags: &[String]) -> (r: String)
    ensures
        r@ == md_ref_url_of(cats_of_tags(views_of(tags@))[0], target.stem@, target.sharp@),
{
    let cats = map_tags_to_cats(tags);
    md_ref_url(cats[0], target.stem.as_str(), target.sharp.as_str())
}

/// The ASCII digit of value `k`.
pub open spec fn digit_char(k: int) -> char {
    (('0' as int) + k) as char
}

/// `x` on two digits, as `{:02}` writes a number below 100.
pub open spec fn two_digits(x: int) -> Seq<char> {
    seq![digit_char(x / 10), digit_char(x % 10)]
}

/// `x` on four digits, as `{:04}` writes a number below 10000.
pub open spec fn four_digits(x: int) -> Seq<char> {
    seq![digit_char(x / 1000), digit_char(x / 100 % 10), digit_char(x / 10 % 10), digit_char(x % 10)]
}

/// A date written `YYYY-MM-DD`, as `{:04}-{:02}-{:02}` writes it.
pub open spec fn date_text(year: int, month: int, day: int) -> Seq<char> {
    four_digits(year) + seq!['-'] + two_digits(month) + seq!['-'] + two_digits(day)
}

/// An ASCII digit reads back as the value it was written from.
proof fn lemma_digit_char(k: int)
    requires
        0 <= k <= 9,
    ensures
        is_ascii_digit(digit_char(k)),
        digit_value(digit_char(k)) == k,
        crate::text::is_decimal_digit(digit_char(k)),
{
}

/// Four digits read back as the number they were written from.
proof fn lemma_four_digits(x: int)
    requires
        0 <= x <= 9999,
    ensures
        all_ascii_digits(four_digits(x)),
        decimal_value(four_digits(x)) == x,
{
    let s = four_digits(x);
    lemma_digit_char(x / 1000);
    lemma_digit_char(x / 100 % 10);
    lemma_digit_char(x / 10 % 10);
    lemma_digit_char(x % 10);
    assert(s.drop_last().drop_last().drop_last().drop_last() =~= Seq::<char>::empty());
    assert(x / 1000 * 1000 + (x / 100 % 10) * 100 + (x / 10 % 10) * 10 + x % 10 == x) by (
    nonlinear_arith)
        requires
            0 <= x <= 9999,
    ;
    reveal_with_fuel(decimal_value, 5);
}

/// Two digits read back as the number they were written from.
proof fn lemma_two_digits(x: int)
    requires
        0 <= x <= 99,
    ensures
        all_ascii_digits(two_digits(x)),
        decimal_value(two_digits(x)) == x,
{
    let s = two_digits(x);
    lemma_digit_char(x / 10);
    lemma_digit_char(x % 10);
    assert(s.drop_last().drop_last() =~= Seq::<char>::empty());
    reveal_with_fuel(decimal_value, 3);
}

/// The date prefix of a post's file name reads back as the date it was
/// written from: `RelaDateTime::from_str(date_prefix(d))` finds the date
/// `d` (the text is a valid date at index 0 with ASCII digits, and its
/// fields are those of `d`).
pub proof fn law_date_prefix_reads_back(d: RelaDateTime)
    requires
        d.wf(),
    ensures
        ({
            let s = date_text(d.year as int, d.month as int, d.day as int);
            &&& first_date_from(s, 0) == Some(0int)
            &&& match_is_ascii(s, 0)
            &&& date_of_match(s, 0) == (d.year as int, d.month as int, d.day as int)
            &&& date_text_ok(s)
        }),
{
    let (y, m, dd) = (d.year as int, d.month as int, d.day as int);
    let s = date_text(y, m, dd);
    lemma_four_digits(y);
    lemma_two_digits(m);
    lemma_two_digits(dd);
    assert(s.subrange(0, 4) =~= four_digits(y));
    assert(s.subrange(5, 7) =~= two_digits(m));
    assert(s.subrange(8, 10) =~= two_digits(dd));
    assert(date_pattern_at(s, 0)) by {
        assert(s[0] == four_digits(y)[0]);
        assert(s[1] == four_digits(y)[1]);
        assert(s[2] == four_digits(y)[2]);
        assert(s[3] == four_digits(y)[3]);
        assert(s[5] == two_digits(m)[0]);
        assert(s[6] == two_digits(m)[1]);
        assert(s[8] == two_digits(dd)[0]);
        assert(s[9] == two_digits(dd)[1]);
        lemma_digit_char(y / 1000);
        lemma_digit_char(y / 100 % 10);
        lemma_digit_char(y / 10 % 10);
        lemma_digit_char(y % 10);
        lemma_digit_char(m / 10);
        lemma_digit_char(m % 10);
        lemma_digit_char(dd / 10);
        lemma_digit_char(dd % 10);
    }
}

/// Appends the ASCII digit of value `k`.
fn push_digit(s: &mut String, k: u32)
    requires
        k <= 9,
    ensures
        final(s)@ == old(s)@.push(digit_char(k as int)),
{
    let c = ((48 + k) as u8) as char;
    push_char(s, c);
}

/// The date of a post as the prefix of its file name: `YYYY-MM-DD`.
pub fn date_prefix(date: &RelaDateTime) -> (r: String)
    requires
        date.wf(),
    ensures
        r@ == date_text(date.year as int, date.month as int, date.day as int),
{
    let y = date.year as u32;
    let m = date.month;
    let d = date.day;
    let mut s = String::new();
    push_digit(&mut s, y / 1000);
    push_digit(&mut s, y / 100 % 10);
    push_digit(&mut s, y / 10 % 10);
    push_digit(&mut s, y % 10);
    push_char(&mut s, '-');
    push_digit(&mut s, m / 10);
    push_digit(&mut s, m % 10);
    push_char(&mut s, '-');
    push_digit(&mut s, d / 10);
    push_digit(&mut s, d % 10);
    assert(s@ =~= date_text(date.year as int, date.month as int, date.day as int));
    s
}

/// What `lol_html` makes of the HTML `html` when every element that
/// matches `selector` gets `before` written before it and `after` after it;
/// `None` when the selector does not parse or the rewriting fails.
pub uninterp spec fn spec_html_surround(
    html: Seq<char>,
    selector: Seq<char>,
    before: Seq<char>,
    after: Seq<char>,
) -> Option<Seq<char>>;

/// `lol_html::rewrite_str` with an element handler that writes `before`
/// before and `after` after each element matching `selector` (as HTML).
/// The result is named, not stated: HTML parsing and CSS selectors are
/// not written out here.
#[verifier::external_body]
fn html_surround(html: &str, selector: &str, before: &str, after: &str) -> (r: Option<String>)
    ensures
        r matches Some(t) ==> spec_html_surround(html@, selector@, before@, after@) == Some(t@),
        r is None ==> spec_html_surround(html@, selector@, before@, after@) is None,
{
    let sel: lol_html::Selector = selector.parse().ok()?;
    let handlers = lol_html::ElementContentHandlers::default().element(
        move |el: &mut lol_html::html_content::Element<'_, '_>| {
            el.before(before, lol_html::html_content::ContentType::Html);
            el.after(after, lol_html::html_content::ContentType::Html);
            Ok(())
        },
    );
    let settings = lol_html::RewriteStrSettings::new().append_element_content_handler(
        (std::borrow::Cow::Owned(sel), handlers),
    );
    lol_html::rewrite_str(html, settings).ok()
}

/// What `lol_html` makes of the HTML `html` when the attribute `attr` of
/// every element that matches `selector` is replaced by
/// `mapped_image_path(value, imgdir)`; `None` when the selector does not
/// parse or the rewriting fails.
pub uninterp spec fn spec_html_map_attr(
    html: Seq<char>,
    selector: Seq<char>,
    attr: Seq<char>,
    imgdir: Seq<char>,
) -> Option<Seq<char>>;

/// `lol_html::rewrite_str` with an element handler that replaces the
/// attribute `attr` of each element matching `selector` by its value moved
/// by `map_image_path(_, imgdir)`.  The result is named, not stated: HTML
/// parsing and CSS selectors are not written out here.
#[verifier::external_body]
fn html_map_attr(html: &str, selector: &str, attr: &str, imgdir: &str) -> (r: Option<String>)
    ensures
        r matches Some(t) ==> spec_html_map_attr(html@, selector@, attr@, imgdir@) == Some(t@),
        r is None ==> spec_html_map_attr(html@, selector@, attr@, imgdir@) is None,
{
    let sel: lol_html::Selector = selector.parse().ok()?;
    let handlers = lol_html::ElementContentHandlers::default().element(
        move |el: &mut lol_html::html_content::Element<'_, '_>| {
            if let Some(v) = el.get_attribute(attr) {
                el.set_attribute(attr, map_image_path(&v, imgdir).as_str())?;
            }
            Ok(())
        },
    );
    let settings = lol_html::RewriteStrSettings::new().append_element_content_handler(
        (std::borrow::Cow::Owned(sel), handlers),
    );
    lol_html::rewrite_str(html, settings).ok()
}

/// The HTML of a note with its images centered: each `img` with a `src`
/// wrapped in a `<div class="sx-center">`.  `None` when the HTML cannot be
/// rewritten.
pub fn center_img_html(html: &str) -> (r: Option<String>)
    ensures
        r matches Some(t) ==> spec_html_surround(
            html@,
            "img[src]"@,
            "<div class=\"sx-center\">\n"@,
            "</div>"@,
        ) == Some(t@),
        r is None ==> spec_html_surround(
            html@,
            "img[src]"@,
            "<div class=\"sx-center\">\n"@,
            "</div>"@,
        ) is None,
{
    html_surround(html, "img[src]", "<div class=\"sx-center\">\n", "</div>")
}

/// The HTML of a note with the `src` of each `img` moved by
/// `map_image_path(_, imgdir)`.  `None` when the HTML cannot be rewritten.
pub fn map_img_html(html: &str, imgdir: &str) -> (r: Option<String>)
    ensures
        r matches Some(t) ==> spec_html_map_attr(html@, "img[src]"@, "src"@, imgdir@) == Some(
            t@,
        ),
        r is None ==> spec_html_map_attr(html@, "img[src]"@, "src"@, imgdir@) is None,
{
    html_map_attr(html, "img[src]", "src", imgdir)
}

/// A value of the front matter of a post.
pub enum YamlValue {
    Str(String),
    Bool(bool),
    StrSeq(Vec<String>),
}

/// What a value of the front matter of a post holds.
pub enum YamlModel {
    Str(Seq<char>),
    Bool(bool),
    StrSeq(Seq<Seq<char>>),
}

/// What a value of the front matter holds.
pub open spec fn yaml_model(v: YamlValue) -> YamlModel {
    match v {
        YamlValue::Str(s) => YamlModel::Str(s@),
        YamlValue::Bool(b) => YamlModel::Bool(b),
        YamlValue::StrSeq(xs) => YamlModel::StrSeq(views_of(xs@)),
    }
}

#[verifier::external_type_specification]
#[verifier::external_body]
pub struct ExMapping(serde_yaml::Mapping);

/// The entries of a YAML mapping, in their order, each a string key and
/// its value.
pub uninterp spec fn yaml_entries(m: serde_yaml::Mapping) -> Seq<(Seq<char>, YamlModel)>;

/// The entries after `(k, v)` is inserted into `entries`: the value of an
/// existing key is replaced in place, a new key goes last.
pub open spec fn insert_entry(entries: Seq<(Seq<char>, YamlModel)>, k: Seq<char>, v: YamlModel) -> Seq<
    (Seq<char>, YamlModel),
> {
    if exists|i: int| 0 <= i < entries.len() && #[trigger] entries[i].0 == k {
        let i = choose|i: int| 0 <= i < entries.len() && #[trigger] entries[i].0 == k;
        entries.update(i, (k, v))
    } else {
        entries.push((k, v))
    }
}

/// `serde_yaml::Mapping::new`: an empty mapping.
#[verifier::external_body]
fn yaml_mapping_new() -> (r: serde_yaml::Mapping)
    ensures
        yaml_entries(r) == Seq::<(Seq<char>, YamlModel)>::empty(),
{
    serde_yaml::Mapping::new()
}

/// `serde_yaml::Mapping::insert` of a string key and a value made of
/// strings and booleans: the value of an existing key is replaced in place
/// (the mapping keeps the order of insertion), a new key goes last.
#[verifier::external_body]
fn yaml_mapping_insert(m: &mut serde_yaml::Mapping, k: String, v: YamlValue)
    ensures
        yaml_entries(*final(m)) == insert_entry(yaml_entries(*old(m)), k@, yaml_model(v)),
{
    let v = match v {
        YamlValue::Str(s) => serde_yaml::Value::String(s),
        YamlValue::Bool(b) => serde_yaml::Value::Bool(b),
        YamlValue::StrSeq(xs) => serde_yaml::Value::Sequence(
            xs.into_iter().map(serde_yaml::Value::String).collect(),
        ),
    };
    m.insert(serde_yaml::Value::String(k), v);
}

/// What `serde_yaml::to_string` writes for a mapping with the entries
/// `entries`, or the `Debug` text of its error.
pub uninterp spec fn spec_yaml_text(entries: Seq<(Seq<char>, YamlModel)>) -> Result<
    Seq<char>,
    Seq<char>,
>;

/// A YAML text that was written.
pub open spec fn yaml_ok(t: Seq<char>) -> Result<Seq<char>, Seq<char>> {
    Ok(t)
}

/// The error text of a YAML text that could not be written.
pub open spec fn yaml_err(e: Seq<char>) -> Result<Seq<char>, Seq<char>> {
    Err(e)
}

/// `serde_yaml::to_string` of a mapping, its error given as its `Debug`
/// text.  The text is named, not stated: the YAML emitter's quoting and
/// layout rules are not written out here.  Its documentation says that
/// serialising fails only where a value's `Serialize` decides to fail,
/// which a mapping of strings to strings, booleans and sequences of
/// strings never does: the result is `Ok`.
#[verifier::external_body]
fn yaml_to_string(m: &serde_yaml::Mapping) -> (r: Result<String, String>)
    ensures
        r is Ok,
        r matches Ok(t) ==> spec_yaml_text(yaml_entries(*m)) == yaml_ok(t@),
        r matches Err(e) ==> spec_yaml_text(yaml_entries(*m)) == yaml_err(e@),
{
    serde_yaml::to_string(m).map_err(|e| format!("{e:?}"))
}

/// The entries of the front matter of a post: its title, its date, its
/// layout, the use of MathJax and its category.
pub open spec fn post_entries(title: Seq<char>, date: Seq<char>, cat: Cat) -> Seq<
    (Seq<char>, YamlModel),
> {
    seq![
        ("title"@, YamlModel::Str(title)),
        ("date"@, YamlModel::Str(date)),
        ("layout"@, YamlModel::Str("post"@)),
        ("mathjax"@, YamlModel::Bool(true)),
        ("category"@, YamlModel::StrSeq(seq![cat_name(cat)])),
    ]
}

/// Inserting a key that a list of distinct keys does not hold puts it last.
proof fn lemma_insert_new(entries: Seq<(Seq<char>, YamlModel)>, k: Seq<char>, v: YamlModel)
    requires
        forall|i: int| 0 <= i < entries.len() ==> #[trigger] entries[i].0 != k,
    ensures
        insert_entry(entries, k, v) == entries.push((k, v)),
{
}

/// The YAML text of the front matter of a post.
fn post_front_matter(title: &str, date: &str, cat: Cat) -> (r: Result<String, String>)
    ensures
        r is Ok,
        r matches Ok(t) ==> spec_yaml_text(post_entries(title@, date@, cat)) == yaml_ok(t@),
        r matches Err(e) ==> spec_yaml_text(post_entries(title@, date@, cat)) == yaml_err(e@),
{
    proof {
        reveal_strlit("title");
        reveal_strlit("date");
        reveal_strlit("layout");
        reveal_strlit("mathjax");
        reveal_strlit("category");
    }
    let mut m = yaml_mapping_new();
    let ghost e0 = yaml_entries(m);
    yaml_mapping_insert(&mut m, String::from_str("title"), YamlValue::Str(title.to_owned()));
    proof {
        lemma_insert_new(e0, "title"@, YamlModel::Str(title@));
    }
    let ghost e1 = yaml_entries(m);
    yaml_mapping_insert(&mut m, String::from_str("date"), YamlValue::Str(date.to_owned()));
    proof {
        assert(e1[0].0[0] != "date"@[0]);
        assert(e1[0].0 != "date"@);
        lemma_insert_new(e1, "date"@, YamlModel::Str(date@));
    }
    let ghost e2 = yaml_entries(m);
    yaml_mapping_insert(
        &mut m,
        String::from_str("layout"),
        YamlValue::Str(String::from_str("post")),
    );
    proof {
        assert(e2[0].0[0] != "layout"@[0]);
        assert(e2[0].0 != "layout"@);
        assert(e2[1].0[0] != "layout"@[0]);
        assert(e2[1].0 != "layout"@);
        lemma_insert_new(e2, "layout"@, YamlModel::Str("post"@));
    }
    let ghost e3 = yaml_entries(m);
    yaml_mapping_insert(&mut m, String::from_str("mathjax"), YamlValue::Bool(true));
    proof {
        assert(e3[0].0[0] != "mathjax"@[0]);
        assert(e3[0].0 != "mathjax"@);
        assert(e3[1].0[0] != "mathjax"@[0]);
        assert(e3[1].0 != "mathjax"@);
        assert(e3[2].0[0] != "mathjax"@[0]);
        assert(e3[2].0 != "mathjax"@);
        lemma_insert_new(e3, "mathjax"@, YamlModel::Bool(true));
    }
    let ghost e4 = yaml_entries(m);
    let mut names: Vec<String> = Vec::new();
    names.push(cat.to_string());
    assert(views_of(names@) =~= seq![cat_name(cat)]);
    yaml_mapping_insert(&mut m, String::from_str("category"), YamlValue::StrSeq(names));
    proof {
        assert(e4[0].0[0] != "category"@[0]);
        assert(e4[0].0 != "category"@);
        assert(e4[1].0[0] != "category"@[0]);
        assert(e4[1].0 != "category"@);
        assert(e4[2].0[0] != "category"@[0]);
        assert(e4[2].0 != "category"@);
        assert(e4[3].0[0] != "category"@[0]);
        assert(e4[3].0 != "category"@);
        lemma_insert_new(e4, "category"@, YamlModel::StrSeq(seq![cat_name(cat)]));
    }
    assert(yaml_entries(m) =~= post_entries(title@, date@, cat));
    yaml_to_string(&m)
}

/// A post ready to be written: the path of its file and its content.
pub struct Post {
    pub path: String,
    pub content: String,
}

/// The file name of a post: its date, `-`, the stem of its note and `.md`.
pub open spec fn post_file_name(date: Seq<char>, stem: Seq<char>) -> Seq<char> {
    date + seq!['-'] + stem + ".md"@
}

/// The content of a post: its front matter between `---` lines, then its
/// text.
pub open spec fn post_content(yaml: Seq<char>, text: Seq<char>) -> Seq<char> {
    "---\n"@ + yaml + "---\n"@ + text
}

/// The post of a note: its file is `<date>-<stem>.md` with the date written
/// `YYYY-MM-DD`, and its front matter holds, in order, the note's title,
/// that date, layout `post`, MathJax on, and as its category the first
/// category of the note's tags (the one that links to the note point to),
/// before the note's text.
pub proof fn law_post_of_note(md: Markdown, text: Seq<char>, yaml: Seq<char>)
    requires
        can_render(md),
    ensures
        ({
            let fm = md.front_matter.unwrap();
            let d = fm.date.unwrap();
            let date = date_text(d.year as int, d.month as int, d.day as int);
            &&& post_date(md) == date
            &&& post_file_name(post_date(md), md.name_stem@) == date + "-"@ + md.name_stem@
                + ".md"@
            &&& post_entries_of(md) == seq![
                ("title"@, YamlModel::Str(fm.title.unwrap()@)),
                ("date"@, YamlModel::Str(date)),
                ("layout"@, YamlModel::Str("post"@)),
                ("mathjax"@, YamlModel::Bool(true)),
                (
                    "category"@,
                    YamlModel::StrSeq(seq![cat_name(cats_of_tags(views_of(fm.tags@))[0])]),
                ),
            ]
            &&& post_content(yaml, text) == "---\n"@ + yaml + "---\n"@ + text
        }),
{
    reveal_strlit("-");
    assert(seq!['-'] =~= "-"@);
}

/// Whether a note has what its post needs: a front matter with a title and
/// a date.
pub open spec fn can_render(md: Markdown) -> bool {
    &&& md.front_matter matches Some(fm)
    &&& fm.title is Some
    &&& fm.date matches Some(d)
    &&& d.wf()
}

/// Whether a note has what its post needs: a front matter with a title and
/// a date.
pub fn can_render_post(md: &Markdown) -> (r: bool)
    ensures
        r == can_render(*md),
{
    match &md.front_matter {
        Some(fm) => fm.title.is_some() && match &fm.date {
            Some(d) => d.is_wf(),
            None => false,
        },
        None => false,
    }
}

/// The date of the post of a note, as `YYYY-MM-DD`.
pub open spec fn post_date(md: Markdown) -> Seq<char> {
    let d = md.front_matter.unwrap().date.unwrap();
    date_text(d.year as int, d.month as int, d.day as int)
}

/// The entries of the front matter of the post of a note.
pub open spec fn post_entries_of(md: Markdown) -> Seq<(Seq<char>, YamlModel)> {
    let fm = md.front_matter.unwrap();
    post_entries(fm.title.unwrap()@, post_date(md), cats_of_tags(views_of(fm.tags@))[0])
}

/// The post of a note whose text, after its front matter and once its
/// images and links are mapped, is `text`, to be written in `outdir`: its
/// file is `outdir/<date>-<stem>.md`, and its content is a front matter
/// with its title, date, layout `post`, MathJax on and its first category,
/// followed by `text`.  The YAML writer does not fail on such a front
/// matter, so the post is always made.
pub fn render_post(md: &Markdown, text: &str, outdir: &str) -> (r: Result<Post, String>)
    requires
        can_render(*md),
    ensures
        r is Ok,
        match spec_yaml_text(post_entries_of(*md)) {
            Ok(y) => r matches Ok(p) && p.path@ == join_of(
                outdir@,
                post_file_name(post_date(*md), md.name_stem@),
            ) && p.content@ == post_content(y, text@),
            Err(e) => r matches Err(err) && err@ == e,
        },
{
    let fm = match &md.front_matter {
        Some(fm) => fm,
        None => {
            proof {
                assert(false);
            }
            return Err(String::new());
        },
    };
    let (title, date) = match (&fm.title, &fm.date) {
        (Some(t), Some(d)) => (t, d),
        _ => {
            proof {
                assert(false);
            }
            return Err(String::new());
        },
    };
    let prefix = date_prefix(date);
    let mut file = prefix.clone();
    proof {
        reveal_strlit("-");
    }
    file.append("-");
    file.append(md.name_stem.as_str());
    file.append(".md");
    let path = path_join(outdir, file.as_str());
    let cats = map_tags_to_cats(fm.tags.as_slice());
    let yaml = post_front_matter(title.as_str(), prefix.as_str(), cats[0]);
    match yaml {
        Ok(y) => {
            let mut content = String::from_str("---\n");
            content.append(y.as_str());
            content.append("---\n");
            content.append(text);
            Ok(Post { path, content })
        },
        Err(e) => Err(e),
    }
}

} // verus!
