//! Paths as strings with `/` separators: the parts of `std::path::Path`
//! that the converter relies on (final component, stem, extension,
//! component prefixes and joining), stated and computed on characters.

use vstd::prelude::*;

use crate::text::{chars_of, string_of, push_char};

verus! {

/// The number of characters after the last `/` of `p` (all of them when it
/// holds none).
pub open spec fn last_segment_len(p: Seq<char>) -> nat
    decreases p.len(),
{
    if p.len() == 0 || p.last() == '/' {
        0
    } else {
        1 + last_segment_len(p.drop_last())
    }
}

/// The final component of `p` when it is a normal one, as
/// `Path::file_name` gives it: trailing separators and `.` segments are
/// skipped, and a path that ends in `..`, or that is a root, `.` or empty,
/// has none.
pub open spec fn file_name_of(p: Seq<char>) -> Option<Seq<char>>
    decreases p.len(),
{
    if p.len() == 0 {
        None
    } else {
        let k = last_segment_len(p);
        let seg = p.subrange(p.len() - k, p.len() as int);
        if k == 0 || seg == seq!['.'] {
            file_name_of(p.drop_last())
        } else if seg == seq!['.', '.'] {
            None
        } else {
            Some(seg)
        }
    }
}

/// The index of the last `.` in `s`, or -1 when it holds none.
pub open spec fn last_dot(s: Seq<char>) -> int
    decreases s.len(),
{
    if s.len() == 0 {
        -1
    } else if s.last() == '.' {
        s.len() - 1
    } else {
        last_dot(s.drop_last())
    }
}

/// `last_dot` points at a `.` of `s`, and no `.` follows it.
pub proof fn lemma_last_dot(s: Seq<char>)
    ensures
        -1 <= last_dot(s) < s.len(),
        last_dot(s) >= 0 ==> s[last_dot(s)] == '.',
        forall|j: int| last_dot(s) < j < s.len() ==> s[j] != '.',
    decreases s.len(),
{
    if s.len() > 0 && s.last() != '.' {
        lemma_last_dot(s.drop_last());
        assert forall|j: int| last_dot(s) < j < s.len() implies s[j] != '.' by {
            if j < s.len() - 1 {
                assert(s.drop_last()[j] == s[j]);
            }
        }
    }
}

/// The stem of a file name, as `Path::file_stem` cuts it: the part before
/// the last `.`, unless that `.` is the first character or there is none.
pub open spec fn stem_of(name: Seq<char>) -> Seq<char> {
    let i = last_dot(name);
    if i <= 0 {
        name
    } else {
        name.subrange(0, i)
    }
}

/// The extension of a file name, as `Path::extension` cuts it: the part
/// after the last `.`, unless that `.` is the first character or there is
/// none.
pub open spec fn extension_of(name: Seq<char>) -> Option<Seq<char>> {
    let i = last_dot(name);
    if i <= 0 {
        None
    } else {
        Some(name.subrange(i + 1, name.len() as int))
    }
}

/// `Path::file_stem`.
pub open spec fn file_stem_of(p: Seq<char>) -> Option<Seq<char>> {
    match file_name_of(p) {
        Some(name) => Some(stem_of(name)),
        None => None,
    }
}

/// `Path::extension`.
pub open spec fn path_extension_of(p: Seq<char>) -> Option<Seq<char>> {
    match file_name_of(p) {
        Some(name) => extension_of(name),
        None => None,
    }
}

/// A path has a stem exactly when it has a file name, and the stem, a `.`
/// and the extension rebuild the file name (the stem is the whole name
/// when there is no extension).
pub proof fn law_stem_and_extension_rebuild_name(p: Seq<char>)
    ensures
        file_stem_of(p) is Some <==> file_name_of(p) is Some,
        file_name_of(p) matches Some(n) ==> match path_extension_of(p) {
            Some(e) => n == stem_of(n) + seq!['.'] + e && file_stem_of(p) == Some(stem_of(n)),
            None => stem_of(n) == n && file_stem_of(p) == Some(n),
        },
{
    if let Some(n) = file_name_of(p) {
        lemma_last_dot(n);
        let i = last_dot(n);
        if i > 0 {
            assert(n =~= n.subrange(0, i) + seq!['.'] + n.subrange(i + 1, n.len() as int));
        }
    }
}

/// `dir.join(rel)`: `rel` itself when it is absolute, else `rel` after
/// `dir`, with one `/` between them unless `dir` is empty or ends in one.
pub open spec fn join_of(dir: Seq<char>, rel: Seq<char>) -> Seq<char> {
    if rel.len() > 0 && rel[0] == '/' {
        rel
    } else if dir.len() == 0 || dir.last() == '/' {
        dir + rel
    } else {
        dir + seq!['/'] + rel
    }
}

/// The number of characters before the first `/` of `p` (all of them when
/// it holds none).
pub open spec fn first_segment_len(p: Seq<char>) -> nat
    decreases p.len(),
{
    if p.len() == 0 || p[0] == '/' {
        0
    } else {
        1 + first_segment_len(p.drop_first())
    }
}

/// `s` without its leading separators and `.` segments, which the
/// components of a path skip past its first component.
pub open spec fn skip_front(s: Seq<char>) -> Seq<char>
    decreases s.len(),
{
    if s.len() > 0 && s[0] == '/' {
        skip_front(s.drop_first())
    } else if s == seq!['.'] {
        Seq::empty()
    } else if s.len() >= 2 && s[0] == '.' && s[1] == '/' {
        skip_front(s.subrange(2, s.len() as int))
    } else {
        s
    }
}

/// `s` without its trailing separators and `.` segments.
pub open spec fn skip_back(s: Seq<char>) -> Seq<char>
    decreases s.len(),
{
    if s.len() > 0 && s.last() == '/' {
        skip_back(s.drop_last())
    } else if s == seq!['.'] {
        Seq::empty()
    } else if s.len() >= 2 && s.last() == '.' && s[s.len() - 2] == '/' {
        skip_back(s.subrange(0, s.len() - 2))
    } else {
        s
    }
}

/// Whether the first component of `p` is `..`; the rest of the path after
/// it is `skip_front(after_first_segment(p))`.
pub open spec fn starts_with_parent(p: Seq<char>) -> bool {
    p.subrange(0, first_segment_len(p) as int) == seq!['.', '.']
}

/// The characters of `p` after its first segment.
pub open spec fn after_first_segment(p: Seq<char>) -> Seq<char> {
    p.subrange(first_segment_len(p) as int, p.len() as int)
}

/// Whether the components of `p` start with `..` and then `name`, as
/// `Path::starts_with("../name")` tests it.
pub open spec fn starts_with_parent_then(p: Seq<char>, name: Seq<char>) -> bool {
    &&& starts_with_parent(p)
    &&& {
        let rest = skip_front(after_first_segment(p));
        rest.subrange(0, first_segment_len(rest) as int) == name
    }
}

/// What `Path::strip_prefix("../")` leaves of a path whose first component
/// is `..`.
pub open spec fn strip_parent(p: Seq<char>) -> Seq<char> {
    skip_back(skip_front(after_first_segment(p)))
}

/// The range `lo..hi` of the final component of `v[0..hi0]`, when that
/// component is a normal one.
fn file_name_range(v: &Vec<char>, hi0: usize) -> (r: Option<(usize, usize)>)
    requires
        hi0 <= v@.len(),
    ensures
        match r {
            Some((lo, hi)) => lo < hi <= hi0 && file_name_of(v@.subrange(0, hi0 as int)) == Some(
                v@.subrange(lo as int, hi as int),
            ),
            None => file_name_of(v@.subrange(0, hi0 as int)) is None,
        },
{
    let mut hi: usize = hi0;
    loop
        invariant
            hi <= hi0 <= v@.len(),
            file_name_of(v@.subrange(0, hi0 as int)) == file_name_of(v@.subrange(0, hi as int)),
        decreases hi,
    {
        if hi == 0 {
            return None;
        }
        assert(v@.subrange(0, hi as int).drop_last() =~= v@.subrange(0, hi - 1));
        if v[hi - 1] == '/' {
            hi = hi - 1;
        } else {
            let mut lo: usize = hi;
            while lo > 0 && v[lo - 1] != '/'
                invariant
                    lo <= hi <= v@.len(),
                    last_segment_len(v@.subrange(0, hi as int)) == (hi - lo) + last_segment_len(
                        v@.subrange(0, lo as int),
                    ),
                decreases lo,
            {
                assert(v@.subrange(0, lo as int).drop_last() =~= v@.subrange(0, lo - 1));
                lo = lo - 1;
            }
            assert(last_segment_len(v@.subrange(0, lo as int)) == 0);
            let ghost seg = v@.subrange(0, hi as int).subrange(lo as int, hi as int);
            assert(seg =~= v@.subrange(lo as int, hi as int));
            if hi - lo == 1 && v[lo] == '.' {
                assert(seg =~= seq!['.']);
                hi = hi - 1;
            } else if hi - lo == 2 && v[lo] == '.' && v[lo + 1] == '.' {
                assert(seg =~= seq!['.', '.']);
                return None;
            } else {
                assert(seg != seq!['.']) by {
                    if seg == seq!['.'] {
                        assert(seg.len() == 1 && seg[0] == '.');
                    }
                }
                assert(seg != seq!['.', '.']) by {
                    if seg == seq!['.', '.'] {
                        assert(seg.len() == 2 && seg[0] == '.' && seg[1] == '.');
                    }
                }
                return Some((lo, hi));
            }
        }
    }
}

/// The index of the last `.` of `v[lo..hi]`, counted from `lo`.
fn last_dot_in(v: &Vec<char>, lo: usize, hi: usize) -> (r: Option<usize>)
    requires
        lo <= hi <= v@.len(),
    ensures
        match r {
            Some(i) => i == last_dot(v@.subrange(lo as int, hi as int)),
            None => last_dot(v@.subrange(lo as int, hi as int)) == -1,
        },
{
    let mut j: usize = hi;
    while j > lo
        invariant
            lo <= j <= hi <= v@.len(),
            last_dot(v@.subrange(lo as int, hi as int)) == last_dot(v@.subrange(lo as int, j as int)),
        decreases j,
    {
        assert(v@.subrange(lo as int, j as int).drop_last() =~= v@.subrange(lo as int, j - 1));
        if v[j - 1] == '.' {
            return Some(j - 1 - lo);
        }
        j = j - 1;
    }
    None
}

/// `Path::file_name`, on a string path: the final component when it is a
/// normal one.
pub fn path_file_name(p: &str) -> (r: Option<String>)
    ensures
        match r {
            Some(s) => file_name_of(p@) == Some(s@),
            None => file_name_of(p@) is None,
        },
{
    let v = chars_of(p);
    assert(v@.subrange(0, v@.len() as int) =~= v@);
    match file_name_range(&v, v.len()) {
        Some((lo, hi)) => Some(string_of(&v, lo, hi)),
        None => None,
    }
}

/// The stem and the extension of a file name.
pub fn split_file_name(name: &str) -> (r: (String, Option<String>))
    ensures
        r.0@ == stem_of(name@),
        match r.1 {
            Some(e) => extension_of(name@) == Some(e@),
            None => extension_of(name@) is None,
        },
{
    let v = chars_of(name);
    let n = v.len();
    assert(v@.subrange(0, n as int) =~= v@);
    proof {
        lemma_last_dot(v@);
    }
    match last_dot_in(&v, 0, n) {
        Some(d) if d > 0 => (string_of(&v, 0, d), Some(string_of(&v, d + 1, n))),
        _ => (string_of(&v, 0, n), None),
    }
}

/// `Path::file_stem`, on a string path.
pub fn path_file_stem(p: &str) -> (r: Option<String>)
    ensures
        match r {
            Some(s) => file_stem_of(p@) == Some(s@),
            None => file_stem_of(p@) is None,
        },
{
    match path_file_name(p) {
        Some(name) => {
            let (stem, _ext) = split_file_name(name.as_str());
            Some(stem)
        },
        None => None,
    }
}

/// `Path::extension`, on a string path.
pub fn path_extension(p: &str) -> (r: Option<String>)
    ensures
        match r {
            Some(s) => path_extension_of(p@) == Some(s@),
            None => path_extension_of(p@) is None,
        },
{
    match path_file_name(p) {
        Some(name) => {
            let (_stem, ext) = split_file_name(name.as_str());
            ext
        },
        None => None,
    }
}

/// `Path::join`, on string paths.
pub fn path_join(dir: &str, rel: &str) -> (r: String)
    ensures
        r@ == join_of(dir@, rel@),
{
    let vd = chars_of(dir);
    let vr = chars_of(rel);
    if vr.len() > 0 && vr[0] == '/' {
        return string_of(&vr, 0, vr.len());
    }
    let mut s = string_of(&vd, 0, vd.len());
    if vd.len() > 0 && vd[vd.len() - 1] != '/' {
        push_char(&mut s, '/');
    }
    let mut i: usize = 0;
    let ghost base = s@;
    while i < vr.len()
        invariant
            i <= vr@.len(),
            s@ == base + vr@.subrange(0, i as int),
        decreases vr.len() - i,
    {
        push_char(&mut s, vr[i]);
        i = i + 1;
        assert(s@ =~= base + vr@.subrange(0, i as int));
    }
    assert(vd@.subrange(0, vd@.len() as int) =~= vd@);
    assert(vr@.subrange(0, vr@.len() as int) =~= vr@);
    s
}

/// The end of the segment of `v` that starts at `a`: the first `/` at or
/// after `a`, or the end of `v`.
fn segment_end(v: &Vec<char>, a: usize) -> (r: usize)
    requires
        a <= v@.len(),
    ensures
        a <= r <= v@.len(),
        r - a == first_segment_len(v@.subrange(a as int, v@.len() as int)),
{
    let n = v.len();
    let mut k: usize = a;
    while k < n && v[k] != '/'
        invariant
            a <= k <= n == v@.len(),
            first_segment_len(v@.subrange(a as int, n as int)) == (k - a) + first_segment_len(
                v@.subrange(k as int, n as int),
            ),
        decreases n - k,
    {
        assert(v@.subrange(k as int, n as int).drop_first() =~= v@.subrange(k + 1, n as int));
        k = k + 1;
    }
    assert(first_segment_len(v@.subrange(k as int, n as int)) == 0);
    k
}

/// When the components of `p` start with `..` and then `name`, the rest of
/// `p` after its `..`, as `Path::strip_prefix("../")` leaves it.
pub fn strip_parent_then(p: &str, name: &str) -> (r: Option<String>)
    ensures
        r is Some <==> starts_with_parent_then(p@, name@),
        r matches Some(s) ==> s@ == strip_parent(p@),
{
    let v = chars_of(p);
    let n = v.len();
    assert(v@.subrange(0, n as int) =~= v@);
    let k = segment_end(&v, 0);
    if !(k == 2 && v[0] == '.' && v[1] == '.') {
        proof {
            if starts_with_parent(p@) {
                let f = p@.subrange(0, first_segment_len(p@) as int);
                assert(f.len() == 2 && f[0] == '.' && f[1] == '.');
            }
        }
        return None;
    }
    assert(v@.subrange(0, k as int) =~= seq!['.', '.']);
    assert(after_first_segment(p@) =~= v@.subrange(k as int, n as int));
    // skip the separators and `.` segments after the `..`
    let mut i: usize = k;
    loop
        invariant
            k <= i <= n == v@.len(),
            skip_front(v@.subrange(k as int, n as int)) == skip_front(
                v@.subrange(i as int, n as int),
            ),
        ensures
            k <= i <= n,
            skip_front(v@.subrange(k as int, n as int)) == v@.subrange(i as int, n as int),
        decreases n - i,
    {
        let ghost s = v@.subrange(i as int, n as int);
        if i < n && v[i] == '/' {
            assert(s.drop_first() =~= v@.subrange(i + 1, n as int));
            i = i + 1;
        } else if i < n && n - i == 1 && v[i] == '.' {
            assert(s =~= seq!['.']);
            assert(v@.subrange(n as int, n as int) =~= Seq::<char>::empty());
            i = n;
        } else if i < n && n - i >= 2 && v[i] == '.' && v[i + 1] == '/' {
            assert(s.subrange(2, s.len() as int) =~= v@.subrange(i + 2, n as int));
            i = i + 2;
        } else {
            proof {
                if s == seq!['.'] {
                    assert(s.len() == 1 && s[0] == '.');
                }
            }
            break;
        }
    }
    let ghost rest = v@.subrange(i as int, n as int);
    assert(skip_front(after_first_segment(p@)) == rest);
    let k2 = segment_end(&v, i);
    assert(rest.subrange(0, first_segment_len(rest) as int) =~= v@.subrange(i as int, k2 as int));
    let seg = string_of(&v, i, k2);
    if !crate::text::str_eq(seg.as_str(), name) {
        return None;
    }
    // drop the trailing separators and `.` segments
    let mut j: usize = n;
    assert(rest =~= v@.subrange(i as int, j as int));
    loop
        invariant
            i <= j <= n == v@.len(),
            skip_back(rest) == skip_back(v@.subrange(i as int, j as int)),
        ensures
            i <= j <= n,
            skip_back(rest) == v@.subrange(i as int, j as int),
        decreases j,
    {
        let ghost s = v@.subrange(i as int, j as int);
        if j > i && v[j - 1] == '/' {
            assert(s.drop_last() =~= v@.subrange(i as int, j - 1));
            j = j - 1;
        } else if j - i == 1 && v[i] == '.' {
            assert(s =~= seq!['.']);
            assert(v@.subrange(i as int, i as int) =~= Seq::<char>::empty());
            j = i;
        } else if j - i >= 2 && v[j - 1] == '.' && v[j - 2] == '/' {
            assert(s.subrange(0, s.len() - 2) =~= v@.subrange(i as int, j - 2));
            j = j - 2;
        } else {
            proof {
                if s == seq!['.'] {
                    assert(s.len() == 1 && s[0] == '.');
                }
            }
            break;
        }
    }
    Some(string_of(&v, i, j))
}

} // verus!
