//! The walk through a directory of notes: which entries are kept, and the
//! order in which the walk hands them out.  Reading directories and probing
//! the file system stay with the caller, which hands each entry over with
//! what it found out about it.

use vstd::prelude::*;

use crate::aux::{is_dot_file, is_dot_file_spec};
use crate::paths::{path_extension, path_extension_of};
use crate::text::{chars_of, str_eq, string_of};

verus! {

/// The options of a walk: the extensions of the files to keep (all files
/// when `None`), whether hidden entries are left out, and whether the walk
/// goes down into directories.
pub struct FindOptions {
    pub post_include_ext_opt: Option<Vec<String>>,
    pub exclude_dot: bool,
    pub recursive: bool,
}

impl Default for FindOptions {
    /// No filter on extensions, hidden entries left out, directories
    /// walked into.
    fn default() -> (r: FindOptions)
        ensures
            r.post_include_ext_opt is None,
            r.exclude_dot,
            r.recursive,
    {
        FindOptions { post_include_ext_opt: None, exclude_dot: true, recursive: true }
    }
}

/// An extension as the options hold it: without one leading `.`.
pub open spec fn strip_dot(s: Seq<char>) -> Seq<char> {
    if s.len() > 0 && s[0] == '.' {
        s.drop_first()
    } else {
        s
    }
}

/// An extension given with its leading `.` is kept without it, and one
/// given without is kept as it is: `.md` and `md` keep the same files.
pub proof fn law_strip_dot(e: Seq<char>)
    ensures
        strip_dot(seq!['.'] + e) == e,
        e.len() == 0 || e[0] != '.' ==> strip_dot(e) == e,
{
    assert((seq!['.'] + e).drop_first() =~= e);
}

/// Whether the extensions `exts` hold `e`.
pub open spec fn holds_ext(exts: Seq<String>, e: Seq<char>) -> bool {
    exists|i: int| 0 <= i < exts.len() && #[trigger] exts[i]@ == e
}

/// Whether a walk with the options `opt` keeps the entry at `path`: never a
/// symbolic link; a directory only when the walk is recursive, the
/// caller's exclusion does not hold (`pre_excluded`) and it is not hidden
/// while hidden entries are left out; a file only when its extension is one
/// of the kept ones (if any are given) and it is not hidden while hidden
/// entries are left out.
pub open spec fn keeps(
    opt: FindOptions,
    path: Seq<char>,
    is_symlink: bool,
    is_dir: bool,
    pre_excluded: bool,
) -> bool {
    if is_symlink {
        false
    } else if is_dir {
        opt.recursive && !pre_excluded && !(opt.exclude_dot && is_dot_file_spec(path))
    } else {
        &&& match opt.post_include_ext_opt {
            Some(exts) => match path_extension_of(path) {
                Some(e) => holds_ext(exts@, e),
                None => false,
            },
            None => true,
        }
        &&& !(opt.exclude_dot && is_dot_file_spec(path))
    }
}

/// The view of a list of strings, one by one.
pub open spec fn ext_views(v: Seq<String>) -> Seq<Seq<char>> {
    v.map_values(|s: String| s@)
}

impl FindOptions {
    /// Keeps only the files whose extension is one of `includes`, each
    /// written with or without its leading `.`.
    pub fn with_post_include_ext(self, includes: &[String]) -> (r: FindOptions)
        ensures
            r.exclude_dot == self.exclude_dot,
            r.recursive == self.recursive,
            r.post_include_ext_opt matches Some(exts) && ext_views(exts@) == ext_views(
                includes@,
            ).map_values(|s: Seq<char>| strip_dot(s)),
    {
        let mut exts: Vec<String> = Vec::new();
        let mut i: usize = 0;
        while i < includes.len()
            invariant
                i <= includes@.len(),
                ext_views(exts@) == ext_views(includes@.take(i as int)).map_values(
                    |s: Seq<char>| strip_dot(s),
                ),
            decreases includes.len() - i,
        {
            let v = chars_of(includes[i].as_str());
            let e = if v.len() > 0 && v[0] == '.' {
                assert(v@.subrange(1, v@.len() as int) =~= v@.drop_first());
                string_of(&v, 1, v.len())
            } else {
                assert(v@.subrange(0, v@.len() as int) =~= v@);
                string_of(&v, 0, v.len())
            };
            assert(e@ == strip_dot(includes@[i as int]@));
            let ghost old_exts = exts@;
            exts.push(e);
            assert(ext_views(exts@) =~= ext_views(old_exts).push(e@));
            assert(includes@.take(i + 1) =~= includes@.take(i as int).push(includes@[i as int]));
            assert(ext_views(includes@.take(i + 1)) =~= ext_views(includes@.take(i as int)).push(
                includes@[i as int]@,
            ));
            i = i + 1;
            assert(ext_views(exts@) =~= ext_views(includes@.take(i as int)).map_values(
                |s: Seq<char>| strip_dot(s),
            ));
        }
        assert(includes@.take(includes@.len() as int) =~= includes@);
        FindOptions {
            post_include_ext_opt: Some(exts),
            exclude_dot: self.exclude_dot,
            recursive: self.recursive,
        }
    }

    /// Turns walking into directories on or off.
    pub fn recursive(self, enable: bool) -> (r: FindOptions)
        ensures
            r.recursive == enable,
            r.exclude_dot == self.exclude_dot,
            r.post_include_ext_opt == self.post_include_ext_opt,
    {
        FindOptions { recursive: enable, ..self }
    }

    /// Whether the caller's exclusion is asked about an entry: only for a
    /// directory that is not a symbolic link, in a recursive walk.
    pub fn needs_pre_exclude(&self, is_symlink: bool, is_dir: bool) -> (r: bool)
        ensures
            r == (!is_symlink && is_dir && self.recursive),
    {
        !is_symlink && is_dir && self.recursive
    }

    /// Whether the walk keeps the entry at `path`, given whether it is a
    /// symbolic link, whether it is a directory, and what the caller's
    /// exclusion said of it (`false` when there is none or it was not
    /// asked).
    pub fn verify(&self, path: &str, is_symlink: bool, is_dir: bool, pre_excluded: bool) -> (r:
        bool)
        ensures
            r == keeps(*self, path@, is_symlink, is_dir, pre_excluded),
    {
        if is_symlink {
            return false;
        }
        if is_dir {
            if !self.recursive {
                return false;
            }
            if pre_excluded {
                return false;
            }
            if self.exclude_dot && is_dot_file(path) {
                return false;
            }
            true
        } else {
            match &self.post_include_ext_opt {
                Some(exts) => match path_extension(path) {
                    Some(e) => {
                        let mut found = false;
                        let mut i: usize = 0;
                        while i < exts.len()
                            invariant
                                i <= exts@.len(),
                                found == exists|j: int| 0 <= j < i && #[trigger] exts@[j]@ == e@,
                            decreases exts.len() - i,
                        {
                            if str_eq(exts[i].as_str(), e.as_str()) {
                                found = true;
                            }
                            i = i + 1;
                        }
                        if !found {
                            return false;
                        }
                    },
                    None => {
                        return false;
                    },
                },
                None => {},
            }
            if self.exclude_dot && is_dot_file(path) {
                return false;
            }
            true
        }
    }
}

/// What a walk keeps, entry by entry: never a symbolic link, whether it
/// points to a directory or to a file; a directory only in a recursive walk,
/// when the caller's exclusion does not hold and it is not hidden while
/// hidden entries are left out; a file only when its extension is one of
/// the kept ones (if any are given) and it is not hidden while hidden
/// entries are left out.
pub proof fn law_what_a_walk_keeps(
    opt: FindOptions,
    path: Seq<char>,
    is_symlink: bool,
    is_dir: bool,
    pre_excluded: bool,
)
    ensures
        is_symlink ==> !keeps(opt, path, is_symlink, is_dir, pre_excluded),
        opt.exclude_dot && is_dot_file_spec(path) ==> !keeps(
            opt,
            path,
            is_symlink,
            is_dir,
            pre_excluded,
        ),
        is_dir ==> (keeps(opt, path, is_symlink, is_dir, pre_excluded) <==> !is_symlink
            && opt.recursive && !pre_excluded && !(opt.exclude_dot && is_dot_file_spec(path))),
        !is_dir ==> (keeps(opt, path, is_symlink, is_dir, pre_excluded) <==> !is_symlink && !(
        opt.exclude_dot && is_dot_file_spec(path)) && (opt.post_include_ext_opt matches Some(
            exts,
        ) ==> exists|i: int|
            0 <= i < exts@.len() && path_extension_of(path) == Some(#[trigger] exts@[i]@))),
{
    if !is_dir && !is_symlink {
        if let Some(exts) = opt.post_include_ext_opt {
            if let Some(e) = path_extension_of(path) {
                if holds_ext(exts@, e) {
                    let i = choose|i: int| 0 <= i < exts@.len() && #[trigger] exts@[i]@ == e;
                    assert(path_extension_of(path) == Some(exts@[i]@));
                }
            }
        }
    }
}

/// An entry of a directory, as the caller found it: its path, whether it
/// is a symbolic link, whether it is a directory, and what the caller's
/// exclusion said of it.
pub struct WalkEntry {
    pub path: String,
    pub is_symlink: bool,
    pub is_dir: bool,
    pub pre_excluded: bool,
}

/// What a walk does next: hand out a kept file, go down into a kept
/// directory (the caller reads it and hands its entries back), report an
/// error met on the way, or stop.
pub enum WalkStep {
    Yield(WalkEntry),
    Descend(WalkEntry),
    Fail(String),
    Done,
}

/// Whether the walk keeps an entry.
pub open spec fn keeps_entry(opt: FindOptions, e: WalkEntry) -> bool {
    keeps(opt, e.path@, e.is_symlink, e.is_dir, e.pre_excluded)
}

/// The next step of a walk with the options `opt` and the pending entries
/// `stack` (the last one first), and the entries left pending after it:
/// entries that are not kept are dropped, an error is reported, a kept
/// directory is gone down into, and a kept file is handed out.
pub open spec fn walk_step(opt: FindOptions, stack: Seq<Result<WalkEntry, String>>) -> (
    Seq<Result<WalkEntry, String>>,
    WalkStep,
)
    decreases stack.len(),
{
    if stack.len() == 0 {
        (stack, WalkStep::Done)
    } else {
        let rest = stack.drop_last();
        match stack.last() {
            Err(e) => (rest, WalkStep::Fail(e)),
            Ok(ent) => if keeps_entry(opt, ent) {
                if ent.is_dir {
                    (rest, WalkStep::Descend(ent))
                } else {
                    (rest, WalkStep::Yield(ent))
                }
            } else {
                walk_step(opt, rest)
            },
        }
    }
}

/// A walk through a directory: the entries still pending, the last one
/// first, and its options.
pub struct SynWalk {
    stack: Vec<Result<WalkEntry, String>>,
    opt: FindOptions,
}

impl SynWalk {
    /// The entries still pending; the last one comes first.
    pub closed spec fn pending(&self) -> Seq<Result<WalkEntry, String>> {
        self.stack@
    }

    /// The options of the walk.
    pub closed spec fn options(&self) -> FindOptions {
        self.opt
    }

    /// Keeps only the files whose extension is one of `includes`.
    pub fn post_include_ext(self, includes: &[String]) -> (r: SynWalk)
        ensures
            r.pending() == self.pending(),
            r.options().exclude_dot == self.options().exclude_dot,
            r.options().recursive == self.options().recursive,
            r.options().post_include_ext_opt matches Some(exts) && ext_views(exts@) == ext_views(
                includes@,
            ).map_values(|s: Seq<char>| strip_dot(s)),
    {
        SynWalk { stack: self.stack, opt: self.opt.with_post_include_ext(includes) }
    }

    /// Turns walking into directories on or off.
    pub fn recursive(self, enable: bool) -> (r: SynWalk)
        ensures
            r.pending() == self.pending(),
            r.options().recursive == enable,
            r.options().exclude_dot == self.options().exclude_dot,
            r.options().post_include_ext_opt == self.options().post_include_ext_opt,
    {
        SynWalk { stack: self.stack, opt: self.opt.recursive(enable) }
    }

    /// Replaces the options of the walk.
    pub fn with_opt(self, opt: FindOptions) -> (r: SynWalk)
        ensures
            r.pending() == self.pending(),
            r.options() == opt,
    {
        SynWalk { stack: self.stack, opt }
    }

    /// The options of the walk.
    pub fn opt(&self) -> (r: &FindOptions)
        ensures
            *r == self.options(),
    {
        &self.opt
    }

    /// Adds the entries of a directory that the walk went down into; they
    /// are handed out before the entries pending so far, the last one first.
    pub fn extend(&mut self, entries: Vec<Result<WalkEntry, String>>)
        ensures
            final(self).pending() == old(self).pending() + entries@,
            final(self).options() == old(self).options(),
    {
        let mut entries = entries;
        self.stack.append(&mut entries);
    }

    /// The next step of the walk: pops the pending entries, the last one
    /// first, dropping those it does not keep, until one is to be handed
    /// out, gone down into or reported, or none is left.
    pub fn next_step(&mut self) -> (r: WalkStep)
        ensures
            (final(self).pending(), r) == walk_step(old(self).options(), old(self).pending()),
            final(self).options() == old(self).options(),
            r matches WalkStep::Yield(e) ==> keeps_entry(old(self).options(), e) && !e.is_dir
                && !e.is_symlink,
            r matches WalkStep::Descend(e) ==> keeps_entry(old(self).options(), e) && e.is_dir
                && !e.is_symlink,
            r is Done ==> final(self).pending().len() == 0,
    {
        loop
            invariant
                self.opt == old(self).opt,
                walk_step(old(self).options(), old(self).pending()) == walk_step(
                    self.opt,
                    self.stack@,
                ),
            decreases self.stack@.len(),
        {
            let ghost before = self.stack@;
            match self.stack.pop() {
                None => {
                    return WalkStep::Done;
                },
                Some(Err(e)) => {
                    return WalkStep::Fail(e);
                },
                Some(Ok(ent)) => {
                    assert(before.last() == Ok::<WalkEntry, String>(ent));
                    if self.opt.verify(
                        ent.path.as_str(),
                        ent.is_symlink,
                        ent.is_dir,
                        ent.pre_excluded,
                    ) {
                        if ent.is_dir {
                            return WalkStep::Descend(ent);
                        } else {
                            return WalkStep::Yield(ent);
                        }
                    }
                },
            }
        }
    }
}

/// A walk of a directory whose entries are `entries`, with the default
/// options.
pub fn syn_walk(entries: Vec<Result<WalkEntry, String>>) -> (r: SynWalk)
    ensures
        r.pending() == entries@,
        r.options().post_include_ext_opt is None,
        r.options().exclude_dot,
        r.options().recursive,
{
    SynWalk { stack: entries, opt: FindOptions::default() }
}

/// A directory tree as a walk meets it: each node is an entry as the caller
/// hands it over (or the error met in its place), and the nodes under a
/// directory are what reading that directory gives, in order.
pub struct FsNode {
    pub entry: Result<WalkEntry, String>,
    pub children: Seq<FsNode>,
}

/// The entries of a sequence of nodes, one by one.
pub open spec fn entries_of(nodes: Seq<FsNode>) -> Seq<Result<WalkEntry, String>> {
    nodes.map_values(|n: FsNode| n.entry)
}

/// The number of nodes of a tree.
pub open spec fn tree_size(n: FsNode) -> nat
    decreases n,
{
    1 + forest_size(n.children)
}

/// The number of nodes of a sequence of trees.
pub open spec fn forest_size(s: Seq<FsNode>) -> nat
    decreases s,
{
    if s.len() == 0 {
        0
    } else {
        forest_size(s.subrange(0, s.len() - 1)) + tree_size(s[s.len() - 1])
    }
}

/// What a walk with the options `opt` hands out of a tree: the error met in
/// place of its entry; a kept file; what it hands out of the trees under a
/// kept directory; nothing for an entry that it does not keep.
pub open spec fn walk_of_tree(opt: FindOptions, n: FsNode) -> Seq<WalkStep>
    decreases n,
{
    match n.entry {
        Err(e) => seq![WalkStep::Fail(e)],
        Ok(ent) => if keeps_entry(opt, ent) {
            if ent.is_dir {
                walk_of_forest(opt, n.children)
            } else {
                seq![WalkStep::Yield(ent)]
            }
        } else {
            Seq::empty()
        },
    }
}

/// What a walk hands out of a sequence of pending trees: the last one
/// first, each tree whole before the next.
pub open spec fn walk_of_forest(opt: FindOptions, s: Seq<FsNode>) -> Seq<WalkStep>
    decreases s,
{
    if s.len() == 0 {
        Seq::empty()
    } else {
        walk_of_tree(opt, s[s.len() - 1]) + walk_of_forest(opt, s.subrange(0, s.len() - 1))
    }
}

/// The walk run step by step on the pending trees `nodes`, for at most
/// `fuel` steps: each step is `walk_step` on their entries; where it goes
/// down into a directory, the caller hands over the entries of that
/// directory (`extend`).  What it hands out up to `Done`, or `None` when
/// the steps run out first.
pub open spec fn walk_run(opt: FindOptions, nodes: Seq<FsNode>, fuel: nat) -> Option<
    Seq<WalkStep>,
>
    decreases fuel,
{
    if fuel == 0 {
        None
    } else {
        let (rest, step) = walk_step(opt, entries_of(nodes));
        let j = rest.len() as int;
        match step {
            WalkStep::Done => Some(Seq::empty()),
            WalkStep::Descend(_) => walk_run(opt, nodes.take(j) + nodes[j].children, (fuel - 1) as nat),
            _ => match walk_run(opt, nodes.take(j), (fuel - 1) as nat) {
                Some(out) => Some(seq![step] + out),
                None => None,
            },
        }
    }
}

/// A step of the walk pops the pending entries from the last one on: what
/// it leaves pending is a prefix of them, every entry that it drops on the
/// way is an entry that it does not keep, and the step is decided by the
/// entry just after that prefix.
proof fn lemma_walk_step_pops(opt: FindOptions, st: Seq<Result<WalkEntry, String>>)
    ensures
        ({
            let (rest, step) = walk_step(opt, st);
            let j = rest.len() as int;
            &&& rest == st.take(j)
            &&& step is Done ==> j == 0 && forall|t: int|
                0 <= t < st.len() ==> (#[trigger] st[t] matches Ok(ent) && !keeps_entry(opt, ent))
            &&& !(step is Done) ==> {
                &&& j < st.len()
                &&& forall|t: int|
                    j < t < st.len() ==> (#[trigger] st[t] matches Ok(ent) && !keeps_entry(
                        opt,
                        ent,
                    ))
                &&& match st[j] {
                    Err(e) => step == WalkStep::Fail(e),
                    Ok(ent) => keeps_entry(opt, ent) && if ent.is_dir {
                        step == WalkStep::Descend(ent)
                    } else {
                        step == WalkStep::Yield(ent)
                    },
                }
            }
        }),
    decreases st.len(),
{
    if st.len() == 0 {
        assert(st.take(0) =~= st);
    } else {
        let rest = st.drop_last();
        match st.last() {
            Err(e) => {
                assert(rest =~= st.take(st.len() - 1));
            },
            Ok(ent) => if keeps_entry(opt, ent) {
                assert(rest =~= st.take(st.len() - 1));
            } else {
                lemma_walk_step_pops(opt, rest);
                let (r2, step2) = walk_step(opt, rest);
                assert(walk_step(opt, st) == walk_step(opt, rest));
                assert(r2 =~= st.take(r2.len() as int));
                assert forall|t: int| 0 <= t < rest.len() implies #[trigger] st[t] == rest[t] by {}
                assert(st[st.len() - 1] == Ok::<WalkEntry, String>(ent));
                if step2 is Done {
                    assert forall|t: int| 0 <= t < st.len() implies (#[trigger] st[t] matches Ok(
                        e2,
                    ) && !keeps_entry(opt, e2)) by {
                        if t < rest.len() {
                            assert(rest[t] == st[t]);
                        }
                    }
                } else {
                    let j = r2.len() as int;
                    assert(st[j] == rest[j]);
                    assert forall|t: int| j < t < st.len() implies (#[trigger] st[t] matches Ok(
                        e2,
                    ) && !keeps_entry(opt, e2)) by {
                        if t < rest.len() {
                            assert(rest[t] == st[t]);
                        }
                    }
                }
            },
        }
    }
}

/// The walk hands out of two sequences of pending trees, put together,
/// first what it hands out of the second (the one on top), then of the
/// first.
proof fn lemma_walk_of_forest_concat(opt: FindOptions, a: Seq<FsNode>, b: Seq<FsNode>)
    ensures
        walk_of_forest(opt, a + b) == walk_of_forest(opt, b) + walk_of_forest(opt, a),
    decreases b.len(),
{
    if b.len() == 0 {
        assert(a + b =~= a);
        assert(walk_of_forest(opt, b) + walk_of_forest(opt, a) =~= walk_of_forest(opt, a));
    } else {
        let ab = a + b;
        assert(ab.subrange(0, ab.len() - 1) =~= a + b.subrange(0, b.len() - 1));
        assert(ab[ab.len() - 1] == b[b.len() - 1]);
        lemma_walk_of_forest_concat(opt, a, b.subrange(0, b.len() - 1));
        assert(walk_of_forest(opt, a + b) =~= walk_of_forest(opt, b) + walk_of_forest(opt, a));
    }
}

/// The size of two sequences of trees put together is the sum of theirs.
proof fn lemma_forest_size_concat(a: Seq<FsNode>, b: Seq<FsNode>)
    ensures
        forest_size(a + b) == forest_size(a) + forest_size(b),
    decreases b.len(),
{
    if b.len() == 0 {
        assert(a + b =~= a);
    } else {
        let ab = a + b;
        assert(ab.subrange(0, ab.len() - 1) =~= a + b.subrange(0, b.len() - 1));
        assert(ab[ab.len() - 1] == b[b.len() - 1]);
        lemma_forest_size_concat(a, b.subrange(0, b.len() - 1));
    }
}

/// Trees whose entries the walk drops hand out nothing: the walk hands out
/// of `s` what it hands out of its first `k` trees.
proof fn lemma_walk_of_dropped(opt: FindOptions, s: Seq<FsNode>, k: int)
    requires
        0 <= k <= s.len(),
        forall|t: int|
            k <= t < s.len() ==> (#[trigger] s[t].entry matches Ok(ent) && !keeps_entry(opt, ent)),
    ensures
        walk_of_forest(opt, s) == walk_of_forest(opt, s.take(k)),
        forest_size(s) >= forest_size(s.take(k)),
    decreases s.len() - k,
{
    if k == s.len() {
        assert(s.take(k) =~= s);
    } else {
        let init = s.subrange(0, s.len() - 1);
        assert(init.take(k) =~= s.take(k));
        lemma_walk_of_dropped(opt, init, k);
        assert(walk_of_tree(opt, s[s.len() - 1]) =~= Seq::<WalkStep>::empty());
        assert(walk_of_forest(opt, s) =~= walk_of_forest(opt, init));
    }
}

/// A walk of a finite tree ends: with the caller handing over the entries
/// of each directory that the walk goes down into, the walk of the pending
/// trees `nodes` reaches `Done` within one step more than they have nodes,
/// and hands out on the way exactly `walk_of_forest(opt, nodes)`: every
/// kept file under kept directories once, every error met once, in the
/// order of the pending entries (the last one first, each directory whole).
pub proof fn law_walk_hands_out_tree(opt: FindOptions, nodes: Seq<FsNode>, fuel: nat)
    requires
        fuel > forest_size(nodes),
    ensures
        walk_run(opt, nodes, fuel) == Some(walk_of_forest(opt, nodes)),
    decreases fuel,
{
    let st = entries_of(nodes);
    lemma_walk_step_pops(opt, st);
    let (rest, step) = walk_step(opt, st);
    let j = rest.len() as int;
    assert(entries_of(nodes.take(j)) =~= rest);
    if step is Done {
        assert forall|t: int| 0 <= t < nodes.len() implies (#[trigger] nodes[t].entry matches Ok(
            ent,
        ) && !keeps_entry(opt, ent)) by {
            assert(st[t] == nodes[t].entry);
        }
        lemma_walk_of_dropped(opt, nodes, 0);
        assert(nodes.take(0) =~= Seq::<FsNode>::empty());
    } else {
        assert forall|t: int| j + 1 <= t < nodes.len() implies (#[trigger] nodes[t].entry matches Ok(
            ent,
        ) && !keeps_entry(opt, ent)) by {
            assert(st[t] == nodes[t].entry);
        }
        assert(st[j] == nodes[j].entry);
        lemma_walk_of_dropped(opt, nodes, j + 1);
        let upto = nodes.take(j + 1);
        assert(upto.subrange(0, j) =~= nodes.take(j));
        assert(upto[j] == nodes[j]);
        assert(walk_of_forest(opt, upto) == walk_of_tree(opt, nodes[j]) + walk_of_forest(
            opt,
            nodes.take(j),
        ));
        assert(forest_size(upto) == forest_size(nodes.take(j)) + tree_size(nodes[j]));
        match step {
            WalkStep::Descend(_) => {
                let next = nodes.take(j) + nodes[j].children;
                lemma_forest_size_concat(nodes.take(j), nodes[j].children);
                lemma_walk_of_forest_concat(opt, nodes.take(j), nodes[j].children);
                law_walk_hands_out_tree(opt, next, (fuel - 1) as nat);
            },
            _ => {
                law_walk_hands_out_tree(opt, nodes.take(j), (fuel - 1) as nat);
                assert(walk_of_tree(opt, nodes[j]) =~= seq![step]);
            },
        }
    }
}

/// Whether `ent` is a file of the tree `n` that a walk with the options
/// `opt` keeps, below directories that it keeps: `n` is that file, or a kept
/// directory with it in one of its trees.
pub open spec fn kept_file_in_tree(opt: FindOptions, n: FsNode, ent: WalkEntry) -> bool
    decreases n,
{
    match n.entry {
        Err(_) => false,
        Ok(x) => keeps_entry(opt, x) && if x.is_dir {
            kept_file_in_forest(opt, n.children, ent)
        } else {
            x == ent
        },
    }
}

/// Whether `ent` is a kept file of one of the trees `s`.
pub open spec fn kept_file_in_forest(opt: FindOptions, s: Seq<FsNode>, ent: WalkEntry) -> bool
    decreases s,
{
    exists|i: int| 0 <= i < s.len() && kept_file_in_tree(opt, #[trigger] s[i], ent)
}

/// Whether no entry of the tree `n`, down to its files, is an error.
pub open spec fn tree_without_errors(n: FsNode) -> bool
    decreases n,
{
    n.entry is Ok && forest_without_errors(n.children)
}

/// Whether no entry of the trees `s` is an error.
pub open spec fn forest_without_errors(s: Seq<FsNode>) -> bool
    decreases s,
{
    forall|i: int| 0 <= i < s.len() ==> tree_without_errors(#[trigger] s[i])
}

/// What two runs hand out put together holds what either holds.
proof fn lemma_contains_concat(a: Seq<WalkStep>, b: Seq<WalkStep>, x: WalkStep)
    ensures
        (a + b).contains(x) <==> a.contains(x) || b.contains(x),
{
    if a.contains(x) {
        let i = choose|i: int| 0 <= i < a.len() && a[i] == x;
        assert((a + b)[i] == x);
    }
    if b.contains(x) {
        let i = choose|i: int| 0 <= i < b.len() && b[i] == x;
        assert((a + b)[a.len() + i] == x);
    }
    if (a + b).contains(x) {
        let i = choose|i: int| 0 <= i < (a + b).len() && (a + b)[i] == x;
        if i < a.len() {
            assert(a[i] == x);
        } else {
            assert(b[i - a.len()] == x);
        }
    }
}

/// The files that a walk hands out of a tree are its kept files.
proof fn lemma_walk_of_tree_files(opt: FindOptions, n: FsNode, ent: WalkEntry)
    ensures
        walk_of_tree(opt, n).contains(WalkStep::Yield(ent)) <==> kept_file_in_tree(opt, n, ent),
    decreases n,
{
    match n.entry {
        Err(e) => {
            assert(walk_of_tree(opt, n)[0] == WalkStep::Fail(e));
        },
        Ok(x) => {
            if keeps_entry(opt, x) {
                if x.is_dir {
                    lemma_walk_of_forest_files(opt, n.children, ent);
                } else {
                    assert(walk_of_tree(opt, n)[0] == WalkStep::Yield(x));
                }
            }
        },
    }
}

/// The files that a walk hands out of a sequence of trees are their kept
/// files.
proof fn lemma_walk_of_forest_files(opt: FindOptions, s: Seq<FsNode>, ent: WalkEntry)
    ensures
        walk_of_forest(opt, s).contains(WalkStep::Yield(ent)) <==> kept_file_in_forest(
            opt,
            s,
            ent,
        ),
    decreases s,
{
    if s.len() > 0 {
        let init = s.subrange(0, s.len() - 1);
        let last = s[s.len() - 1];
        lemma_walk_of_tree_files(opt, last, ent);
        lemma_walk_of_forest_files(opt, init, ent);
        lemma_contains_concat(walk_of_tree(opt, last), walk_of_forest(opt, init), WalkStep::Yield(ent));
        if kept_file_in_forest(opt, s, ent) {
            let i = choose|i: int| 0 <= i < s.len() && kept_file_in_tree(opt, #[trigger] s[i], ent);
            if i < s.len() - 1 {
                assert(init[i] == s[i]);
            }
        }
        if kept_file_in_forest(opt, init, ent) {
            let i = choose|i: int|
                0 <= i < init.len() && kept_file_in_tree(opt, #[trigger] init[i], ent);
            assert(s[i] == init[i]);
        }
    }
}

/// A walk hands out nothing but files from a tree without errors.
proof fn lemma_walk_of_tree_only_files(opt: FindOptions, n: FsNode)
    requires
        tree_without_errors(n),
    ensures
        forall|i: int|
            0 <= i < walk_of_tree(opt, n).len() ==> #[trigger] walk_of_tree(opt, n)[i] is Yield,
    decreases n,
{
    if let Ok(x) = n.entry {
        if keeps_entry(opt, x) && x.is_dir {
            lemma_walk_of_forest_only_files(opt, n.children);
        }
    }
}

/// A walk hands out nothing but files from trees without errors.
proof fn lemma_walk_of_forest_only_files(opt: FindOptions, s: Seq<FsNode>)
    requires
        forest_without_errors(s),
    ensures
        forall|i: int|
            0 <= i < walk_of_forest(opt, s).len() ==> #[trigger] walk_of_forest(opt, s)[i] is Yield,
    decreases s,
{
    if s.len() > 0 {
        let init = s.subrange(0, s.len() - 1);
        let last = s[s.len() - 1];
        assert(tree_without_errors(last));
        assert forall|i: int| 0 <= i < init.len() implies tree_without_errors(#[trigger] init[i]) by {
            assert(init[i] == s[i]);
        }
        lemma_walk_of_tree_only_files(opt, last);
        lemma_walk_of_forest_only_files(opt, init);
        let a = walk_of_tree(opt, last);
        let b = walk_of_forest(opt, init);
        assert forall|i: int| 0 <= i < (a + b).len() implies #[trigger] (a + b)[i] is Yield by {
            if i < a.len() {
                assert(a[i] is Yield);
            } else {
                assert(b[i - a.len()] is Yield);
            }
        }
    }
}

/// What a walk of a finite tree hands out, as a set: with the caller
/// handing over the entries of each directory that the walk goes down
/// into, the walk of the pending trees `nodes` ends, and a file is handed
/// out exactly when the walk keeps it and every directory above it in
/// `nodes`; where no entry of the trees is an error, the walk hands out
/// nothing but files.
pub proof fn law_walk_hands_out_kept_files(opt: FindOptions, nodes: Seq<FsNode>, ent: WalkEntry)
    ensures
        walk_run(opt, nodes, forest_size(nodes) + 1) matches Some(out) && (out.contains(
            WalkStep::Yield(ent),
        ) <==> kept_file_in_forest(opt, nodes, ent)) && (forest_without_errors(nodes) ==> forall|
            i: int,
        |
            0 <= i < out.len() ==> #[trigger] out[i] is Yield),
{
    law_walk_hands_out_tree(opt, nodes, forest_size(nodes) + 1);
    lemma_walk_of_forest_files(opt, nodes, ent);
    if forest_without_errors(nodes) {
        lemma_walk_of_forest_only_files(opt, nodes);
    }
}

/// The number of places in the tree `n` where `ent` is a file that a walk
/// with the options `opt` keeps, below directories that it keeps.
pub open spec fn kept_count_in_tree(opt: FindOptions, n: FsNode, ent: WalkEntry) -> nat
    decreases n,
{
    match n.entry {
        Err(_) => 0,
        Ok(x) => if !keeps_entry(opt, x) {
            0
        } else if x.is_dir {
            kept_count_in_forest(opt, n.children, ent)
        } else if x == ent {
            1
        } else {
            0
        },
    }
}

/// The number of places in the trees `s` where `ent` is a kept file.
pub open spec fn kept_count_in_forest(opt: FindOptions, s: Seq<FsNode>, ent: WalkEntry) -> nat
    decreases s,
{
    if s.len() == 0 {
        0
    } else {
        kept_count_in_forest(opt, s.subrange(0, s.len() - 1), ent) + kept_count_in_tree(
            opt,
            s[s.len() - 1],
            ent,
        )
    }
}

/// The number of times `x` occurs in `s`.
pub open spec fn occurrences(s: Seq<WalkStep>, x: WalkStep) -> nat
    decreases s.len(),
{
    if s.len() == 0 {
        0
    } else {
        occurrences(s.drop_last(), x) + if s.last() == x {
            1nat
        } else {
            0nat
        }
    }
}

/// Occurrences in two sequences put together add up.
proof fn lemma_occurrences_concat(a: Seq<WalkStep>, b: Seq<WalkStep>, x: WalkStep)
    ensures
        occurrences(a + b, x) == occurrences(a, x) + occurrences(b, x),
    decreases b.len(),
{
    if b.len() == 0 {
        assert(a + b =~= a);
    } else {
        assert((a + b).drop_last() =~= a + b.drop_last());
        lemma_occurrences_concat(a, b.drop_last(), x);
    }
}

/// A walk hands a file out of a tree as often as the tree keeps it.
proof fn lemma_walk_of_tree_count(opt: FindOptions, n: FsNode, ent: WalkEntry)
    ensures
        occurrences(walk_of_tree(opt, n), WalkStep::Yield(ent)) == kept_count_in_tree(opt, n, ent),
    decreases n,
{
    reveal_with_fuel(occurrences, 2);
    match n.entry {
        Err(e) => {
            assert(seq![WalkStep::Fail(e)].drop_last() =~= Seq::<WalkStep>::empty());
        },
        Ok(x) => {
            if keeps_entry(opt, x) {
                if x.is_dir {
                    lemma_walk_of_forest_count(opt, n.children, ent);
                } else {
                    assert(seq![WalkStep::Yield(x)].drop_last() =~= Seq::<WalkStep>::empty());
                }
            }
        },
    }
}

/// A walk hands a file out of a sequence of trees as often as they keep it.
proof fn lemma_walk_of_forest_count(opt: FindOptions, s: Seq<FsNode>, ent: WalkEntry)
    ensures
        occurrences(walk_of_forest(opt, s), WalkStep::Yield(ent)) == kept_count_in_forest(
            opt,
            s,
            ent,
        ),
    decreases s,
{
    if s.len() > 0 {
        let init = s.subrange(0, s.len() - 1);
        let last = s[s.len() - 1];
        lemma_walk_of_tree_count(opt, last, ent);
        lemma_walk_of_forest_count(opt, init, ent);
        lemma_occurrences_concat(walk_of_tree(opt, last), walk_of_forest(opt, init), WalkStep::Yield(ent));
    }
}

/// A walk of a finite tree hands each kept file out as many times as the
/// tree holds it: a file that stands at one place of the tree, under
/// directories that the walk keeps, is handed out exactly once.
pub proof fn law_walk_hands_out_each_file_once(opt: FindOptions, nodes: Seq<FsNode>, ent: WalkEntry)
    ensures
        walk_run(opt, nodes, forest_size(nodes) + 1) matches Some(out) && occurrences(
            out,
            WalkStep::Yield(ent),
        ) == kept_count_in_forest(opt, nodes, ent),
{
    law_walk_hands_out_tree(opt, nodes, forest_size(nodes) + 1);
    lemma_walk_of_forest_count(opt, nodes, ent);
}

} // verus!
