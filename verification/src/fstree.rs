use vstd::prelude::*;
use crate::paths::{DirPath, is_prefix_of};

verus! {

/// What a directory entry is: a regular file with its size in bytes, or a
/// directory.
#[derive(Clone, Copy, PartialEq, Eq, Structural)]
pub enum EntryKind {
    File { size: u64 },
    Dir,
}

/// One entry of a file-system snapshot: a path relative to the scan root
/// together with what stands there.
pub struct FsEntry {
    pub path: DirPath,
    pub kind: EntryKind,
}

/// The mathematical value of an entry: its path components and its kind.
pub struct EntryModel {
    pub path: Seq<Seq<char>>,
    pub kind: EntryKind,
}

impl View for FsEntry {
    type V = EntryModel;

    open spec fn view(&self) -> EntryModel {
        EntryModel { path: self.path@, kind: self.kind }
    }
}

impl FsEntry {
    pub fn duplicate(&self) -> (r: FsEntry)
        ensures
            r@ == self@,
    {
        FsEntry { path: self.path.duplicate(), kind: self.kind }
    }
}

/// A snapshot of the directory tree below a scan root. The root itself is a
/// directory and is not listed; every other entry appears once, in the stable
/// order in which a traversal of the tree reports it.
pub struct FsSnapshot {
    pub entries: Vec<FsEntry>,
}

/// The contents of an entry list: each entry as its mathematical value.
pub open spec fn snap_view(es: Seq<FsEntry>) -> Seq<EntryModel> {
    es.map_values(|e: FsEntry| e@)
}

pub broadcast proof fn lemma_snap_view_len(es: Seq<FsEntry>)
    ensures
        (#[trigger] snap_view(es)).len() == es.len(),
{
}

pub broadcast proof fn lemma_snap_view_index(es: Seq<FsEntry>, i: int)
    requires
        0 <= i < es.len(),
    ensures
        #[trigger] snap_view(es)[i] == es[i]@,
{
}

impl View for FsSnapshot {
    type V = Seq<EntryModel>;

    open spec fn view(&self) -> Seq<EntryModel> {
        snap_view(self.entries@)
    }
}

/// The name of the marker file whose presence makes a directory a project.
pub open spec fn marker_name() -> Seq<char> {
    "swim.toml"@
}

/// The name of the build-output subdirectory of a project.
pub open spec fn build_name() -> Seq<char> {
    "build"@
}

/// The marker-file name as a value.
pub fn marker_name_str() -> (r: String)
    ensures
        r@ == marker_name(),
{
    "swim.toml".to_owned()
}

/// The build-directory name as a value.
pub fn build_name_str() -> (r: String)
    ensures
        r@ == build_name(),
{
    "build".to_owned()
}

/// Some entry of `s` stands at `p`.
pub open spec fn has_path(s: Seq<EntryModel>, p: Seq<Seq<char>>) -> bool {
    exists|i: int| 0 <= i < s.len() && s[i].path == p
}

/// A directory stands at `p`: the scan root itself, or a listed entry of kind
/// `Dir`.
pub open spec fn dir_at(s: Seq<EntryModel>, p: Seq<Seq<char>>) -> bool {
    if p.len() == 0 {
        true
    } else {
        exists|i: int| 0 <= i < s.len() && s[i].path == p && s[i].kind is Dir
    }
}

/// A snapshot is well formed when no path is listed twice, the root's empty
/// path is not listed, and every ancestor of a listed entry is itself listed
/// as a directory.
pub open spec fn wf(s: Seq<EntryModel>) -> bool {
    &&& forall|i: int, j: int| 0 <= i < j < s.len() ==> s[i].path != s[j].path
    &&& forall|i: int| 0 <= i < s.len() ==> s[i].path.len() > 0
    &&& forall|i: int, k: int|
        0 <= i < s.len() && 1 <= k < s[i].path.len() ==> dir_at(s, #[trigger] s[i].path.take(k))
}

/// A project stands at `p`: a directory that directly contains both the
/// marker file and the build-output directory.
pub open spec fn is_project_at(s: Seq<EntryModel>, p: Seq<Seq<char>>) -> bool {
    &&& dir_at(s, p)
    &&& has_path(s, p.push(marker_name()))
    &&& has_path(s, p.push(build_name()))
}

/// How many bytes one entry contributes to the total below `p`: the size of a
/// regular file at `p` or below it, and nothing otherwise.
pub open spec fn entry_bytes(e: EntryModel, p: Seq<Seq<char>>) -> nat {
    if is_prefix_of(p, e.path) {
        match e.kind {
            EntryKind::File { size } => size as nat,
            EntryKind::Dir => 0,
        }
    } else {
        0
    }
}

/// The total size in bytes of all regular files at or below `p`.
pub open spec fn size_under(s: Seq<EntryModel>, p: Seq<Seq<char>>) -> nat
    decreases s.len(),
{
    if s.len() == 0 {
        0
    } else {
        entry_bytes(s[0], p) + size_under(s.drop_first(), p)
    }
}

/// The entries that remain once the subtree rooted at `p` (including `p`
/// itself) is removed, in their original order.
pub open spec fn without_subtree(s: Seq<EntryModel>, p: Seq<Seq<char>>) -> Seq<EntryModel>
    decreases s.len(),
{
    if s.len() == 0 {
        s
    } else if is_prefix_of(p, s[0].path) {
        without_subtree(s.drop_first(), p)
    } else {
        seq![s[0]] + without_subtree(s.drop_first(), p)
    }
}

/// Removing a subtree keeps exactly the entries outside it, each exactly
/// once per occurrence.
pub proof fn lemma_without_subtree_membership(s: Seq<EntryModel>, p: Seq<Seq<char>>)
    ensures
        forall|e: EntryModel|
            #[trigger] without_subtree(s, p).contains(e) <==> s.contains(e) && !is_prefix_of(
                p,
                e.path,
            ),
    decreases s.len(),
{
    if s.len() == 0 {
    } else {
        lemma_without_subtree_membership(s.drop_first(), p);
        let rest = without_subtree(s.drop_first(), p);
        assert forall|e: EntryModel| #[trigger] without_subtree(s, p).contains(e) implies s
            .contains(e) && !is_prefix_of(p, e.path) by {
            let idx = choose|idx: int|
                0 <= idx < without_subtree(s, p).len() && without_subtree(s, p)[idx] == e;
            if is_prefix_of(p, s[0].path) {
                assert(rest[idx] == e);
                assert(rest.contains(e));
                let j = choose|j: int| 0 <= j < s.drop_first().len() && s.drop_first()[j] == e;
                assert(s[j + 1] == e);
            } else {
                if idx == 0 {
                    assert(e == s[0]);
                } else {
                    assert(rest[idx - 1] == e);
                    assert(rest.contains(e));
                    let j = choose|j: int|
                        0 <= j < s.drop_first().len() && s.drop_first()[j] == e;
                    assert(s[j + 1] == e);
                }
            }
        }
        assert forall|e: EntryModel|
            s.contains(e) && !is_prefix_of(p, e.path) implies #[trigger] without_subtree(
            s,
            p,
        ).contains(e) by {
            let idx = choose|idx: int| 0 <= idx < s.len() && s[idx] == e;
            if idx == 0 {
                assert(!is_prefix_of(p, s[0].path));
                assert(without_subtree(s, p)[0] == e);
            } else {
                assert(s.drop_first()[idx - 1] == e);
                assert(s.drop_first().contains(e));
                assert(rest.contains(e));
                let j = choose|j: int| 0 <= j < rest.len() && rest[j] == e;
                if is_prefix_of(p, s[0].path) {
                    assert(without_subtree(s, p)[j] == e);
                } else {
                    assert(without_subtree(s, p)[j + 1] == e);
                }
            }
        }
    }
}

proof fn lemma_without_subtree_distinct(s: Seq<EntryModel>, p: Seq<Seq<char>>)
    requires
        forall|i: int, j: int| 0 <= i < j < s.len() ==> s[i].path != s[j].path,
    ensures
        forall|i: int, j: int|
            0 <= i < j < without_subtree(s, p).len() ==> without_subtree(s, p)[i].path
                != without_subtree(s, p)[j].path,
    decreases s.len(),
{
    if s.len() == 0 {
    } else {
        assert forall|i: int, j: int|
            0 <= i < j < s.drop_first().len() implies s.drop_first()[i].path
            != s.drop_first()[j].path by {
            assert(s.drop_first()[i] == s[i + 1]);
            assert(s.drop_first()[j] == s[j + 1]);
        }
        lemma_without_subtree_distinct(s.drop_first(), p);
        lemma_without_subtree_membership(s.drop_first(), p);
        let rest = without_subtree(s.drop_first(), p);
        if !is_prefix_of(p, s[0].path) {
            assert forall|i: int, j: int|
                0 <= i < j < without_subtree(s, p).len() implies without_subtree(s, p)[i].path
                != without_subtree(s, p)[j].path by {
                if i == 0 {
                    assert(without_subtree(s, p)[0] == s[0]);
                    assert(without_subtree(s, p)[j] == rest[j - 1]);
                    assert(rest.contains(rest[j - 1]));
                    assert(s.drop_first().contains(rest[j - 1]));
                    let k = choose|k: int|
                        0 <= k < s.drop_first().len() && s.drop_first()[k] == rest[j - 1];
                    assert(s[k + 1] == rest[j - 1]);
                } else {
                    assert(without_subtree(s, p)[i] == rest[i - 1]);
                    assert(without_subtree(s, p)[j] == rest[j - 1]);
                }
            }
        }
    }
}

/// Removing a subtree leaves a well-formed snapshot well formed: what
/// remains still lists each path once, below its listed ancestors.
pub proof fn lemma_without_subtree_wf(s: Seq<EntryModel>, p: Seq<Seq<char>>)
    requires
        wf(s),
    ensures
        wf(without_subtree(s, p)),
{
    lemma_without_subtree_distinct(s, p);
    lemma_without_subtree_membership(s, p);
    let r = without_subtree(s, p);
    assert forall|i: int| 0 <= i < r.len() implies r[i].path.len() > 0 by {
        assert(r.contains(r[i]));
        let k = choose|k: int| 0 <= k < s.len() && s[k] == r[i];
    }
    assert forall|i: int, k: int|
        0 <= i < r.len() && 1 <= k < r[i].path.len() implies dir_at(
        r,
        #[trigger] r[i].path.take(k),
    ) by {
        assert(r.contains(r[i]));
        let n = choose|n: int| 0 <= n < s.len() && s[n] == r[i];
        let a = s[n].path.take(k);
        assert(dir_at(s, a));
        let m = choose|m: int| 0 <= m < s.len() && s[m].path == a && s[m].kind is Dir;
        assert(!is_prefix_of(p, a)) by {
            if is_prefix_of(p, a) {
                assert forall|x: int| 0 <= x < p.len() implies p[x] == r[i].path[x] by {
                    assert(p[x] == a[x]);
                }
                assert(is_prefix_of(p, r[i].path));
            }
        }
        assert(s.contains(s[m]));
        assert(r.contains(s[m]));
        let w = choose|w: int| 0 <= w < r.len() && r[w] == s[m];
        assert(r[w].path == a && r[w].kind is Dir);
    }
}

impl FsSnapshot {
    /// An exact copy, entry for entry.
    pub fn duplicate(&self) -> (r: FsSnapshot)
        ensures
            r@ == self@,
    {
        broadcast use lemma_snap_view_len, lemma_snap_view_index;

        let mut entries: Vec<FsEntry> = Vec::new();
        proof {
            assert(snap_view(entries@) =~= self@.take(0));
        }
        let mut i: usize = 0;
        while i < self.entries.len()
            invariant
                i <= self.entries.len(),
                self@.len() == self.entries@.len(),
                snap_view(entries@) == self@.take(i as int),
            decreases self.entries.len() - i,
        {
            let ghost prev = snap_view(entries@);
            entries.push(self.entries[i].duplicate());
            proof {
                assert(self@[i as int] == self.entries@[i as int]@);
                assert(snap_view(entries@) =~= prev.push(self@[i as int]));
                assert(prev.push(self@[i as int]) =~= self@.take(i as int + 1));
            }
            i = i + 1;
        }
        proof {
            assert(self@.take(self@.len() as int) =~= self@);
        }
        FsSnapshot { entries }
    }

    /// Decides `has_path`.
    pub fn contains_path(&self, p: &DirPath) -> (r: bool)
        ensures
            r == has_path(self@, p@),
    {
        broadcast use lemma_snap_view_len, lemma_snap_view_index;

        let mut i: usize = 0;
        while i < self.entries.len()
            invariant
                i <= self.entries.len(),
                self@.len() == self.entries@.len(),
                forall|j: int| 0 <= j < i ==> self@[j].path != p@,
            decreases self.entries.len() - i,
        {
            assert(self@[i as int] == self.entries@[i as int]@);
            if self.entries[i].path.same_as(p) {
                return true;
            }
            i = i + 1;
        }
        false
    }

    /// Decides `dir_at`.
    pub fn is_dir_at(&self, p: &DirPath) -> (r: bool)
        ensures
            r == dir_at(self@, p@),
    {
        broadcast use lemma_snap_view_len, lemma_snap_view_index;

        if p.parts.len() == 0 {
            return true;
        }
        let mut i: usize = 0;
        while i < self.entries.len()
            invariant
                i <= self.entries.len(),
                p@.len() > 0,
                self@.len() == self.entries@.len(),
                forall|j: int| 0 <= j < i ==> !(self@[j].path == p@ && self@[j].kind is Dir),
            decreases self.entries.len() - i,
        {
            assert(self@[i as int] == self.entries@[i as int]@);
            if self.entries[i].path.same_as(p) {
                if matches!(self.entries[i].kind, EntryKind::Dir) {
                    return true;
                }
            }
            i = i + 1;
        }
        false
    }

    /// Decides `is_project_at`.
    pub fn is_project(&self, p: &DirPath) -> (r: bool)
        ensures
            r == is_project_at(self@, p@),
    {
        if !self.is_dir_at(p) {
            return false;
        }
        let marker = p.child(marker_name_str());
        if !self.contains_path(&marker) {
            return false;
        }
        let build = p.child(build_name_str());
        self.contains_path(&build)
    }

    /// Computes the total size of the subtree at `p`, the reclaimable bytes
    /// the operator is shown. `None` only when the true total does not fit in
    /// a machine word.
    pub fn subtree_size(&self, p: &DirPath) -> (r: Option<u64>)
        ensures
            match r {
                Some(n) => n == size_under(self@, p@),
                None => size_under(self@, p@) > u64::MAX,
            },
    {
        broadcast use lemma_snap_view_len, lemma_snap_view_index;

        let mut acc: u64 = 0;
        proof {
            assert(self@.skip(0) =~= self@);
        }
        let mut i: usize = 0;
        while i < self.entries.len()
            invariant
                i <= self.entries.len(),
                self@.len() == self.entries@.len(),
                acc + size_under(self@.skip(i as int), p@) == size_under(self@, p@),
            decreases self.entries.len() - i,
        {
            proof {
                assert(self@.skip(i as int).drop_first() =~= self@.skip(i as int + 1));
                assert(self@.skip(i as int)[0] == self@[i as int]);
                assert(self@[i as int] == self.entries@[i as int]@);
            }
            let piece: u64 = if self.entries[i].path.starts_with(p) {
                match self.entries[i].kind {
                    EntryKind::File { size } => size,
                    EntryKind::Dir => 0,
                }
            } else {
                0
            };
            assert(piece == entry_bytes(self@[i as int], p@));
            match acc.checked_add(piece) {
                Some(next) => {
                    acc = next;
                },
                None => {
                    return None;
                },
            }
            i = i + 1;
        }
        proof {
            assert(self@.skip(self@.len() as int) =~= Seq::<EntryModel>::empty());
        }
        Some(acc)
    }

    /// Removes the subtree rooted at `p`, as deleting that directory does.
    pub fn remove_subtree(&self, p: &DirPath) -> (r: FsSnapshot)
        ensures
            r@ == without_subtree(self@, p@),
    {
        broadcast use lemma_snap_view_len, lemma_snap_view_index;

        let mut kept: Vec<FsEntry> = Vec::new();
        proof {
            assert(self@.skip(0) =~= self@);
            assert(snap_view(kept@) + without_subtree(self@, p@) =~= without_subtree(self@, p@));
        }
        let mut i: usize = 0;
        while i < self.entries.len()
            invariant
                i <= self.entries.len(),
                self@.len() == self.entries@.len(),
                snap_view(kept@) + without_subtree(self@.skip(i as int), p@)
                    == without_subtree(self@, p@),
            decreases self.entries.len() - i,
        {
            proof {
                assert(self@.skip(i as int).drop_first() =~= self@.skip(i as int + 1));
                assert(self@.skip(i as int)[0] == self@[i as int]);
                assert(self@[i as int] == self.entries@[i as int]@);
            }
            if !self.entries[i].path.starts_with(p) {
                let ghost prev = snap_view(kept@);
                kept.push(self.entries[i].duplicate());
                proof {
                    assert(snap_view(kept@) =~= prev.push(self@[i as int]));
                    assert(self@.skip(i as int) =~= seq![self@[i as int]] + self@.skip(
                        i as int + 1,
                    ));
                    assert(prev.push(self@[i as int]) + without_subtree(self@.skip(i as int + 1), p@)
                        =~= prev + (seq![self@[i as int]] + without_subtree(
                        self@.skip(i as int + 1),
                        p@,
                    )));
                }
            }
            i = i + 1;
        }
        proof {
            assert(self@.skip(self@.len() as int) =~= Seq::<EntryModel>::empty());
            assert(snap_view(kept@) + Seq::<EntryModel>::empty() =~= kept@
                .map_values(|e: FsEntry| e@));
        }
        FsSnapshot { entries: kept }
    }
}

} // verus!
