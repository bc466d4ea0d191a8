use vstd::prelude::*;
use crate::paths::{DirPath, is_prefix_of};
use crate::fstree::{EntryKind, EntryModel, FsSnapshot, dir_at, has_path, is_project_at, wf};

verus! {

/// The contents of a path list: each path as its component sequences.
pub open spec fn paths_view(ps: Seq<DirPath>) -> Seq<Seq<Seq<char>>> {
    ps.map_values(|p: DirPath| p@)
}

pub broadcast proof fn lemma_paths_view_len(ps: Seq<DirPath>)
    ensures
        (#[trigger] paths_view(ps)).len() == ps.len(),
{
}

pub broadcast proof fn lemma_paths_view_index(ps: Seq<DirPath>, i: int)
    requires
        0 <= i < ps.len(),
    ensures
        #[trigger] paths_view(ps)[i] == ps[i]@,
{
}

/// `p` is equal to, or lies below, some entry of the skip list.
pub open spec fn skipped(skips: Seq<DirPath>, p: Seq<Seq<char>>) -> bool {
    exists|k: int| 0 <= k < skips.len() && is_prefix_of(skips[k]@, p)
}

/// `p` lies strictly below some entry of the skip list.
pub open spec fn strictly_inside(skips: Seq<DirPath>, p: Seq<Seq<char>>) -> bool {
    exists|k: int|
        0 <= k < skips.len() && is_prefix_of(skips[k]@, p) && skips[k]@.len() < p.len()
}

/// `e` is a directory entry standing directly below `p`.
pub open spec fn is_child_dir(e: EntryModel, p: Seq<Seq<char>>) -> bool {
    e.kind is Dir && e.path.len() == p.len() + 1 && is_prefix_of(p, e.path)
}

/// A prefix of `c` no longer than another prefix `p` of `c` is a prefix of
/// `p` as well: prefixes of one path are ordered by length.
pub proof fn lemma_prefix_of_prefix(a: Seq<Seq<char>>, p: Seq<Seq<char>>, c: Seq<Seq<char>>)
    requires
        is_prefix_of(a, c),
        is_prefix_of(p, c),
        a.len() <= p.len(),
    ensures
        is_prefix_of(a, p),
{
}

/// Every reported child of `p` stands one level below `p`.
pub proof fn lemma_child_dirs_shape(s: Seq<EntryModel>, p: Seq<Seq<char>>)
    ensures
        forall|c: Seq<Seq<char>>|
            #[trigger] child_dirs(s, p).contains(c) ==> c.len() == p.len() + 1 && is_prefix_of(
                p,
                c,
            ),
    decreases s.len(),
{
    if s.len() == 0 {
    } else {
        lemma_child_dirs_shape(s.drop_first(), p);
        assert forall|c: Seq<Seq<char>>| #[trigger] child_dirs(s, p).contains(c) implies c.len()
            == p.len() + 1 && is_prefix_of(p, c) by {
            if is_child_dir(s[0], p) {
                let j = choose|j: int|
                    0 <= j < child_dirs(s, p).len() && child_dirs(s, p)[j] == c;
                if j == 0 {
                    assert(c == s[0].path);
                } else {
                    assert(child_dirs(s.drop_first(), p)[j - 1] == c);
                    assert(child_dirs(s.drop_first(), p).contains(c));
                }
            } else {
                assert(child_dirs(s.drop_first(), p).contains(c));
            }
        }
    }
}

/// The paths of the directories standing directly below `p`, in entry order.
pub open spec fn child_dirs(s: Seq<EntryModel>, p: Seq<Seq<char>>) -> Seq<Seq<Seq<char>>>
    decreases s.len(),
{
    if s.len() == 0 {
        Seq::empty()
    } else if is_child_dir(s[0], p) {
        seq![s[0].path] + child_dirs(s.drop_first(), p)
    } else {
        child_dirs(s.drop_first(), p)
    }
}

/// What the scanner reports below `p` with `d` levels of descent left: the
/// empty sequence if `p` is skipped; otherwise `p` itself if a project stands
/// there, followed by the reports of `p`'s child directories in order.
pub open spec fn spec_scan(
    s: Seq<EntryModel>,
    skips: Seq<DirPath>,
    p: Seq<Seq<char>>,
    d: nat,
) -> Seq<Seq<Seq<char>>>
    decreases d, 0int,
{
    if skipped(skips, p) {
        Seq::empty()
    } else {
        let here: Seq<Seq<Seq<char>>> = if is_project_at(s, p) {
            seq![p]
        } else {
            Seq::empty()
        };
        if d > 0 {
            here + spec_scan_kids(s, skips, child_dirs(s, p), (d - 1) as nat)
        } else {
            here
        }
    }
}

/// What the scanner reports below each of the directories `ks`, each with `d`
/// levels of descent left, concatenated in order.
pub open spec fn spec_scan_kids(
    s: Seq<EntryModel>,
    skips: Seq<DirPath>,
    ks: Seq<Seq<Seq<char>>>,
    d: nat,
) -> Seq<Seq<Seq<char>>>
    decreases d, ks.len() + 1,
{
    if ks.len() == 0 {
        Seq::empty()
    } else {
        spec_scan(s, skips, ks[0], d) + spec_scan_kids(s, skips, ks.drop_first(), d)
    }
}

/// A candidate of the scan: a project directory within the depth bound that
/// no skip-list entry covers.
pub open spec fn is_candidate(
    s: Seq<EntryModel>,
    skips: Seq<DirPath>,
    max_depth: nat,
    p: Seq<Seq<char>>,
) -> bool {
    &&& is_project_at(s, p)
    &&& p.len() <= max_depth
    &&& !skipped(skips, p)
}

impl FsSnapshot {
    /// The directories standing directly below `p`, in entry order.
    pub fn child_dirs_of(&self, p: &DirPath) -> (r: Vec<DirPath>)
        ensures
            paths_view(r@) == child_dirs(self@, p@),
    {
        broadcast use
            lemma_paths_view_len,
            lemma_paths_view_index,
            crate::fstree::lemma_snap_view_len,
            crate::fstree::lemma_snap_view_index;

        let mut found: Vec<DirPath> = Vec::new();
        proof {
            assert(self@.skip(0) =~= self@);
            assert(paths_view(found@) + child_dirs(self@, p@) =~= child_dirs(self@, p@));
        }
        let mut i: usize = 0;
        while i < self.entries.len()
            invariant
                i <= self.entries.len(),
                self@.len() == self.entries@.len(),
                paths_view(found@) + child_dirs(self@.skip(i as int), p@) == child_dirs(
                    self@,
                    p@,
                ),
            decreases self.entries.len() - i,
        {
            proof {
                assert(self@.skip(i as int).drop_first() =~= self@.skip(i as int + 1));
                assert(self@.skip(i as int)[0] == self@[i as int]);
                assert(self@[i as int] == self.entries@[i as int]@);
            }
            let e = &self.entries[i];
            let is_kid = matches!(e.kind, crate::fstree::EntryKind::Dir) && e.path.parts.len() >= 1
                && e.path.parts.len() - 1 == p.parts.len() && e.path.starts_with(p);
            proof {
                assert(e.path@.len() == e.path.parts@.len());
                assert(p@.len() == p.parts@.len());
                assert(is_kid == is_child_dir(self@[i as int], p@));
            }
            if is_kid {
                let ghost prev = paths_view(found@);
                found.push(e.path.duplicate());
                proof {
                    assert(paths_view(found@) =~= prev.push(self@[i as int].path));
                    assert(prev.push(self@[i as int].path) + child_dirs(self@.skip(i as int + 1), p@)
                        =~= prev + (seq![self@[i as int].path] + child_dirs(
                        self@.skip(i as int + 1),
                        p@,
                    )));
                }
            }
            i = i + 1;
        }
        proof {
            assert(self@.skip(self@.len() as int) =~= Seq::<EntryModel>::empty());
            assert(paths_view(found@) + Seq::<Seq<Seq<char>>>::empty() =~= paths_view(found@));
        }
        found
    }
}

/// Decides `skipped`.
pub fn in_skip_list(skips: &Vec<DirPath>, p: &DirPath) -> (r: bool)
    ensures
        r == skipped(skips@, p@),
{
    let mut k: usize = 0;
    while k < skips.len()
        invariant
            k <= skips.len(),
            forall|j: int| 0 <= j < k ==> !is_prefix_of(skips@[j]@, p@),
        decreases skips.len() - k,
    {
        if p.starts_with(&skips[k]) {
            return true;
        }
        k = k + 1;
    }
    false
}

fn scan_rec(
    snap: &FsSnapshot,
    skips: &Vec<DirPath>,
    p: &DirPath,
    depth_left: usize,
    found: &mut Vec<DirPath>,
    seen: &mut Vec<DirPath>,
)
    requires
        !strictly_inside(skips@, p@),
    ensures
        paths_view(final(found)@) == paths_view(old(found)@) + spec_scan(
            snap@,
            skips@,
            p@,
            depth_left as nat,
        ),
        final(seen)@.len() >= old(seen)@.len(),
        forall|j: int|
            0 <= j < old(seen)@.len() ==> final(seen)@[j] == old(seen)@[j],
        forall|j: int|
            old(seen)@.len() <= j < final(seen)@.len() ==> !strictly_inside(
                skips@,
                #[trigger] final(seen)@[j]@,
            ),
    decreases depth_left,
{
    broadcast use lemma_paths_view_len, lemma_paths_view_index;

    seen.push(p.duplicate());
    if in_skip_list(skips, p) {
        proof {
            assert(paths_view(found@) + Seq::<Seq<Seq<char>>>::empty() =~= paths_view(found@));
        }
        return ;
    }
    let ghost here_and_before = if is_project_at(snap@, p@) {
        paths_view(old(found)@) + seq![p@]
    } else {
        paths_view(old(found)@)
    };
    if snap.is_project(p) {
        let ghost prev = paths_view(found@);
        found.push(p.duplicate());
        proof {
            assert(paths_view(found@) =~= prev.push(p@));
            assert(prev.push(p@) =~= prev + seq![p@]);
        }
    }
    proof {
        assert(paths_view(found@) == here_and_before);
    }
    if depth_left == 0 {
        proof {
            if is_project_at(snap@, p@) {
                assert(paths_view(old(found)@) + seq![p@] =~= paths_view(old(found)@)
                    + spec_scan(snap@, skips@, p@, 0));
            } else {
                assert(paths_view(old(found)@) + Seq::<Seq<Seq<char>>>::empty() =~= paths_view(
                    old(found)@,
                ) + spec_scan(snap@, skips@, p@, 0));
                assert(paths_view(old(found)@) + Seq::<Seq<Seq<char>>>::empty() =~= paths_view(
                    old(found)@,
                ));
            }
        }
        return ;
    }
    let kids = snap.child_dirs_of(p);
    let ghost kv = child_dirs(snap@, p@);
    let ghost d1 = (depth_left - 1) as nat;
    let mut k: usize = 0;
    proof {
        assert(kv.skip(0) =~= kv);
        lemma_child_dirs_shape(snap@, p@);
        assert forall|j: int| 0 <= j < kv.len() implies !strictly_inside(
            skips@,
            #[trigger] kv[j],
        ) by {
            assert(child_dirs(snap@, p@)[j] == kv[j]);
            assert(child_dirs(snap@, p@).contains(kv[j]));
            if strictly_inside(skips@, kv[j]) {
                let n = choose|n: int|
                    0 <= n < skips@.len() && is_prefix_of(skips@[n]@, kv[j]) && skips@[n]@.len()
                        < kv[j].len();
                lemma_prefix_of_prefix(skips@[n]@, p@, kv[j]);
                assert(skipped(skips@, p@));
                assert(false);
            }
        }
    }
    while k < kids.len()
        invariant
            k <= kids.len(),
            paths_view(kids@) == kv,
            kids@.len() == kv.len(),
            !skipped(skips@, p@),
            depth_left >= 1,
            d1 == (depth_left - 1) as nat,
            forall|j: int| 0 <= j < kids@.len() ==> (#[trigger] kids@[j])@ == kv[j],
            forall|j: int| 0 <= j < kv.len() ==> !strictly_inside(skips@, #[trigger] kv[j]),
            paths_view(found@) + spec_scan_kids(snap@, skips@, kv.skip(k as int), d1)
                == here_and_before + spec_scan_kids(snap@, skips@, kv, d1),
            seen@.len() >= old(seen)@.len(),
            forall|j: int| 0 <= j < old(seen)@.len() ==> seen@[j] == old(seen)@[j],
            forall|j: int|
                old(seen)@.len() <= j < seen@.len() ==> !strictly_inside(
                    skips@,
                    #[trigger] seen@[j]@,
                ),
        decreases kids.len() - k,
    {
        proof {
            assert(kv.skip(k as int).drop_first() =~= kv.skip(k as int + 1));
            assert(kv.skip(k as int)[0] == kv[k as int]);
        }
        let ghost fpre = paths_view(found@);
        scan_rec(snap, skips, &kids[k], depth_left - 1, found, seen);
        proof {
            assert(kids@[k as int]@ == kv[k as int]);
            assert(paths_view(found@) == fpre + spec_scan(snap@, skips@, kv[k as int], d1));
            assert((fpre + spec_scan(snap@, skips@, kv[k as int], d1)) + spec_scan_kids(
                snap@,
                skips@,
                kv.skip(k as int + 1),
                d1,
            ) =~= fpre + (spec_scan(snap@, skips@, kv[k as int], d1) + spec_scan_kids(
                snap@,
                skips@,
                kv.skip(k as int + 1),
                d1,
            )));
        }
        k = k + 1;
    }
    proof {
        assert(kv.skip(kv.len() as int) =~= Seq::<Seq<Seq<char>>>::empty());
        assert(paths_view(found@) + Seq::<Seq<Seq<char>>>::empty() =~= paths_view(found@));
        assert(here_and_before + spec_scan_kids(snap@, skips@, kv, d1) =~= paths_view(old(found)@)
            + spec_scan(snap@, skips@, p@, depth_left as nat));
    }
}

/// Prefixes chain: a prefix of a prefix is a prefix.
pub proof fn lemma_prefix_trans(a: Seq<Seq<char>>, b: Seq<Seq<char>>, c: Seq<Seq<char>>)
    requires
        is_prefix_of(a, b),
        is_prefix_of(b, c),
    ensures
        is_prefix_of(a, c),
{
    assert forall|i: int| 0 <= i < a.len() implies a[i] == c[i] by {
        assert(a[i] == b[i]);
        assert(b[i] == c[i]);
    }
}

/// A path one level below an unskipped path is not strictly inside a skipped
/// subtree.
pub proof fn lemma_child_not_inside(skips: Seq<DirPath>, p: Seq<Seq<char>>, c: Seq<Seq<char>>)
    requires
        !skipped(skips, p),
        is_prefix_of(p, c),
        c.len() == p.len() + 1,
    ensures
        !strictly_inside(skips, c),
{
    if strictly_inside(skips, c) {
        let n = choose|n: int|
            0 <= n < skips.len() && is_prefix_of(skips[n]@, c) && skips[n]@.len() < c.len();
        lemma_prefix_of_prefix(skips[n]@, p, c);
        assert(is_prefix_of(skips[n]@, p));
        assert(false);
    }
}

/// Every directory entry standing directly below `p` is reported among `p`'s
/// children.
pub proof fn lemma_child_dirs_membership(s: Seq<EntryModel>, p: Seq<Seq<char>>)
    ensures
        forall|i: int|
            0 <= i < s.len() && is_child_dir(#[trigger] s[i], p) ==> child_dirs(s, p).contains(
                s[i].path,
            ),
    decreases s.len(),
{
    if s.len() == 0 {
    } else {
        lemma_child_dirs_membership(s.drop_first(), p);
        assert forall|i: int|
            0 <= i < s.len() && is_child_dir(#[trigger] s[i], p) implies child_dirs(
            s,
            p,
        ).contains(s[i].path) by {
            if i == 0 {
                assert(child_dirs(s, p)[0] == s[0].path);
            } else {
                assert(s.drop_first()[i - 1] == s[i]);
                assert(child_dirs(s.drop_first(), p).contains(s[i].path));
                let j = choose|j: int|
                    0 <= j < child_dirs(s.drop_first(), p).len() && child_dirs(
                        s.drop_first(),
                        p,
                    )[j] == s[i].path;
                if is_child_dir(s[0], p) {
                    assert(child_dirs(s, p)[j + 1] == s[i].path);
                } else {
                    assert(child_dirs(s, p)[j] == s[i].path);
                }
            }
        }
    }
}

/// A path is reported below one of the directories `ks` exactly when it is
/// reported below some `ks[i]`.
pub proof fn lemma_scan_kids_membership(
    s: Seq<EntryModel>,
    skips: Seq<DirPath>,
    ks: Seq<Seq<Seq<char>>>,
    d: nat,
)
    ensures
        forall|q: Seq<Seq<char>>|
            #[trigger] spec_scan_kids(s, skips, ks, d).contains(q) <==> exists|i: int|
                0 <= i < ks.len() && spec_scan(s, skips, #[trigger] ks[i], d).contains(q),
    decreases ks.len(),
{
    if ks.len() == 0 {
    } else {
        lemma_scan_kids_membership(s, skips, ks.drop_first(), d);
        let first = spec_scan(s, skips, ks[0], d);
        let rest = spec_scan_kids(s, skips, ks.drop_first(), d);
        assert forall|q: Seq<Seq<char>>|
            #[trigger] spec_scan_kids(s, skips, ks, d).contains(q) implies exists|i: int|
            0 <= i < ks.len() && spec_scan(s, skips, #[trigger] ks[i], d).contains(q) by {
            let idx = choose|idx: int|
                0 <= idx < (first + rest).len() && (first + rest)[idx] == q;
            if idx < first.len() {
                assert(first[idx] == q);
                assert(spec_scan(s, skips, ks[0], d).contains(q));
            } else {
                assert(rest[idx - first.len()] == q);
                assert(rest.contains(q));
                let i = choose|i: int|
                    0 <= i < ks.drop_first().len() && spec_scan(
                        s,
                        skips,
                        #[trigger] ks.drop_first()[i],
                        d,
                    ).contains(q);
                assert(ks.drop_first()[i] == ks[i + 1]);
                assert(spec_scan(s, skips, ks[i + 1], d).contains(q));
            }
        }
        assert forall|q: Seq<Seq<char>>|
            exists|i: int|
                0 <= i < ks.len() && spec_scan(s, skips, #[trigger] ks[i], d).contains(
                    q,
                ) implies #[trigger] spec_scan_kids(s, skips, ks, d).contains(q) by {
            let i = choose|i: int|
                0 <= i < ks.len() && spec_scan(s, skips, #[trigger] ks[i], d).contains(q);
            if i == 0 {
                let idx = choose|idx: int| 0 <= idx < first.len() && first[idx] == q;
                assert((first + rest)[idx] == q);
            } else {
                assert(ks.drop_first()[i - 1] == ks[i]);
                assert(rest.contains(q));
                let idx = choose|idx: int| 0 <= idx < rest.len() && rest[idx] == q;
                assert((first + rest)[first.len() + idx] == q);
            }
        }
    }
}

/// Everything the scan below `p` reports is a project directory below `p`,
/// within the depth allowance, and covered by no skip-list entry.
pub proof fn lemma_scan_sound(s: Seq<EntryModel>, skips: Seq<DirPath>, p: Seq<Seq<char>>, d: nat)
    requires
        !strictly_inside(skips, p),
    ensures
        forall|q: Seq<Seq<char>>|
            #[trigger] spec_scan(s, skips, p, d).contains(q) ==> is_project_at(s, q)
                && is_prefix_of(p, q) && q.len() <= p.len() + d && !skipped(skips, q),
    decreases d,
{
    if skipped(skips, p) {
    } else {
        let kv = child_dirs(s, p);
        let here: Seq<Seq<Seq<char>>> = if is_project_at(s, p) {
            seq![p]
        } else {
            Seq::empty()
        };
        lemma_child_dirs_shape(s, p);
        if d > 0 {
            lemma_scan_kids_membership(s, skips, kv, (d - 1) as nat);
        }
        assert forall|q: Seq<Seq<char>>|
            #[trigger] spec_scan(s, skips, p, d).contains(q) implies is_project_at(s, q)
            && is_prefix_of(p, q) && q.len() <= p.len() + d && !skipped(skips, q) by {
            let r = spec_scan(s, skips, p, d);
            let idx = choose|idx: int| 0 <= idx < r.len() && r[idx] == q;
            if idx < here.len() {
                assert(q == p);
            } else {
                let kids_part = spec_scan_kids(s, skips, kv, (d - 1) as nat);
                assert(r == here + kids_part);
                assert(kids_part[idx - here.len()] == q);
                assert(kids_part.contains(q));
                let i = choose|i: int|
                    0 <= i < kv.len() && spec_scan(s, skips, #[trigger] kv[i], (d - 1) as nat)
                        .contains(q);
                assert(kv.contains(kv[i]));
                lemma_child_not_inside(skips, p, kv[i]);
                lemma_scan_sound(s, skips, kv[i], (d - 1) as nat);
                lemma_prefix_trans(p, kv[i], q);
            }
        }
    }
}

/// Every project directory below `p`, within the depth allowance and covered
/// by no skip-list entry, is reported by the scan below `p`.
pub proof fn lemma_scan_complete(
    s: Seq<EntryModel>,
    skips: Seq<DirPath>,
    p: Seq<Seq<char>>,
    d: nat,
    q: Seq<Seq<char>>,
)
    requires
        wf(s),
        !skipped(skips, p),
        is_prefix_of(p, q),
        q.len() <= p.len() + d,
        is_project_at(s, q),
        !skipped(skips, q),
    ensures
        spec_scan(s, skips, p, d).contains(q),
    decreases d,
{
    let r = spec_scan(s, skips, p, d);
    if q.len() == p.len() {
        assert(q =~= p);
        assert(r[0] == p);
        assert(r.contains(q));
    } else {
        let pl = p.len() as int;
        let c = q.take(pl + 1);
        let m = q.push(crate::fstree::marker_name());
        assert(has_path(s, m));
        let em = choose|em: int| 0 <= em < s.len() && s[em].path == m;
        assert(m.take(pl + 1) =~= c);
        assert(1 <= pl + 1 < s[em].path.len());
        assert(dir_at(s, s[em].path.take(pl + 1)));
        assert(dir_at(s, c));
        let ec = choose|ec: int| 0 <= ec < s.len() && s[ec].path == c && s[ec].kind is Dir;
        assert forall|i: int| 0 <= i < pl + 1 implies c[i] == q[i] by {}
        assert(is_prefix_of(p, c)) by {
            assert forall|i: int| 0 <= i < p.len() implies p[i] == c[i] by {
                assert(p[i] == q[i]);
            }
        }
        assert(is_child_dir(s[ec], p));
        lemma_child_dirs_membership(s, p);
        assert(child_dirs(s, p).contains(c));
        assert(is_prefix_of(c, q)) by {
            assert forall|i: int| 0 <= i < c.len() implies c[i] == q[i] by {}
        }
        assert(!skipped(skips, c)) by {
            if skipped(skips, c) {
                let n = choose|n: int| 0 <= n < skips.len() && is_prefix_of(skips[n]@, c);
                lemma_prefix_trans(skips[n]@, c, q);
                assert(skipped(skips, q));
            }
        }
        assert(d >= 1);
        lemma_scan_complete(s, skips, c, (d - 1) as nat, q);
        let kv = child_dirs(s, p);
        lemma_scan_kids_membership(s, skips, kv, (d - 1) as nat);
        let ic = choose|ic: int| 0 <= ic < kv.len() && kv[ic] == c;
        assert(spec_scan(s, skips, kv[ic], (d - 1) as nat).contains(q));
        let kids_part = spec_scan_kids(s, skips, kv, (d - 1) as nat);
        assert(kids_part.contains(q));
        let here: Seq<Seq<Seq<char>>> = if is_project_at(s, p) {
            seq![p]
        } else {
            Seq::empty()
        };
        assert(r == here + kids_part);
        let j = choose|j: int| 0 <= j < kids_part.len() && kids_part[j] == q;
        assert(r[here.len() + j] == q);
        assert(r.contains(q));
    }
}

/// Every reported child of `p` is some entry's path.
proof fn lemma_child_dirs_elements(s: Seq<EntryModel>, p: Seq<Seq<char>>)
    ensures
        forall|c: Seq<Seq<char>>|
            #[trigger] child_dirs(s, p).contains(c) ==> exists|i: int|
                0 <= i < s.len() && s[i].path == c && is_child_dir(#[trigger] s[i], p),
    decreases s.len(),
{
    if s.len() == 0 {
    } else {
        lemma_child_dirs_elements(s.drop_first(), p);
        assert forall|c: Seq<Seq<char>>| #[trigger] child_dirs(s, p).contains(c) implies exists|
            i: int,
        |
            0 <= i < s.len() && s[i].path == c && is_child_dir(#[trigger] s[i], p) by {
            let idx = choose|idx: int|
                0 <= idx < child_dirs(s, p).len() && child_dirs(s, p)[idx] == c;
            if is_child_dir(s[0], p) && idx == 0 {
                assert(s[0].path == c && is_child_dir(s[0], p));
            } else {
                let rest = child_dirs(s.drop_first(), p);
                if is_child_dir(s[0], p) {
                    assert(rest[idx - 1] == c);
                } else {
                    assert(rest[idx] == c);
                }
                assert(rest.contains(c));
                let i = choose|i: int|
                    0 <= i < s.drop_first().len() && s.drop_first()[i].path == c && is_child_dir(
                        #[trigger] s.drop_first()[i],
                        p,
                    );
                assert(s[i + 1] == s.drop_first()[i]);
            }
        }
    }
}

/// With no path listed twice, no child is reported twice.
proof fn lemma_child_dirs_distinct(s: Seq<EntryModel>, p: Seq<Seq<char>>)
    requires
        forall|i: int, j: int| 0 <= i < j < s.len() ==> s[i].path != s[j].path,
    ensures
        child_dirs(s, p).no_duplicates(),
    decreases s.len(),
{
    if s.len() == 0 {
    } else {
        assert forall|i: int, j: int|
            0 <= i < j < s.drop_first().len() implies s.drop_first()[i].path
            != s.drop_first()[j].path by {
            assert(s.drop_first()[i] == s[i + 1]);
            assert(s.drop_first()[j] == s[j + 1]);
        }
        lemma_child_dirs_distinct(s.drop_first(), p);
        lemma_child_dirs_elements(s.drop_first(), p);
        let rest = child_dirs(s.drop_first(), p);
        if is_child_dir(s[0], p) {
            assert(!rest.contains(s[0].path)) by {
                if rest.contains(s[0].path) {
                    let i = choose|i: int|
                        0 <= i < s.drop_first().len() && s.drop_first()[i].path == s[0].path
                            && is_child_dir(#[trigger] s.drop_first()[i], p);
                    assert(s[i + 1].path == s[0].path);
                }
            }
            assert forall|i: int, j: int|
                0 <= i < child_dirs(s, p).len() && 0 <= j < child_dirs(s, p).len() && i
                    != j implies child_dirs(s, p)[i] != child_dirs(s, p)[j] by {
                if i == 0 {
                    assert(child_dirs(s, p)[j] == rest[j - 1]);
                    assert(rest.contains(rest[j - 1]));
                } else if j == 0 {
                    assert(child_dirs(s, p)[i] == rest[i - 1]);
                    assert(rest.contains(rest[i - 1]));
                } else {
                    assert(child_dirs(s, p)[i] == rest[i - 1]);
                    assert(child_dirs(s, p)[j] == rest[j - 1]);
                }
            }
        }
    }
}

/// The scan below `p` reports no path twice: each project directory is
/// presented to the operator at most once.
pub proof fn lemma_scan_nodup(s: Seq<EntryModel>, skips: Seq<DirPath>, p: Seq<Seq<char>>, d: nat)
    requires
        forall|i: int, j: int| 0 <= i < j < s.len() ==> s[i].path != s[j].path,
        !strictly_inside(skips, p),
    ensures
        spec_scan(s, skips, p, d).no_duplicates(),
    decreases d, 0int,
{
    if skipped(skips, p) {
    } else {
        let kv = child_dirs(s, p);
        let here: Seq<Seq<Seq<char>>> = if is_project_at(s, p) {
            seq![p]
        } else {
            Seq::empty()
        };
        if d > 0 {
            lemma_child_dirs_shape(s, p);
            lemma_child_dirs_distinct(s, p);
            assert forall|j: int| 0 <= j < kv.len() implies #[trigger] kv[j].len() == p.len() + 1
                && is_prefix_of(p, kv[j]) && !strictly_inside(skips, kv[j]) by {
                assert(kv.contains(kv[j]));
                lemma_child_not_inside(skips, p, kv[j]);
            }
            let kids_part = spec_scan_kids(s, skips, kv, (d - 1) as nat);
            lemma_scan_kids_nodup(s, skips, kv, (d - 1) as nat, (p.len() + 1) as int);
            lemma_scan_kids_membership(s, skips, kv, (d - 1) as nat);
            assert forall|i: int, j: int|
                0 <= i < spec_scan(s, skips, p, d).len() && 0 <= j < spec_scan(
                    s,
                    skips,
                    p,
                    d,
                ).len() && i != j implies spec_scan(s, skips, p, d)[i] != spec_scan(
                s,
                skips,
                p,
                d,
            )[j] by {
                let r = spec_scan(s, skips, p, d);
                assert(r == here + kids_part);
                if i >= here.len() && j >= here.len() {
                    assert(r[i] == kids_part[i - here.len()]);
                    assert(r[j] == kids_part[j - here.len()]);
                } else if i < here.len() && j >= here.len() {
                    assert(kids_part[j - here.len()] == r[j]);
                    assert(kids_part.contains(r[j]));
                    lemma_scan_kid_is_below(s, skips, kv, (d - 1) as nat, r[j]);
                    let n = choose|n: int| 0 <= n < kv.len() && is_prefix_of(#[trigger] kv[n], r[j]);
                    assert(r[j].len() > p.len());
                } else if j < here.len() && i >= here.len() {
                    assert(kids_part[i - here.len()] == r[i]);
                    assert(kids_part.contains(r[i]));
                    lemma_scan_kid_is_below(s, skips, kv, (d - 1) as nat, r[i]);
                    let n = choose|n: int| 0 <= n < kv.len() && is_prefix_of(#[trigger] kv[n], r[i]);
                    assert(r[i].len() > p.len());
                }
            }
        }
    }
}

/// Anything reported below one of the children `ks` is strictly longer than
/// the child, so it is not the parent itself.
proof fn lemma_scan_kid_is_below(
    s: Seq<EntryModel>,
    skips: Seq<DirPath>,
    ks: Seq<Seq<Seq<char>>>,
    d: nat,
    q: Seq<Seq<char>>,
)
    requires
        forall|j: int|
            0 <= j < ks.len() ==> !strictly_inside(skips, #[trigger] ks[j]),
        spec_scan_kids(s, skips, ks, d).contains(q),
    ensures
        exists|n: int| 0 <= n < ks.len() && is_prefix_of(#[trigger] ks[n], q),
{
    lemma_scan_kids_membership(s, skips, ks, d);
    let n = choose|n: int|
        0 <= n < ks.len() && spec_scan(s, skips, #[trigger] ks[n], d).contains(q);
    lemma_scan_sound(s, skips, ks[n], d);
    assert(is_prefix_of(ks[n], q));
}

/// The reports below distinct same-depth children share nothing, so their
/// concatenation repeats nothing.
proof fn lemma_scan_kids_nodup(
    s: Seq<EntryModel>,
    skips: Seq<DirPath>,
    ks: Seq<Seq<Seq<char>>>,
    d: nat,
    klen: int,
)
    requires
        forall|i: int, j: int| 0 <= i < j < s.len() ==> s[i].path != s[j].path,
        forall|j: int| 0 <= j < ks.len() ==> #[trigger] ks[j].len() == klen,
        forall|j: int| 0 <= j < ks.len() ==> !strictly_inside(skips, #[trigger] ks[j]),
        ks.no_duplicates(),
    ensures
        spec_scan_kids(s, skips, ks, d).no_duplicates(),
    decreases d, ks.len() + 1,
{
    if ks.len() == 0 {
    } else {
        let first = spec_scan(s, skips, ks[0], d);
        let rest = spec_scan_kids(s, skips, ks.drop_first(), d);
        lemma_scan_nodup(s, skips, ks[0], d);
        assert forall|i: int, j: int|
            0 <= i < j < ks.drop_first().len() implies ks.drop_first()[i]
            != ks.drop_first()[j] by {
            assert(ks.drop_first()[i] == ks[i + 1]);
            assert(ks.drop_first()[j] == ks[j + 1]);
        }
        assert forall|j: int| 0 <= j < ks.drop_first().len() implies #[trigger] ks.drop_first()[j]
            .len() == klen && !strictly_inside(skips, ks.drop_first()[j]) by {
            assert(ks.drop_first()[j] == ks[j + 1]);
        }
        lemma_scan_kids_nodup(s, skips, ks.drop_first(), d, klen);
        lemma_scan_sound(s, skips, ks[0], d);
        assert forall|i: int, j: int|
            0 <= i < spec_scan_kids(s, skips, ks, d).len() && 0 <= j < spec_scan_kids(
                s,
                skips,
                ks,
                d,
            ).len() && i != j implies spec_scan_kids(s, skips, ks, d)[i] != spec_scan_kids(
            s,
            skips,
            ks,
            d,
        )[j] by {
            let whole = spec_scan_kids(s, skips, ks, d);
            assert(whole == first + rest);
            if i < first.len() && j >= first.len() {
                lemma_kids_cross_disjoint(s, skips, ks, d, klen, whole[i], whole[j], j - first.len());
            } else if j < first.len() && i >= first.len() {
                lemma_kids_cross_disjoint(s, skips, ks, d, klen, whole[j], whole[i], i - first.len());
            } else if i >= first.len() && j >= first.len() {
                assert(whole[i] == rest[i - first.len()]);
                assert(whole[j] == rest[j - first.len()]);
            }
        }
    }
}

/// Nothing reported below the first child is reported below a later one.
proof fn lemma_kids_cross_disjoint(
    s: Seq<EntryModel>,
    skips: Seq<DirPath>,
    ks: Seq<Seq<Seq<char>>>,
    d: nat,
    klen: int,
    qa: Seq<Seq<char>>,
    qb: Seq<Seq<char>>,
    jb: int,
)
    requires
        ks.len() > 0,
        forall|j: int| 0 <= j < ks.len() ==> #[trigger] ks[j].len() == klen,
        forall|j: int| 0 <= j < ks.len() ==> !strictly_inside(skips, #[trigger] ks[j]),
        ks.no_duplicates(),
        spec_scan(s, skips, ks[0], d).contains(qa),
        0 <= jb < spec_scan_kids(s, skips, ks.drop_first(), d).len(),
        qb == spec_scan_kids(s, skips, ks.drop_first(), d)[jb],
    ensures
        qa != qb,
{
    lemma_scan_sound(s, skips, ks[0], d);
    assert(is_prefix_of(ks[0], qa));
    let rest = spec_scan_kids(s, skips, ks.drop_first(), d);
    assert(rest.contains(qb));
    lemma_scan_kids_membership(s, skips, ks.drop_first(), d);
    let n = choose|n: int|
        0 <= n < ks.drop_first().len() && spec_scan(
            s,
            skips,
            #[trigger] ks.drop_first()[n],
            d,
        ).contains(qb);
    assert(ks.drop_first()[n] == ks[n + 1]);
    assert(!strictly_inside(skips, ks[n + 1]));
    lemma_scan_sound(s, skips, ks[n + 1], d);
    assert(is_prefix_of(ks[n + 1], qb));
    if qa == qb {
        assert(ks[0].len() == ks[n + 1].len());
        assert forall|x: int| 0 <= x < klen implies ks[0][x] == ks[n + 1][x] by {
            assert(ks[0][x] == qa[x]);
            assert(ks[n + 1][x] == qb[x]);
        }
        assert(ks[0] =~= ks[n + 1]);
        assert(false);
    }
}

/// What the scan from the root reports is exactly the set of candidates:
/// a path is reported once for each time it qualifies, and it qualifies
/// exactly when a project stands there, its depth does not exceed the bound,
/// and it is neither a skip-list entry nor below one.
pub proof fn lemma_scan_reports_iff(
    s: Seq<EntryModel>,
    skips: Seq<DirPath>,
    max_depth: nat,
    q: Seq<Seq<char>>,
)
    requires
        wf(s),
    ensures
        spec_scan(s, skips, Seq::<Seq<char>>::empty(), max_depth).contains(q) <==> is_candidate(
            s,
            skips,
            max_depth,
            q,
        ),
{
    let root = Seq::<Seq<char>>::empty();
    assert(!strictly_inside(skips, root));
    lemma_scan_sound(s, skips, root, max_depth);
    if is_candidate(s, skips, max_depth, q) {
        if skipped(skips, root) {
            let n = choose|n: int| 0 <= n < skips.len() && is_prefix_of(skips[n]@, root);
            assert(is_prefix_of(skips[n]@, q));
            assert(skipped(skips, q));
            assert(false);
        }
        assert(is_prefix_of(root, q));
        lemma_scan_complete(s, skips, root, max_depth, q);
    }
}

/// The scan from the root reports each candidate exactly once: together with
/// the membership law, the report is the candidate set in a stable order.
pub proof fn lemma_scan_reports_once(s: Seq<EntryModel>, skips: Seq<DirPath>, max_depth: nat)
    requires
        wf(s),
    ensures
        spec_scan(s, skips, Seq::<Seq<char>>::empty(), max_depth).no_duplicates(),
{
    let root = Seq::<Seq<char>>::empty();
    assert(!strictly_inside(skips, root));
    lemma_scan_nodup(s, skips, root, max_depth);
}

/// With no depth allowance the scan reports at most the root itself.
pub proof fn lemma_depth_zero_at_most_root(
    s: Seq<EntryModel>,
    skips: Seq<DirPath>,
    q: Seq<Seq<char>>,
)
    ensures
        spec_scan(s, skips, Seq::<Seq<char>>::empty(), 0).len() <= 1,
        spec_scan(s, skips, Seq::<Seq<char>>::empty(), 0).contains(q) ==> q
            == Seq::<Seq<char>>::empty(),
{
    let root = Seq::<Seq<char>>::empty();
    let r = spec_scan(s, skips, root, 0);
    if r.contains(q) {
        let idx = choose|idx: int| 0 <= idx < r.len() && r[idx] == q;
        assert(q == root);
    }
}

/// No reported candidate is a skip-list entry or lies below one.
pub proof fn lemma_skipped_never_reported(
    s: Seq<EntryModel>,
    skips: Seq<DirPath>,
    max_depth: nat,
    q: Seq<Seq<char>>,
)
    ensures
        spec_scan(s, skips, Seq::<Seq<char>>::empty(), max_depth).contains(q) ==> !skipped(
            skips,
            q,
        ),
{
    let root = Seq::<Seq<char>>::empty();
    assert(!strictly_inside(skips, root));
    lemma_scan_sound(s, skips, root, max_depth);
}

/// What one scan hands back: the candidate project directories in traversal
/// order, and every directory entry the walk examined.
pub struct ScanOutcome {
    pub candidates: Vec<DirPath>,
    pub examined: Vec<DirPath>,
}

/// Walks the snapshot from its root down to `max_depth`, pruning skipped
/// subtrees, and reports every project directory found, in a stable pre-order.
/// No examined entry lies strictly inside a skipped subtree: a pruned
/// directory is seen once and never entered.
pub fn scan(snap: &FsSnapshot, skips: &Vec<DirPath>, max_depth: usize) -> (r: ScanOutcome)
    ensures
        paths_view(r.candidates@) == spec_scan(
            snap@,
            skips@,
            Seq::<Seq<char>>::empty(),
            max_depth as nat,
        ),
        forall|j: int|
            0 <= j < r.examined@.len() ==> !strictly_inside(
                skips@,
                #[trigger] r.examined@[j]@,
            ),
{
    let mut found: Vec<DirPath> = Vec::new();
    let mut seen: Vec<DirPath> = Vec::new();
    let root = DirPath { parts: Vec::new() };
    proof {
        assert(root@ =~= Seq::<Seq<char>>::empty());
    }
    scan_rec(snap, skips, &root, max_depth, &mut found, &mut seen);
    proof {
        broadcast use lemma_paths_view_len, lemma_paths_view_index;

        assert(paths_view(found@) =~= Seq::<Seq<Seq<char>>>::empty() + paths_view(found@));
    }
    ScanOutcome { candidates: found, examined: seen }
}

} // verus!
