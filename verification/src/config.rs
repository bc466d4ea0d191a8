use vstd::prelude::*;
use crate::paths::{DirPath, is_prefix_of};

verus! {

/// The depth bound used when no other is given.
pub const DEFAULT_MAX_DEPTH: usize = 100;

/// The file name looked up in the chosen config directory.
pub fn config_file_name() -> (r: String)
    ensures
        r@ == "swim-clean-all.toml"@,
{
    "swim-clean-all.toml".to_owned()
}

/// The directory searched for the config file: the config-home environment
/// value when set, else the platform's local config directory, else the
/// literal home-relative fallback.
pub fn choose_config_dir(config_home: Option<String>, platform_default: Option<String>) -> (r:
    String)
    ensures
        r@ == (match config_home {
            Option::Some(x) => x@,
            Option::None => match platform_default {
                Option::Some(p) => p@,
                Option::None => "~/.config"@,
            },
        }),
{
    match config_home {
        Option::Some(x) => x,
        Option::None => match platform_default {
            Option::Some(p) => p,
            Option::None => "~/.config".to_owned(),
        },
    }
}

/// Appends the config file's skip entries after the command line's: the two
/// sources are cumulative, the command line first.
pub fn merge_skip_lists(cli: Vec<String>, extra: Option<Vec<String>>) -> (r: Vec<String>)
    ensures
        r@ == (match extra {
            Option::Some(e) => cli@ + e@,
            Option::None => cli@,
        }),
{
    let mut out = cli;
    match extra {
        Option::Some(e) => {
            let ghost base = out@;
            let mut i: usize = 0;
            proof {
                assert(base + e@.take(0) =~= base);
            }
            while i < e.len()
                invariant
                    i <= e.len(),
                    out@ == base + e@.take(i as int),
                decreases e.len() - i,
            {
                out.push(e[i].clone());
                proof {
                    assert(base + e@.take(i as int + 1) =~= (base + e@.take(i as int)).push(
                        e@[i as int],
                    ));
                }
                i = i + 1;
            }
            proof {
                assert(e@.take(e@.len() as int) =~= e@);
            }
            out
        },
        Option::None => out,
    }
}

/// What one absolute skip entry means below the search root: the entry
/// relative to the root where the root covers it; the root's own empty path
/// where the entry covers the whole root; nothing where the two are
/// unrelated, since no path below the root can then lie below the entry.
pub open spec fn rel_skip(root: Seq<Seq<char>>, s: Seq<Seq<char>>) -> Option<Seq<Seq<char>>> {
    if is_prefix_of(root, s) {
        Option::Some(s.skip(root.len() as int))
    } else if is_prefix_of(s, root) {
        Option::Some(Seq::empty())
    } else {
        Option::None
    }
}

/// The whole skip list carried below the search root.
pub open spec fn rel_skips(root: Seq<Seq<char>>, ss: Seq<DirPath>) -> Seq<Seq<Seq<char>>>
    decreases ss.len(),
{
    if ss.len() == 0 {
        Seq::empty()
    } else {
        match rel_skip(root, ss[0]@) {
            Option::Some(p) => seq![p] + rel_skips(root, ss.drop_first()),
            Option::None => rel_skips(root, ss.drop_first()),
        }
    }
}

/// Whether some of the path lists covers `p`.
pub open spec fn covered_by(views: Seq<Seq<Seq<char>>>, p: Seq<Seq<char>>) -> bool {
    exists|k: int| 0 <= k < views.len() && is_prefix_of(views[k], p)
}

proof fn lemma_rel_skip_covers(root: Seq<Seq<char>>, s: Seq<Seq<char>>, q: Seq<Seq<char>>)
    ensures
        match rel_skip(root, s) {
            Option::Some(p0) => is_prefix_of(p0, q) == is_prefix_of(s, root + q),
            Option::None => !is_prefix_of(s, root + q),
        },
{
    let rl = root.len() as int;
    let whole = root + q;
    if is_prefix_of(root, s) {
        let p0 = s.skip(rl);
        if is_prefix_of(p0, q) {
            assert forall|i: int| 0 <= i < s.len() implies s[i] == whole[i] by {
                if i >= rl {
                    assert(s[i] == p0[i - rl]);
                    assert(p0[i - rl] == q[i - rl]);
                }
            }
            assert(is_prefix_of(s, whole));
        }
        if is_prefix_of(s, whole) {
            assert forall|i: int| 0 <= i < p0.len() implies p0[i] == q[i] by {
                assert(p0[i] == s[i + rl]);
                assert(s[i + rl] == whole[i + rl]);
            }
            assert(is_prefix_of(p0, q));
        }
    } else if is_prefix_of(s, root) {
        assert forall|i: int| 0 <= i < s.len() implies s[i] == whole[i] by {
            assert(s[i] == root[i]);
        }
        assert(is_prefix_of(s, whole));
        assert(is_prefix_of(Seq::<Seq<char>>::empty(), q));
    } else {
        if is_prefix_of(s, whole) {
            if s.len() <= root.len() {
                assert forall|i: int| 0 <= i < s.len() implies s[i] == root[i] by {
                    assert(s[i] == whole[i]);
                }
                assert(is_prefix_of(s, root));
            } else {
                assert forall|i: int| 0 <= i < root.len() implies root[i] == s[i] by {
                    assert(s[i] == whole[i]);
                }
                assert(is_prefix_of(root, s));
            }
            assert(false);
        }
    }
}

/// What the relative skip list means: it covers a root-relative path exactly
/// when some absolute skip entry covers the same path written below the
/// absolute root. Pruning by the carried list is pruning by the absolute one.
pub proof fn lemma_rel_skips_semantics(root: Seq<Seq<char>>, ss: Seq<DirPath>, q: Seq<Seq<char>>)
    ensures
        covered_by(rel_skips(root, ss), q) <==> (exists|k: int|
            0 <= k < ss.len() && is_prefix_of((#[trigger] ss[k])@, root + q)),
    decreases ss.len(),
{
    if ss.len() == 0 {
    } else {
        lemma_rel_skips_semantics(root, ss.drop_first(), q);
        lemma_rel_skip_covers(root, ss[0]@, q);
        let rest = rel_skips(root, ss.drop_first());
        match rel_skip(root, ss[0]@) {
            Option::Some(p0) => {
                let all = seq![p0] + rest;
                assert(rel_skips(root, ss) == all);
                if covered_by(all, q) {
                    let k = choose|k: int| 0 <= k < all.len() && is_prefix_of(all[k], q);
                    if k == 0 {
                        assert(is_prefix_of(ss[0]@, root + q));
                    } else {
                        assert(all[k] == rest[k - 1]);
                        assert(covered_by(rest, q));
                        let n = choose|n: int|
                            0 <= n < ss.drop_first().len() && is_prefix_of(
                                (#[trigger] ss.drop_first()[n])@,
                                root + q,
                            );
                        assert(ss.drop_first()[n] == ss[n + 1]);
                        assert(is_prefix_of(ss[n + 1]@, root + q));
                    }
                }
                if exists|k: int| 0 <= k < ss.len() && is_prefix_of((#[trigger] ss[k])@, root + q) {
                    let k = choose|k: int|
                        0 <= k < ss.len() && is_prefix_of((#[trigger] ss[k])@, root + q);
                    if k == 0 {
                        assert(all[0] == p0);
                        assert(is_prefix_of(all[0], q));
                        assert(covered_by(all, q));
                    } else {
                        assert(ss.drop_first()[k - 1] == ss[k]);
                        assert(covered_by(rest, q));
                        let n = choose|n: int| 0 <= n < rest.len() && is_prefix_of(rest[n], q);
                        assert(all[n + 1] == rest[n]);
                        assert(covered_by(all, q));
                    }
                }
            },
            Option::None => {
                assert(rel_skips(root, ss) == rest);
                if covered_by(rest, q) {
                    let n = choose|n: int|
                        0 <= n < ss.drop_first().len() && is_prefix_of(
                            (#[trigger] ss.drop_first()[n])@,
                            root + q,
                        );
                    assert(ss.drop_first()[n] == ss[n + 1]);
                    assert(is_prefix_of(ss[n + 1]@, root + q));
                }
                if exists|k: int| 0 <= k < ss.len() && is_prefix_of((#[trigger] ss[k])@, root + q) {
                    let k = choose|k: int|
                        0 <= k < ss.len() && is_prefix_of((#[trigger] ss[k])@, root + q);
                    assert(k != 0);
                    assert(ss.drop_first()[k - 1] == ss[k]);
                    assert(covered_by(rest, q));
                }
            },
        }
    }
}

/// Carrying the skip list below the root changes nothing about what is
/// pruned: the carried list covers a root-relative path exactly when the
/// absolute list covers the same path written below the root.
pub proof fn lemma_relativize_preserves_skipping(
    root: Seq<Seq<char>>,
    ss: Seq<DirPath>,
    rel: Seq<DirPath>,
    q: Seq<Seq<char>>,
)
    requires
        crate::scan::paths_view(rel) == rel_skips(root, ss),
    ensures
        crate::scan::skipped(rel, q) <==> crate::scan::skipped(ss, root + q),
{
    broadcast use crate::scan::lemma_paths_view_len, crate::scan::lemma_paths_view_index;

    lemma_rel_skips_semantics(root, ss, q);
    if crate::scan::skipped(rel, q) {
        let k = choose|k: int| 0 <= k < rel.len() && is_prefix_of((#[trigger] rel[k])@, q);
        assert(rel_skips(root, ss)[k] == rel[k]@);
        assert(is_prefix_of(rel_skips(root, ss)[k], q));
        assert(covered_by(rel_skips(root, ss), q));
        let n = choose|n: int| 0 <= n < ss.len() && is_prefix_of((#[trigger] ss[n])@, root + q);
        assert(crate::scan::skipped(ss, root + q));
    }
    if crate::scan::skipped(ss, root + q) {
        let n = choose|n: int| 0 <= n < ss.len() && is_prefix_of((#[trigger] ss[n])@, root + q);
        assert(exists|k: int| 0 <= k < ss.len() && is_prefix_of((#[trigger] ss[k])@, root + q));
        assert(covered_by(rel_skips(root, ss), q));
        let k = choose|k: int|
            0 <= k < rel_skips(root, ss).len() && is_prefix_of(
                #[trigger] rel_skips(root, ss)[k],
                q,
            );
        assert(rel[k]@ == rel_skips(root, ss)[k]);
        assert(is_prefix_of(rel[k]@, q));
        assert(crate::scan::skipped(rel, q));
    }
}

/// Carries a list of canonical absolute skip paths below the canonical
/// search root, so that the scan can compare root-relative paths.
pub fn relativize_skips(root: &DirPath, skips: &Vec<DirPath>) -> (r: Vec<DirPath>)
    ensures
        crate::scan::paths_view(r@) == rel_skips(root@, skips@),
{
    broadcast use
        crate::scan::lemma_paths_view_len,
        crate::scan::lemma_paths_view_index,
        crate::paths::lemma_parts_view_len,
        crate::paths::lemma_parts_view_index;

    let mut out: Vec<DirPath> = Vec::new();
    proof {
        assert(skips@.skip(0) =~= skips@);
        assert(crate::scan::paths_view(out@) + rel_skips(root@, skips@) =~= rel_skips(
            root@,
            skips@,
        ));
    }
    let mut i: usize = 0;
    while i < skips.len()
        invariant
            i <= skips.len(),
            crate::scan::paths_view(out@) + rel_skips(root@, skips@.skip(i as int)) == rel_skips(
                root@,
                skips@,
            ),
        decreases skips.len() - i,
    {
        proof {
            assert(skips@.skip(i as int).drop_first() =~= skips@.skip(i as int + 1));
            assert(skips@.skip(i as int)[0] == skips@[i as int]);
        }
        let s = &skips[i];
        let ghost prev = crate::scan::paths_view(out@);
        if s.starts_with(root) {
            let mut rel_parts: Vec<String> = Vec::new();
            let mut k: usize = root.parts.len();
            proof {
                assert(crate::paths::parts_view(rel_parts@) =~= s@.skip(root@.len() as int).take(
                    0,
                ));
                assert(s@.len() == s.parts@.len());
                assert(root@.len() == root.parts@.len());
            }
            while k < s.parts.len()
                invariant
                    root.parts.len() <= k <= s.parts.len(),
                    s@.len() == s.parts@.len(),
                    root@.len() == root.parts@.len(),
                    root@.len() <= s@.len(),
                    crate::paths::parts_view(rel_parts@) == s@.skip(root@.len() as int).take(
                        k - root@.len(),
                    ),
                decreases s.parts.len() - k,
            {
                rel_parts.push(s.parts[k].clone());
                proof {
                    broadcast use crate::paths::lemma_parts_view_len,
                        crate::paths::lemma_parts_view_index;

                    assert(crate::paths::parts_view(rel_parts@) =~= s@.skip(
                        root@.len() as int,
                    ).take(k - root@.len() + 1));
                }
                k = k + 1;
            }
            let rel = DirPath { parts: rel_parts };
            proof {
                assert(s@.skip(root@.len() as int).take(s@.len() - root@.len()) =~= s@.skip(
                    root@.len() as int,
                ));
                assert(rel@ == s@.skip(root@.len() as int));
            }
            out.push(rel);
            proof {
                assert(crate::scan::paths_view(out@) =~= prev.push(s@.skip(root@.len() as int)));
                assert(prev.push(s@.skip(root@.len() as int)) + rel_skips(
                    root@,
                    skips@.skip(i as int + 1),
                ) =~= prev + (seq![s@.skip(root@.len() as int)] + rel_skips(
                    root@,
                    skips@.skip(i as int + 1),
                )));
            }
        } else if root.starts_with(s) {
            let empty_rel = DirPath { parts: Vec::new() };
            proof {
                assert(empty_rel@ =~= Seq::<Seq<char>>::empty());
            }
            out.push(empty_rel);
            proof {
                assert(crate::scan::paths_view(out@) =~= prev.push(Seq::<Seq<char>>::empty()));
                assert(prev.push(Seq::<Seq<char>>::empty()) + rel_skips(
                    root@,
                    skips@.skip(i as int + 1),
                ) =~= prev + (seq![Seq::<Seq<char>>::empty()] + rel_skips(
                    root@,
                    skips@.skip(i as int + 1),
                )));
            }
        }
        i = i + 1;
    }
    proof {
        assert(skips@.skip(skips@.len() as int) =~= Seq::<DirPath>::empty());
        assert(crate::scan::paths_view(out@) + Seq::<Seq<Seq<char>>>::empty() =~= crate::scan::paths_view(
            out@,
        ));
    }
    out
}

} // verus!
