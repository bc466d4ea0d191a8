use vstd::prelude::*;
use crate::paths::DirPath;
use crate::fstree::{EntryModel, FsSnapshot, build_name, build_name_str, size_under};
use crate::scan::{scan, spec_scan, paths_view};
use crate::cleanup::{
    CleanupOutcome, CleanupAction, cleanup_result, freed_from, lines_view, run_cleanup, sum_from,
    yes_at,
};

verus! {

/// The bytes the build subtrees of the candidates from `i` on hold together:
/// what the pre-scan summary adds up.
pub open spec fn potential_from(s: Seq<EntryModel>, cands: Seq<Seq<Seq<char>>>, i: int) -> nat
    decreases cands.len() - i,
{
    if i < 0 || i >= cands.len() {
        0
    } else {
        size_under(s, cands[i].push(build_name())) + potential_from(s, cands, i + 1)
    }
}

/// The bytes freed when each affirmative answer deletes its candidate's
/// build subtree.
pub open spec fn freed_of(
    s: Seq<EntryModel>,
    cands: Seq<Seq<Seq<char>>>,
    answers: Seq<Seq<char>>,
    i: int,
) -> nat
    decreases cands.len() - i,
{
    if i < 0 || i >= cands.len() {
        0
    } else {
        (if yes_at(answers, i) {
            size_under(s, cands[i].push(build_name()))
        } else {
            0
        }) + freed_of(s, cands, answers, i + 1)
    }
}

proof fn lemma_sum_eq_potential(
    s: Seq<EntryModel>,
    cands: Seq<Seq<Seq<char>>>,
    sizes: Seq<u64>,
    i: int,
)
    requires
        sizes.len() == cands.len(),
        forall|j: int|
            0 <= j < cands.len() ==> sizes[j] as nat == size_under(
                s,
                (#[trigger] cands[j]).push(build_name()),
            ),
    ensures
        sum_from(sizes, i) == potential_from(s, cands, i),
    decreases cands.len() - i,
{
    if i < 0 || i >= cands.len() {
    } else {
        lemma_sum_eq_potential(s, cands, sizes, i + 1);
    }
}

proof fn lemma_freed_eq(
    s: Seq<EntryModel>,
    cands: Seq<Seq<Seq<char>>>,
    answers: Seq<Seq<char>>,
    sizes: Seq<u64>,
    i: int,
)
    requires
        sizes.len() == cands.len(),
        forall|j: int|
            0 <= j < cands.len() ==> sizes[j] as nat == size_under(
                s,
                (#[trigger] cands[j]).push(build_name()),
            ),
    ensures
        freed_from(sizes, answers, i) == freed_of(s, cands, answers, i),
    decreases cands.len() - i,
{
    if i < 0 || i >= cands.len() {
    } else {
        lemma_freed_eq(s, cands, answers, sizes, i + 1);
    }
}

proof fn lemma_potential_covers(s: Seq<EntryModel>, cands: Seq<Seq<Seq<char>>>, j: int, i: int)
    requires
        0 <= j <= i < cands.len(),
    ensures
        potential_from(s, cands, j) >= size_under(s, cands[i].push(build_name())),
    decreases i - j,
{
    if j < i {
        lemma_potential_covers(s, cands, j + 1, i);
    }
}

/// How a whole run over one snapshot ends.
pub enum RunOutcome {
    /// The scan found no candidate: nothing is sized, nobody is prompted,
    /// and the run ends successfully with nothing to do.
    NothingFound,
    /// The reclaimable bytes cannot be totalled in a machine word; the run
    /// aborts before any prompt, as a failed size computation does.
    SizeOverflow,
    /// The interactive loop ran to the end.
    Done {
        outcomes: Vec<CleanupOutcome>,
        total_reclaimable: u64,
        total_freed: u64,
        remaining: FsSnapshot,
    },
}

/// One whole run over a snapshot: scan below the root to `max_depth` pruning
/// the skip list, size every candidate's build subtree, then resolve the
/// prompts in order with the given answer lines, deleting each confirmed
/// build subtree. With no candidate nothing is sized and nobody is prompted.
pub fn run_on_snapshot(
    snap: &FsSnapshot,
    skips: &Vec<DirPath>,
    max_depth: usize,
    answers: &Vec<String>,
) -> (r: RunOutcome)
    ensures
        (r is NothingFound) == (spec_scan(
            snap@,
            skips@,
            Seq::<Seq<char>>::empty(),
            max_depth as nat,
        ).len() == 0),
        match r {
            RunOutcome::NothingFound => true,
            RunOutcome::SizeOverflow => potential_from(
                snap@,
                spec_scan(snap@, skips@, Seq::<Seq<char>>::empty(), max_depth as nat),
                0,
            ) > u64::MAX,
            RunOutcome::Done { outcomes, total_reclaimable, total_freed, remaining } => {
                let cv = spec_scan(snap@, skips@, Seq::<Seq<char>>::empty(), max_depth as nat);
                let av = lines_view(answers@);
                &&& total_reclaimable as nat == potential_from(snap@, cv, 0)
                &&& total_freed as nat == freed_of(snap@, cv, av, 0)
                &&& remaining@ == cleanup_result(snap@, cv, av)
                &&& outcomes@.len() == cv.len()
                &&& forall|i: int|
                    0 <= i < cv.len() ==> (#[trigger] outcomes@[i]).path@ == cv[i]
                        && outcomes@[i].reclaimable as nat == size_under(
                        snap@,
                        cv[i].push(build_name()),
                    ) && outcomes@[i].action == (if yes_at(av, i) {
                        CleanupAction::Cleaned
                    } else {
                        CleanupAction::Skipped
                    })
            },
        },
{
    broadcast use crate::scan::lemma_paths_view_len, crate::scan::lemma_paths_view_index;

    let ghost cv = spec_scan(snap@, skips@, Seq::<Seq<char>>::empty(), max_depth as nat);
    let outcome = scan(snap, skips, max_depth);
    let cands = outcome.candidates;
    if cands.len() == 0 {
        proof {
            assert(paths_view(cands@).len() == 0);
        }
        return RunOutcome::NothingFound;
    }
    let mut sizes: Vec<u64> = Vec::new();
    let mut i: usize = 0;
    while i < cands.len()
        invariant
            i <= cands.len(),
            cv == spec_scan(snap@, skips@, Seq::<Seq<char>>::empty(), max_depth as nat),
            cv == paths_view(cands@),
            cv.len() == cands@.len(),
            cv.len() > 0,
            sizes@.len() == i,
            forall|j: int|
                0 <= j < i ==> sizes@[j] as nat == size_under(
                    snap@,
                    (#[trigger] cv[j]).push(build_name()),
                ),
        decreases cands.len() - i,
    {
        let target = cands[i].child(build_name_str());
        proof {
            assert(target@ == cv[i as int].push(build_name()));
        }
        match snap.subtree_size(&target) {
            Option::Some(v) => {
                sizes.push(v);
            },
            Option::None => {
                proof {
                    lemma_potential_covers(snap@, cv, 0, i as int);
                    assert(cv.len() != 0);
                    assert(potential_from(snap@, cv, 0) > u64::MAX);
                }
                return RunOutcome::SizeOverflow;
            },
        }
        i = i + 1;
    }
    let mut pot: u64 = 0;
    let mut k: usize = 0;
    while k < sizes.len()
        invariant
            k <= sizes.len(),
            cv == spec_scan(snap@, skips@, Seq::<Seq<char>>::empty(), max_depth as nat),
            cv == paths_view(cands@),
            cv.len() == cands@.len(),
            cv.len() > 0,
            sizes@.len() == cands@.len(),
            forall|j: int|
                0 <= j < sizes@.len() ==> sizes@[j] as nat == size_under(
                    snap@,
                    (#[trigger] cv[j]).push(build_name()),
                ),
            pot as nat + sum_from(sizes@, k as int) == sum_from(sizes@, 0),
        decreases sizes.len() - k,
    {
        match pot.checked_add(sizes[k]) {
            Option::Some(next) => {
                pot = next;
            },
            Option::None => {
                proof {
                    lemma_sum_eq_potential(snap@, cv, sizes@, 0);
                    assert(pot as nat + sizes@[k as int] > u64::MAX);
                    assert(sum_from(sizes@, k as int) == sizes@[k as int] as nat + sum_from(
                        sizes@,
                        k as int + 1,
                    ));
                    assert(sum_from(sizes@, 0) > u64::MAX);
                    assert(cv.len() != 0);
                    assert(potential_from(snap@, cv, 0) > u64::MAX);
                }
                return RunOutcome::SizeOverflow;
            },
        }
        k = k + 1;
    }
    proof {
        assert(sum_from(sizes@, sizes@.len() as int) == 0);
        lemma_sum_eq_potential(snap@, cv, sizes@, 0);
        lemma_freed_eq(snap@, cv, lines_view(answers@), sizes@, 0);
    }
    let (remaining, outcomes, total_freed) = run_cleanup(snap, &cands, &sizes, answers);
    RunOutcome::Done { outcomes, total_reclaimable: pot, total_freed, remaining }
}

} // verus!
