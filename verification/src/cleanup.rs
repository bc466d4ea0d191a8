use vstd::prelude::*;
use vstd::string::StrSliceExecFns;
use crate::paths::{DirPath, is_prefix_of};
use crate::fstree::{
    EntryModel, FsSnapshot, build_name, build_name_str, has_path, marker_name,
    lemma_without_subtree_membership, without_subtree,
};
use crate::scan::paths_view;

verus! {

/// The whitespace stripped from an operator's answer before it is read.
pub open spec fn is_space(c: char) -> bool {
    c == ' ' || c == '\t' || c == '\r' || c == '\n'
}

/// The answer without leading and trailing whitespace.
pub open spec fn trimmed(s: Seq<char>) -> Seq<char>
    decreases s.len(),
{
    if s.len() > 0 && is_space(s[0]) {
        trimmed(s.drop_first())
    } else if s.len() > 0 && is_space(s[s.len() - 1]) {
        trimmed(s.drop_last())
    } else {
        s
    }
}

/// An affirmative answer: exactly `y`, `Y` or `yes` once trimmed. Every other
/// line, the empty one included, declines.
pub open spec fn answer_yes(s: Seq<char>) -> bool {
    trimmed(s) == "y"@ || trimmed(s) == "Y"@ || trimmed(s) == "yes"@
}

fn is_space_char(c: char) -> (r: bool)
    ensures
        r == is_space(c),
{
    c == ' ' || c == '\t' || c == '\r' || c == '\n'
}

fn trim_input(s: &str) -> (r: &str)
    ensures
        r@ == trimmed(s@),
    decreases s@.len(),
{
    let n = s.unicode_len();
    if n == 0 {
        return s;
    }
    if is_space_char(s.get_char(0)) {
        let rest = s.substring_char(1, n);
        proof {
            assert(rest@ =~= s@.drop_first());
        }
        trim_input(rest)
    } else if is_space_char(s.get_char(n - 1)) {
        let rest = s.substring_char(0, n - 1);
        proof {
            assert(rest@ =~= s@.drop_last());
        }
        trim_input(rest)
    } else {
        s
    }
}

/// Decides `answer_yes`: whether the operator's line confirms the cleanup.
pub fn answer_is_yes(s: &str) -> (r: bool)
    ensures
        r == answer_yes(s@),
{
    proof {
        reveal_strlit("y");
        reveal_strlit("Y");
        reveal_strlit("yes");
    }
    let t = trim_input(s);
    let n = t.unicode_len();
    if n == 1 {
        let c = t.get_char(0);
        proof {
            if c == 'y' {
                assert(t@ =~= "y"@);
            } else {
                assert(t@ != "y"@);
            }
            if c == 'Y' {
                assert(t@ =~= "Y"@);
            } else {
                assert(t@ != "Y"@);
            }
            assert(t@ != "yes"@);
        }
        c == 'y' || c == 'Y'
    } else if n == 3 {
        let c0 = t.get_char(0);
        let c1 = t.get_char(1);
        let c2 = t.get_char(2);
        proof {
            if c0 == 'y' && c1 == 'e' && c2 == 's' {
                assert(t@ =~= "yes"@);
            } else {
                assert(t@ != "yes"@);
            }
            assert(t@ != "y"@);
            assert(t@ != "Y"@);
        }
        c0 == 'y' && c1 == 'e' && c2 == 's'
    } else {
        proof {
            assert(t@ != "y"@);
            assert(t@ != "Y"@);
            assert(t@ != "yes"@);
        }
        false
    }
}

/// How one project's processing ended: its build subtree deleted, or left
/// alone.
#[derive(Clone, Copy, PartialEq, Eq, Structural, Debug)]
pub enum CleanupAction {
    Cleaned,
    Skipped,
}

/// What the loop reports for one project: its path, the bytes its build
/// subtree held, and what was done.
pub struct CleanupOutcome {
    pub path: DirPath,
    pub reclaimable: u64,
    pub action: CleanupAction,
}

/// One project's walk through the interactive protocol. `Presented` awaits
/// the operator's line; an affirmative answer leads to the deletion attempt,
/// whose failure is fatal to the whole run; any other answer skips the
/// project.
#[derive(Clone, Copy, PartialEq, Eq, Structural, Debug)]
pub enum ProjectState {
    Presented,
    AnsweredYes,
    AnsweredNo,
    Cleaned,
    Skipped,
    Failed,
}

/// The step taken on the operator's answer.
pub fn answer_step(state: ProjectState, answer: &str) -> (r: ProjectState)
    requires
        state is Presented,
    ensures
        r == (if answer_yes(answer@) {
            ProjectState::AnsweredYes
        } else {
            ProjectState::AnsweredNo
        }),
{
    if answer_is_yes(answer) {
        ProjectState::AnsweredYes
    } else {
        ProjectState::AnsweredNo
    }
}

/// The step taken once the answer is in: an affirmative answer ends in
/// `Cleaned` exactly when the deletion succeeded, and in `Failed` otherwise,
/// which aborts the remaining projects; a negative answer ends in `Skipped`.
pub fn resolve_step(state: ProjectState, deletion_ok: bool) -> (r: ProjectState)
    requires
        state is AnsweredYes || state is AnsweredNo,
    ensures
        state is AnsweredNo ==> r == ProjectState::Skipped,
        state is AnsweredYes && deletion_ok ==> r == ProjectState::Cleaned,
        state is AnsweredYes && !deletion_ok ==> r == ProjectState::Failed,
{
    match state {
        ProjectState::AnsweredNo => ProjectState::Skipped,
        _ => if deletion_ok {
            ProjectState::Cleaned
        } else {
            ProjectState::Failed
        },
    }
}

/// The contents of a list of answer lines.
pub open spec fn lines_view(ss: Seq<String>) -> Seq<Seq<char>> {
    ss.map_values(|s: String| s@)
}

pub broadcast proof fn lemma_lines_view_len(ss: Seq<String>)
    ensures
        (#[trigger] lines_view(ss)).len() == ss.len(),
{
}

pub broadcast proof fn lemma_lines_view_index(ss: Seq<String>, i: int)
    requires
        0 <= i < ss.len(),
    ensures
        #[trigger] lines_view(ss)[i] == ss[i]@,
{
}

/// The `i`-th prompt was answered affirmatively. A missing line declines, as
/// a closed input stream does.
pub open spec fn yes_at(answers: Seq<Seq<char>>, i: int) -> bool {
    0 <= i < answers.len() && answer_yes(answers[i])
}

/// The bytes freed by the prompts from `i` on: the size of each project whose
/// prompt was answered affirmatively.
pub open spec fn freed_from(sizes: Seq<u64>, answers: Seq<Seq<char>>, i: int) -> nat
    decreases sizes.len() - i,
{
    if i < 0 || i >= sizes.len() {
        0
    } else {
        (if yes_at(answers, i) {
            sizes[i] as nat
        } else {
            0
        }) + freed_from(sizes, answers, i + 1)
    }
}

/// The sum of the sizes from `i` on.
pub open spec fn sum_from(sizes: Seq<u64>, i: int) -> nat
    decreases sizes.len() - i,
{
    if i < 0 || i >= sizes.len() {
        0
    } else {
        sizes[i] as nat + sum_from(sizes, i + 1)
    }
}

/// What freed bytes can at most add up to: the sum of all sizes.
pub proof fn lemma_freed_le_sum(sizes: Seq<u64>, answers: Seq<Seq<char>>, i: int)
    ensures
        freed_from(sizes, answers, i) <= sum_from(sizes, i),
    decreases sizes.len() - i,
{
    if i < 0 || i >= sizes.len() {
    } else {
        lemma_freed_le_sum(sizes, answers, i + 1);
    }
}

/// The tree left once the prompts from `i` on are resolved: each affirmative
/// answer removes that project's build subtree, in order.
pub open spec fn entries_after(
    entries: Seq<EntryModel>,
    cands: Seq<Seq<Seq<char>>>,
    answers: Seq<Seq<char>>,
    i: int,
) -> Seq<EntryModel>
    decreases cands.len() - i,
{
    if i < 0 || i >= cands.len() {
        entries
    } else {
        let next = if yes_at(answers, i) {
            without_subtree(entries, cands[i].push(build_name()))
        } else {
            entries
        };
        entries_after(next, cands, answers, i + 1)
    }
}

/// The tree left once every prompt is resolved.
pub open spec fn cleanup_result(
    entries: Seq<EntryModel>,
    cands: Seq<Seq<Seq<char>>>,
    answers: Seq<Seq<char>>,
) -> Seq<EntryModel> {
    entries_after(entries, cands, answers, 0)
}

/// Runs the confirm-and-delete loop over the snapshot: presents the projects
/// in order with their precomputed sizes, deletes the build subtree of each
/// confirmed project, and accumulates the bytes freed. Answers beyond the
/// ones given decline.
pub fn run_cleanup(
    snap: &FsSnapshot,
    cands: &Vec<DirPath>,
    sizes: &Vec<u64>,
    answers: &Vec<String>,
) -> (r: (FsSnapshot, Vec<CleanupOutcome>, u64))
    requires
        sizes@.len() == cands@.len(),
        sum_from(sizes@, 0) <= u64::MAX,
    ensures
        r.0@ == cleanup_result(snap@, paths_view(cands@), lines_view(answers@)),
        r.2 as nat == freed_from(sizes@, lines_view(answers@), 0),
        r.1@.len() == cands@.len(),
        forall|i: int|
            0 <= i < cands@.len() ==> (#[trigger] r.1@[i]).path@ == cands@[i]@
                && r.1@[i].reclaimable == sizes@[i] && r.1@[i].action == (if yes_at(
                lines_view(answers@),
                i,
            ) {
                CleanupAction::Cleaned
            } else {
                CleanupAction::Skipped
            }),
{
    broadcast use
        lemma_lines_view_len,
        lemma_lines_view_index,
        crate::scan::lemma_paths_view_len,
        crate::scan::lemma_paths_view_index;

    let ghost cv = paths_view(cands@);
    let ghost av = lines_view(answers@);
    let mut cur: FsSnapshot = snap.duplicate();
    let mut outcomes: Vec<CleanupOutcome> = Vec::new();
    let mut total: u64 = 0;
    proof {
        lemma_freed_le_sum(sizes@, av, 0);
    }
    let mut i: usize = 0;
    while i < cands.len()
        invariant
            i <= cands.len(),
            sizes@.len() == cands@.len(),
            cv == paths_view(cands@),
            av == lines_view(answers@),
            cv.len() == cands@.len(),
            entries_after(cur@, cv, av, i as int) == cleanup_result(snap@, cv, av),
            total as nat + freed_from(sizes@, av, i as int) == freed_from(sizes@, av, 0),
            freed_from(sizes@, av, 0) <= u64::MAX,
            outcomes@.len() == i,
            forall|j: int|
                0 <= j < i ==> (#[trigger] outcomes@[j]).path@ == cands@[j]@
                    && outcomes@[j].reclaimable == sizes@[j] && outcomes@[j].action == (if yes_at(
                    av,
                    j,
                ) {
                    CleanupAction::Cleaned
                } else {
                    CleanupAction::Skipped
                }),
        decreases cands.len() - i,
    {
        let says_yes = if i < answers.len() {
            answer_is_yes(answers[i].as_str())
        } else {
            false
        };
        proof {
            assert(says_yes == yes_at(av, i as int));
        }
        let size_here = sizes[i];
        if says_yes {
            let target = cands[i].child(build_name_str());
            proof {
                assert(target@ == cv[i as int].push(build_name()));
                assert(freed_from(sizes@, av, i as int) == size_here + freed_from(
                    sizes@,
                    av,
                    i as int + 1,
                ));
            }
            let next = cur.remove_subtree(&target);
            cur = next;
            total = total + size_here;
            outcomes.push(
                CleanupOutcome {
                    path: cands[i].duplicate(),
                    reclaimable: size_here,
                    action: CleanupAction::Cleaned,
                },
            );
        } else {
            outcomes.push(
                CleanupOutcome {
                    path: cands[i].duplicate(),
                    reclaimable: size_here,
                    action: CleanupAction::Skipped,
                },
            );
        }
        i = i + 1;
    }
    proof {
        assert(entries_after(cur@, cv, av, cands@.len() as int) == cur@);
        assert(freed_from(sizes@, av, cands@.len() as int) == 0);
    }
    (cur, outcomes, total)
}

/// However the prompts are answered, what the cleanup leaves is still a
/// well-formed tree: each path once, below its listed ancestors.
pub proof fn lemma_cleanup_preserves_wf(
    entries: Seq<EntryModel>,
    cands: Seq<Seq<Seq<char>>>,
    answers: Seq<Seq<char>>,
)
    requires
        crate::fstree::wf(entries),
    ensures
        crate::fstree::wf(cleanup_result(entries, cands, answers)),
{
    lemma_entries_after_wf(entries, cands, answers, 0);
}

proof fn lemma_entries_after_wf(
    entries: Seq<EntryModel>,
    cands: Seq<Seq<Seq<char>>>,
    answers: Seq<Seq<char>>,
    i: int,
)
    requires
        crate::fstree::wf(entries),
    ensures
        crate::fstree::wf(entries_after(entries, cands, answers, i)),
    decreases cands.len() - i,
{
    if i < 0 || i >= cands.len() {
    } else {
        let next = if yes_at(answers, i) {
            without_subtree(entries, cands[i].push(build_name()))
        } else {
            entries
        };
        if yes_at(answers, i) {
            crate::fstree::lemma_without_subtree_wf(entries, cands[i].push(build_name()));
        }
        lemma_entries_after_wf(next, cands, answers, i + 1);
    }
}

/// Declining every prompt leaves every build-output directory, and with it
/// the whole tree, untouched, and frees nothing.
pub proof fn lemma_decline_all(
    entries: Seq<EntryModel>,
    cands: Seq<Seq<Seq<char>>>,
    answers: Seq<Seq<char>>,
    sizes: Seq<u64>,
)
    requires
        forall|i: int| !yes_at(answers, i),
    ensures
        cleanup_result(entries, cands, answers) == entries,
        freed_from(sizes, answers, 0) == 0,
{
    lemma_decline_entries(entries, cands, answers, 0);
    lemma_decline_freed(sizes, answers, 0);
}

proof fn lemma_decline_entries(
    entries: Seq<EntryModel>,
    cands: Seq<Seq<Seq<char>>>,
    answers: Seq<Seq<char>>,
    i: int,
)
    requires
        forall|j: int| !yes_at(answers, j),
    ensures
        entries_after(entries, cands, answers, i) == entries,
    decreases cands.len() - i,
{
    if i < 0 || i >= cands.len() {
    } else {
        lemma_decline_entries(entries, cands, answers, i + 1);
    }
}

proof fn lemma_decline_freed(sizes: Seq<u64>, answers: Seq<Seq<char>>, i: int)
    requires
        forall|j: int| !yes_at(answers, j),
    ensures
        freed_from(sizes, answers, i) == 0,
    decreases sizes.len() - i,
{
    if i < 0 || i >= sizes.len() {
    } else {
        lemma_decline_freed(sizes, answers, i + 1);
    }
}

/// No confirmed prompt from `i` on removes `e`: no such project's build
/// subtree covers `e`'s path.
pub open spec fn untouched_from(
    cands: Seq<Seq<Seq<char>>>,
    answers: Seq<Seq<char>>,
    i: int,
    e: EntryModel,
) -> bool {
    forall|j: int|
        i <= j < cands.len() && yes_at(answers, j) ==> !is_prefix_of(
            (#[trigger] cands[j]).push(build_name()),
            e.path,
        )
}

/// After the prompts from `i` on are resolved, an entry remains exactly when
/// it was there before and no confirmed project's build subtree covers it.
proof fn lemma_entries_after_membership(
    entries: Seq<EntryModel>,
    cands: Seq<Seq<Seq<char>>>,
    answers: Seq<Seq<char>>,
    i: int,
)
    requires
        0 <= i,
    ensures
        forall|e: EntryModel|
            #[trigger] entries_after(entries, cands, answers, i).contains(e) <==> entries.contains(
                e,
            ) && untouched_from(cands, answers, i, e),
    decreases cands.len() - i,
{
    if i < 0 || i >= cands.len() {
        assert forall|e: EntryModel| entries.contains(e) implies untouched_from(
            cands,
            answers,
            i,
            e,
        ) by {}
    } else {
        let next = if yes_at(answers, i) {
            without_subtree(entries, cands[i].push(build_name()))
        } else {
            entries
        };
        lemma_entries_after_membership(next, cands, answers, i + 1);
        if yes_at(answers, i) {
            lemma_without_subtree_membership(entries, cands[i].push(build_name()));
        }
        let fin = entries_after(entries, cands, answers, i);
        assert(fin == entries_after(next, cands, answers, i + 1));
        assert forall|e: EntryModel|
            (#[trigger] untouched_from(cands, answers, i, e)) == (untouched_from(
            cands,
            answers,
            i + 1,
            e,
        ) && (yes_at(answers, i) ==> !is_prefix_of(cands[i].push(build_name()), e.path))) by {
            if untouched_from(cands, answers, i + 1, e) && (yes_at(answers, i) ==> !is_prefix_of(
                cands[i].push(build_name()),
                e.path,
            )) {
                assert forall|j: int|
                    i <= j < cands.len() && yes_at(answers, j) implies !is_prefix_of(
                    (#[trigger] cands[j]).push(build_name()),
                    e.path,
                ) by {
                    if j != i {
                        assert(i + 1 <= j);
                    }
                }
                assert(untouched_from(cands, answers, i, e));
            }
            if untouched_from(cands, answers, i, e) {
                assert forall|j: int|
                    i + 1 <= j < cands.len() && yes_at(answers, j) implies !is_prefix_of(
                    (#[trigger] cands[j]).push(build_name()),
                    e.path,
                ) by {}
                assert(untouched_from(cands, answers, i + 1, e));
                if yes_at(answers, i) {
                    assert(!is_prefix_of((cands[i]).push(build_name()), e.path));
                }
            }
        }
        assert forall|e: EntryModel|
            (#[trigger] fin.contains(e)) == (entries.contains(e) && untouched_from(
            cands,
            answers,
            i,
            e,
        )) by {
            assert(entries_after(next, cands, answers, i + 1).contains(e) == (next.contains(e)
                && untouched_from(cands, answers, i + 1, e)));
            if yes_at(answers, i) {
                assert(next.contains(e) == (entries.contains(e) && !is_prefix_of(
                    cands[i].push(build_name()),
                    e.path,
                )));
            }
        }
    }
}

/// Accepting every prompt frees the sum of all reported sizes, and leaves
/// exactly the entries outside every project's build subtree: each build
/// subtree is gone, and — when no project lies inside another's build
/// subtree — every project directory and marker file remains.
pub proof fn lemma_accept_all(
    entries: Seq<EntryModel>,
    cands: Seq<Seq<Seq<char>>>,
    answers: Seq<Seq<char>>,
    sizes: Seq<u64>,
)
    requires
        sizes.len() == cands.len(),
        forall|i: int| 0 <= i < cands.len() ==> yes_at(answers, i),
        forall|i: int, j: int|
            0 <= i < cands.len() && 0 <= j < cands.len() ==> !is_prefix_of(
                (#[trigger] cands[j]).push(build_name()),
                #[trigger] cands[i],
            ),
    ensures
        freed_from(sizes, answers, 0) == sum_from(sizes, 0),
        forall|e: EntryModel|
            #[trigger] cleanup_result(entries, cands, answers).contains(e) <==> entries.contains(
                e,
            ) && untouched_from(cands, answers, 0, e),
        forall|i: int|
            0 <= i < cands.len() && has_path(entries, (#[trigger] cands[i]).push(marker_name()))
                ==> has_path(
                cleanup_result(entries, cands, answers),
                cands[i].push(marker_name()),
            ),
        forall|i: int|
            0 <= i < cands.len() && has_path(entries, #[trigger] cands[i]) ==> has_path(
                cleanup_result(entries, cands, answers),
                cands[i],
            ),
{
    lemma_accept_freed(sizes, answers, 0);
    lemma_entries_after_membership(entries, cands, answers, 0);
    let fin = cleanup_result(entries, cands, answers);
    assert forall|i: int|
        0 <= i < cands.len() && has_path(entries, (#[trigger] cands[i]).push(marker_name()))
            implies has_path(fin, cands[i].push(marker_name())) by {
        let m = cands[i].push(marker_name());
        let idx = choose|idx: int| 0 <= idx < entries.len() && entries[idx].path == m;
        let e = entries[idx];
        assert(entries.contains(e));
        assert forall|j: int|
            0 <= j < cands.len() && yes_at(answers, j) implies !is_prefix_of(
            (#[trigger] cands[j]).push(build_name()),
            e.path,
        ) by {
            lemma_build_no_cover_marker(cands, i, j);
        }
        assert(untouched_from(cands, answers, 0, e));
        assert(fin.contains(e));
        let k = choose|k: int| 0 <= k < fin.len() && fin[k] == e;
        assert(fin[k].path == m);
    }
    assert forall|i: int|
        0 <= i < cands.len() && has_path(entries, #[trigger] cands[i]) implies has_path(
        fin,
        cands[i],
    ) by {
        let idx = choose|idx: int| 0 <= idx < entries.len() && entries[idx].path == cands[i];
        let e = entries[idx];
        assert(entries.contains(e));
        assert forall|j: int|
            0 <= j < cands.len() && yes_at(answers, j) implies !is_prefix_of(
            (#[trigger] cands[j]).push(build_name()),
            e.path,
        ) by {}
        assert(untouched_from(cands, answers, 0, e));
        assert(fin.contains(e));
        let k = choose|k: int| 0 <= k < fin.len() && fin[k] == e;
        assert(fin[k].path == cands[i]);
    }
}

/// A project's build subtree covers no other project's marker file when no
/// project lies inside another's build subtree.
proof fn lemma_build_no_cover_marker(cands: Seq<Seq<Seq<char>>>, i: int, j: int)
    requires
        0 <= i < cands.len(),
        0 <= j < cands.len(),
        !is_prefix_of(cands[j].push(build_name()), cands[i]),
    ensures
        !is_prefix_of(cands[j].push(build_name()), cands[i].push(marker_name())),
{
    let b = cands[j].push(build_name());
    let m = cands[i].push(marker_name());
    if is_prefix_of(b, m) {
        if b.len() == m.len() {
            assert(b[b.len() - 1] == m[m.len() - 1]);
            assert(build_name() == marker_name());
            reveal_strlit("build");
            reveal_strlit("swim.toml");
            assert(build_name().len() != marker_name().len());
            assert(false);
        } else {
            assert forall|k: int| 0 <= k < b.len() implies b[k] == cands[i][k] by {
                assert(b[k] == m[k]);
                assert(m[k] == cands[i][k]);
            }
            assert(is_prefix_of(b, cands[i]));
            assert(false);
        }
    }
}

proof fn lemma_accept_freed(sizes: Seq<u64>, answers: Seq<Seq<char>>, i: int)
    requires
        forall|j: int| 0 <= j < sizes.len() ==> yes_at(answers, j),
    ensures
        freed_from(sizes, answers, i) == sum_from(sizes, i),
    decreases sizes.len() - i,
{
    if i < 0 || i >= sizes.len() {
    } else {
        lemma_accept_freed(sizes, answers, i + 1);
    }
}

} // verus!
