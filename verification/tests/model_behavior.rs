use swim_clean_all::cleanup::{answer_is_yes, answer_step, resolve_step, CleanupAction, ProjectState};
use swim_clean_all::driver::{run_on_snapshot, RunOutcome};
use swim_clean_all::fstree::{EntryKind, FsEntry, FsSnapshot};
use swim_clean_all::paths::DirPath;
use swim_clean_all::scan::scan;

fn p(s: &str) -> DirPath {
    DirPath {
        parts: s
            .split('/')
            .filter(|c| !c.is_empty())
            .map(|c| c.to_string())
            .collect(),
    }
}

fn dir(path: &str) -> FsEntry {
    FsEntry { path: p(path), kind: EntryKind::Dir }
}

fn file(path: &str, size: u64) -> FsEntry {
    FsEntry { path: p(path), kind: EntryKind::File { size } }
}

fn lines(xs: &[&str]) -> Vec<String> {
    xs.iter().map(|s| s.to_string()).collect()
}

fn paths_of(v: &[DirPath]) -> Vec<Vec<String>> {
    v.iter().map(|d| d.parts.clone()).collect()
}

fn entry_paths(s: &FsSnapshot) -> Vec<Vec<String>> {
    s.entries.iter().map(|e| e.path.parts.clone()).collect()
}

fn example_tree() -> FsSnapshot {
    FsSnapshot {
        entries: vec![
            dir("proj"),
            file("proj/swim.toml", 100),
            dir("proj/build"),
            file("proj/build/file.bin", 1024),
            dir("proj/src"),
            file("proj/src/main.x", 5),
        ],
    }
}

#[test]
fn example_run_cleans_exactly_the_build_subtree() {
    let snap = example_tree();
    match run_on_snapshot(&snap, &vec![], 100, &lines(&["y"])) {
        RunOutcome::Done { outcomes, total_reclaimable, total_freed, remaining } => {
            assert_eq!(outcomes.len(), 1);
            assert_eq!(outcomes[0].path.parts, vec!["proj".to_string()]);
            assert_eq!(outcomes[0].reclaimable, 1024);
            assert_eq!(outcomes[0].action, CleanupAction::Cleaned);
            assert_eq!(total_reclaimable, 1024);
            assert_eq!(total_freed, 1024);
            let left = entry_paths(&remaining);
            assert!(left.contains(&vec!["proj".to_string(), "swim.toml".to_string()]));
            assert!(left.contains(&vec!["proj".to_string(), "src".to_string(), "main.x".to_string()]));
            assert!(!left.iter().any(|q| q.len() >= 2 && q[0] == "proj" && q[1] == "build"));
        }
        _ => panic!("expected a completed run"),
    }
}

#[test]
fn candidate_needs_marker_and_build() {
    let snap = FsSnapshot {
        entries: vec![
            dir("a"),
            dir("a/b"),
            dir("a/b/proj"),
            file("a/b/proj/swim.toml", 1),
            dir("a/b/proj/build"),
            dir("only_marker"),
            file("only_marker/swim.toml", 1),
            dir("only_build"),
            dir("only_build/build"),
            dir("plain"),
        ],
    };
    let r = scan(&snap, &vec![], 100);
    assert_eq!(
        paths_of(&r.candidates),
        vec![vec!["a".to_string(), "b".to_string(), "proj".to_string()]]
    );
}

#[test]
fn marker_and_build_may_be_of_any_kind() {
    // the detector tests existence, not kind, of the two names
    let snap = FsSnapshot {
        entries: vec![dir("proj"), dir("proj/swim.toml"), file("proj/build", 3)],
    };
    let r = scan(&snap, &vec![], 100);
    assert_eq!(paths_of(&r.candidates), vec![vec!["proj".to_string()]]);
}

#[test]
fn skipped_subtree_yields_no_candidate_and_is_never_entered() {
    let snap = FsSnapshot {
        entries: vec![
            dir("keep"),
            file("keep/swim.toml", 1),
            dir("keep/build"),
            dir("drop"),
            dir("drop/proj"),
            file("drop/proj/swim.toml", 1),
            dir("drop/proj/build"),
        ],
    };
    let skips = vec![p("drop")];
    let r = scan(&snap, &skips, 100);
    assert_eq!(paths_of(&r.candidates), vec![vec!["keep".to_string()]]);
    // nothing strictly inside the skipped subtree was examined
    for seen in &r.examined {
        let inside = seen.parts.len() > 1 && seen.parts[0] == "drop";
        assert!(!inside, "examined {:?}", seen.parts);
    }
    // the skipped directory itself may be seen once, and never again below
    assert!(r.examined.iter().any(|d| d.parts == vec!["drop".to_string()]));
}

#[test]
fn skip_covers_the_skipped_directory_itself() {
    let snap = FsSnapshot {
        entries: vec![dir("proj"), file("proj/swim.toml", 1), dir("proj/build")],
    };
    let r = scan(&snap, &vec![p("proj")], 100);
    assert!(r.candidates.is_empty());
}

#[test]
fn depth_zero_reports_at_most_the_root() {
    let snap = FsSnapshot {
        entries: vec![
            file("swim.toml", 1),
            dir("build"),
            dir("proj"),
            file("proj/swim.toml", 1),
            dir("proj/build"),
        ],
    };
    let r = scan(&snap, &vec![], 0);
    assert_eq!(paths_of(&r.candidates), vec![Vec::<String>::new()]);

    let nothing_at_root = FsSnapshot {
        entries: vec![dir("proj"), file("proj/swim.toml", 1), dir("proj/build")],
    };
    let r0 = scan(&nothing_at_root, &vec![], 0);
    assert!(r0.candidates.is_empty());
}

#[test]
fn depth_bound_limits_candidates() {
    let snap = FsSnapshot {
        entries: vec![
            dir("a"),
            dir("a/proj"),
            file("a/proj/swim.toml", 1),
            dir("a/proj/build"),
        ],
    };
    assert!(scan(&snap, &vec![], 1).candidates.is_empty());
    assert_eq!(scan(&snap, &vec![], 2).candidates.len(), 1);
}

#[test]
fn declining_every_prompt_changes_nothing() {
    let snap = FsSnapshot {
        entries: vec![
            dir("one"),
            file("one/swim.toml", 1),
            dir("one/build"),
            file("one/build/a.o", 10),
            dir("two"),
            file("two/swim.toml", 1),
            dir("two/build"),
            file("two/build/b.o", 20),
        ],
    };
    let before = entry_paths(&snap);
    match run_on_snapshot(&snap, &vec![], 100, &lines(&["n", "whatever"])) {
        RunOutcome::Done { outcomes, total_freed, remaining, .. } => {
            assert_eq!(total_freed, 0);
            assert!(outcomes.iter().all(|o| o.action == CleanupAction::Skipped));
            assert_eq!(entry_paths(&remaining), before);
        }
        _ => panic!("expected a completed run"),
    }
}

#[test]
fn missing_answers_decline() {
    let snap = example_tree();
    match run_on_snapshot(&snap, &vec![], 100, &vec![]) {
        RunOutcome::Done { total_freed, remaining, .. } => {
            assert_eq!(total_freed, 0);
            assert_eq!(entry_paths(&remaining), entry_paths(&example_tree()));
        }
        _ => panic!("expected a completed run"),
    }
}

#[test]
fn accepting_every_prompt_frees_the_sum_and_removes_each_build() {
    let snap = FsSnapshot {
        entries: vec![
            dir("one"),
            file("one/swim.toml", 1),
            dir("one/build"),
            file("one/build/a.o", 10),
            dir("two"),
            file("two/swim.toml", 1),
            dir("two/build"),
            file("two/build/b.o", 20),
            file("two/build/c.o", 30),
        ],
    };
    match run_on_snapshot(&snap, &vec![], 100, &lines(&["y", "yes"])) {
        RunOutcome::Done { outcomes, total_reclaimable, total_freed, remaining } => {
            assert_eq!(total_reclaimable, 60);
            assert_eq!(total_freed, 60);
            assert_eq!(outcomes.len(), 2);
            assert!(outcomes.iter().all(|o| o.action == CleanupAction::Cleaned));
            assert_eq!(outcomes[0].reclaimable + outcomes[1].reclaimable, total_freed);
            let left = entry_paths(&remaining);
            assert!(left.contains(&vec!["one".to_string(), "swim.toml".to_string()]));
            assert!(left.contains(&vec!["two".to_string(), "swim.toml".to_string()]));
            assert!(left.contains(&vec!["one".to_string()]));
            assert!(left.contains(&vec!["two".to_string()]));
            assert!(!left.iter().any(|q| q.contains(&"build".to_string())));
        }
        _ => panic!("expected a completed run"),
    }
}

#[test]
fn zero_candidates_end_the_run_before_any_prompt() {
    let snap = FsSnapshot { entries: vec![dir("empty"), file("readme", 4)] };
    match run_on_snapshot(&snap, &vec![], 100, &vec![]) {
        RunOutcome::NothingFound => {}
        _ => panic!("expected the nothing-found outcome"),
    }
}

#[test]
fn unsummable_sizes_abort_before_prompting() {
    let snap = FsSnapshot {
        entries: vec![
            dir("one"),
            file("one/swim.toml", 1),
            dir("one/build"),
            file("one/build/a", u64::MAX),
            dir("two"),
            file("two/swim.toml", 1),
            dir("two/build"),
            file("two/build/b", 1),
        ],
    };
    match run_on_snapshot(&snap, &vec![], 100, &lines(&["y", "y"])) {
        RunOutcome::SizeOverflow => {}
        _ => panic!("expected the overflow outcome"),
    }
}

#[test]
fn subtree_size_sums_files_below_the_path() {
    let snap = example_tree();
    assert_eq!(snap.subtree_size(&p("proj/build")), Some(1024));
    assert_eq!(snap.subtree_size(&p("proj")), Some(1129));
    assert_eq!(snap.subtree_size(&p("elsewhere")), Some(0));
}

#[test]
fn affirmative_answers_are_exactly_y_cap_y_and_yes() {
    for yes in ["y", "Y", "yes", " y ", "\tyes\n", "y "] {
        assert!(answer_is_yes(yes), "{:?} should confirm", yes);
    }
    for no in ["", "n", "N", "no", "Yes", "YES", "yES", "oui", "ye", "yess", "y e s"] {
        assert!(!answer_is_yes(no), "{:?} should decline", no);
    }
}

#[test]
fn project_state_steps_follow_the_protocol() {
    assert_eq!(answer_step(ProjectState::Presented, "y"), ProjectState::AnsweredYes);
    assert_eq!(answer_step(ProjectState::Presented, "nope"), ProjectState::AnsweredNo);
    assert_eq!(resolve_step(ProjectState::AnsweredNo, true), ProjectState::Skipped);
    assert_eq!(resolve_step(ProjectState::AnsweredYes, true), ProjectState::Cleaned);
    assert_eq!(resolve_step(ProjectState::AnsweredYes, false), ProjectState::Failed);
}
