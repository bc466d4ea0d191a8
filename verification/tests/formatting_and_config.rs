use swim_clean_all::config::{choose_config_dir, config_file_name, merge_skip_lists, relativize_skips, DEFAULT_MAX_DEPTH};
use swim_clean_all::paths::{expand_home, DirPath};
use swim_clean_all::report::{
    cleaned_message, format_u64, nothing_found_message, prompt_message, render_path,
    skipped_message, summary_message, total_message,
};

fn p(s: &str) -> DirPath {
    DirPath {
        parts: s
            .split('/')
            .filter(|c| !c.is_empty())
            .map(|c| c.to_string())
            .collect(),
    }
}

fn strings(xs: &[&str]) -> Vec<String> {
    xs.iter().map(|s| s.to_string()).collect()
}

#[test]
fn default_depth_is_one_hundred() {
    assert_eq!(DEFAULT_MAX_DEPTH, 100);
}

#[test]
fn decimal_rendering_is_exact() {
    assert_eq!(format_u64(0), "0");
    assert_eq!(format_u64(7), "7");
    assert_eq!(format_u64(10), "10");
    assert_eq!(format_u64(105), "105");
    assert_eq!(format_u64(1234567890), "1234567890");
}

#[test]
fn summary_message_handles_count_size_and_plural() {
    assert_eq!(
        summary_message(1, 1024),
        "1 cleanable swim project found (totalling 1.00 KiB potential savings)"
    );
    assert_eq!(
        summary_message(2, 15),
        "2 cleanable swim projects found (totalling 15 B potential savings)"
    );
}

#[test]
fn per_project_messages_are_exact() {
    assert_eq!(prompt_message("/r/proj", 1024), "  Clean /r/proj? (1.00 KiB) [y/n] ");
    assert_eq!(cleaned_message("/r/proj", 1024), "Cleaned /r/proj (1.00 KiB).");
    assert_eq!(skipped_message("/r/proj", 15), "Skipped /r/proj (15 B).");
}

#[test]
fn closing_lines_tell_freed_bytes_or_nothing() {
    assert_eq!(total_message(0), "No projects cleaned");
    assert_eq!(total_message(1024), "1.00 KiB successfully cleaned");
}

#[test]
fn nothing_found_names_the_root() {
    assert_eq!(
        nothing_found_message("."),
        "No cleanable swim projects found in ."
    );
}

#[test]
fn paths_render_below_their_root() {
    assert_eq!(render_path("/r", &p("a/b")), "/r/a/b");
    assert_eq!(render_path("/r", &p("")), "/r");
}

#[test]
fn config_dir_choice_follows_the_documented_order() {
    assert_eq!(
        choose_config_dir(Some("/xdg".to_string()), Some("/local".to_string())),
        "/xdg"
    );
    assert_eq!(choose_config_dir(None, Some("/local".to_string())), "/local");
    assert_eq!(choose_config_dir(None, None), "~/.config");
    assert_eq!(config_file_name(), "swim-clean-all.toml");
}

#[test]
fn skip_lists_merge_cli_first() {
    assert_eq!(
        merge_skip_lists(strings(&["a", "b"]), Some(strings(&["c"]))),
        strings(&["a", "b", "c"])
    );
    assert_eq!(merge_skip_lists(strings(&["a"]), None), strings(&["a"]));
}

#[test]
fn skips_are_carried_below_the_root() {
    let root = p("a/b");
    let skips = vec![p("a/b/c/d"), p("a"), p("z")];
    let rel = relativize_skips(&root, &skips);
    let got: Vec<Vec<String>> = rel.iter().map(|d| d.parts.clone()).collect();
    assert_eq!(got, vec![strings(&["c", "d"]), Vec::<String>::new()]);
}

#[test]
fn home_shorthand_expands_only_a_leading_tilde() {
    let home = p("home/me");
    let expanded = expand_home(&p("~/work/x"), &home);
    assert_eq!(expanded.parts, strings(&["home", "me", "work", "x"]));
    let untouched = expand_home(&p("etc/x"), &home);
    assert_eq!(untouched.parts, strings(&["etc", "x"]));
}

#[test]
fn path_prefix_tests_compare_whole_components() {
    assert!(p("a/b/c").starts_with(&p("a/b")));
    assert!(p("a/b").starts_with(&p("a/b")));
    assert!(!p("a/bc").starts_with(&p("a/b")));
    assert!(!p("a").starts_with(&p("a/b")));
    assert!(p("a/b").same_as(&p("a/b")));
    assert!(!p("a/b").same_as(&p("a/c")));
}
