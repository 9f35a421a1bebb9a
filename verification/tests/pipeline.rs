use cmdfreq::history::{cleanup, history_file, split_lines};
use cmdfreq::search::{filter_exact, filter_fuzzy, filter_ignored, filter_searched, SearchMethod};
use cmdfreq::table::{build_command_table, top_bottom_slices, CommandTable};

fn strings(items: &[&str]) -> Vec<String> {
    items.iter().map(|s| s.to_string()).collect()
}

fn row<'a>(table: &'a [CommandTable], cmd: &str) -> &'a CommandTable {
    table
        .iter()
        .find(|r| r.0 == cmd)
        .unwrap_or_else(|| panic!("no row for {}", cmd))
}

#[test]
fn build_counts_literal_occurrences() {
    let lines = strings(&[
        "git status",
        "ls",
        "git status",
        "cargo build",
        "ls",
        "git status",
    ]);
    let table = build_command_table(lines);
    assert_eq!(table.len(), 3);
    assert_eq!(row(&table, "git status").1, 3);
    assert_eq!(row(&table, "ls").1, 2);
    assert_eq!(row(&table, "cargo build").1, 1);
    assert_eq!(table[0].0, "git status");
    assert_eq!(table[0].1, 3);
}

#[test]
fn build_sorts_most_used_first() {
    let lines = strings(&["a", "b", "b", "c", "c", "c", "d"]);
    let table = build_command_table(lines);
    assert_eq!(table.len(), 4);
    for pair in table.windows(2) {
        assert!(pair[0].1 >= pair[1].1);
    }
    assert_eq!(table[0].0, "c");
    assert_eq!(table[0].1, 3);
}

#[test]
fn build_empty_input_gives_empty_table() {
    let table = build_command_table(Vec::new());
    assert!(table.is_empty());
}

#[test]
fn cleanup_drops_empty_lines() {
    let lines = strings(&["ls", "", "pwd", ""]);
    let cleaned = cleanup(lines, false);
    assert_eq!(cleaned, strings(&["ls", "pwd"]));
}

#[test]
fn cleanup_zsh_strips_metadata() {
    let lines = strings(&[
        ": 1700000000:0;git status",
        "no semicolon here",
        ": 1700000001:0;echo a;echo b",
        "",
    ]);
    let cleaned = cleanup(lines, true);
    assert_eq!(cleaned, strings(&["git status", "echo a;echo b"]));
}

#[test]
fn cleanup_is_monotonic() {
    let lines = strings(&["ls", "", "pwd"]);
    let n = lines.len();
    assert!(cleanup(lines, false).len() <= n);
    let lines = strings(&[": 1:0;ls", "bare"]);
    let n = lines.len();
    assert!(cleanup(lines, true).len() <= n);
}

#[test]
fn filter_ignored_drops_prefixed_lines() {
    let lines = strings(&["git status", "ls -la", "gh pr view"]);
    let kept = filter_ignored(lines, strings(&["g"]));
    assert_eq!(kept, strings(&["ls -la"]));
}

#[test]
fn filter_ignored_keeps_order_and_is_monotonic() {
    let lines = strings(&["cargo test", "ls", "cargo build", "pwd"]);
    let kept = filter_ignored(lines, strings(&["cargo"]));
    assert_eq!(kept, strings(&["ls", "pwd"]));
}

#[test]
fn filter_ignored_empty_ignore_keeps_all() {
    let lines = strings(&["a", "b"]);
    let kept = filter_ignored(lines.clone(), Vec::new());
    assert_eq!(kept, lines);
}

#[test]
fn filter_exact_matches_substring() {
    let lines = strings(&["git status", "git push", "ls"]);
    let kept = filter_exact(lines, strings(&["git"]));
    assert_eq!(kept, strings(&["git status", "git push"]));
}

#[test]
fn filter_exact_joins_search_words_with_spaces() {
    let lines = strings(&["git status", "git  status", "gitstatus"]);
    let kept = filter_exact(lines, strings(&["git", "status"]));
    assert_eq!(kept, strings(&["git status"]));
}

#[test]
fn filter_searched_empty_search_keeps_all() {
    let lines = strings(&["a", "b", "c"]);
    let kept = filter_searched(lines.clone(), Vec::new(), 40, SearchMethod::Fuzzy);
    assert_eq!(kept, lines);
    let lines2 = strings(&["a", "b", "c"]);
    let kept2 = filter_searched(lines2.clone(), Vec::new(), 40, SearchMethod::Exact);
    assert_eq!(kept2, lines2);
}

#[test]
fn filter_fuzzy_keeps_matches_and_drops_others() {
    let lines = strings(&["git status", "xyzzy"]);
    let kept = filter_fuzzy(lines, strings(&["git"]), 0);
    assert_eq!(kept, strings(&["git status"]));
}

#[test]
fn filter_fuzzy_threshold_drops_low_scores() {
    let lines = strings(&["git status"]);
    let kept = filter_fuzzy(lines, strings(&["git"]), i64::MAX);
    assert!(kept.is_empty());
}

#[test]
fn filter_searched_dispatches_exact() {
    let lines = strings(&["git status", "ls"]);
    let kept = filter_searched(lines, strings(&["status"]), 40, SearchMethod::Exact);
    assert_eq!(kept, strings(&["git status"]));
}

#[test]
fn filters_are_monotonic() {
    let lines = strings(&["git status", "ls", "pwd"]);
    let n = lines.len();
    assert!(filter_ignored(lines.clone(), strings(&["ls"])).len() <= n);
    assert!(filter_exact(lines.clone(), strings(&["s"])).len() <= n);
    assert!(filter_fuzzy(lines.clone(), strings(&["s"]), 0).len() <= n);
    assert!(filter_searched(lines, strings(&["s"]), 0, SearchMethod::Fuzzy).len() <= n);
}

#[test]
fn history_file_bash() {
    let p = history_file("/home/me", "/bin/bash").unwrap();
    assert_eq!(p, "/home/me/.bash_history");
}

#[test]
fn history_file_zsh() {
    let p = history_file("/home/me", "/bin/zsh").unwrap();
    assert_eq!(p, "/home/me/.zsh_history");
}

#[test]
fn history_file_unknown_shell_fails() {
    assert!(history_file("/home/me", "/bin/fish").is_err());
    assert!(history_file("/home/me", "").is_err());
}

#[test]
fn split_lines_handles_newlines_and_crlf() {
    assert_eq!(split_lines("a\nb\r\nc"), strings(&["a", "b", "c"]));
    assert_eq!(split_lines("a\nb\n"), strings(&["a", "b"]));
    assert_eq!(split_lines(""), Vec::<String>::new());
    assert_eq!(split_lines("a\n\nb"), strings(&["a", "", "b"]));
    assert_eq!(split_lines("tail"), strings(&["tail"]));
}

#[test]
fn split_lines_matches_std_lines() {
    let text = "one\ntwo\r\n\nthree";
    let expected: Vec<String> = text.lines().map(String::from).collect();
    assert_eq!(split_lines(text), expected);
}

#[test]
fn top_bottom_slices_cap_at_half() {
    let lines = strings(&["a", "a", "a", "b", "b", "c", "d", "e"]);
    let table = build_command_table(lines);
    assert_eq!(table.len(), 5);
    let total = table.len();
    let (top, bottom) = top_bottom_slices(table, 5);
    assert_eq!(top.len(), 2);
    assert_eq!(bottom.len(), 2);
    assert!(top.len() + bottom.len() <= total);
    assert_eq!(top[0].0, "a");
    assert_eq!(top[0].1, 3);
    assert_eq!(top[1].1, 2);
    assert_eq!(bottom[0].1, 1);
    assert_eq!(bottom[1].1, 1);
}

#[test]
fn top_bottom_slices_respect_requested_count() {
    let lines = strings(&["a", "a", "b", "b", "c", "d"]);
    let table = build_command_table(lines);
    let (top, bottom) = top_bottom_slices(table, 1);
    assert_eq!(top.len(), 1);
    assert_eq!(bottom.len(), 1);
    assert_eq!(top[0].1, 2);
    assert_eq!(bottom[0].1, 1);
}

#[test]
fn top_bottom_slices_empty_table() {
    let (top, bottom) = top_bottom_slices(Vec::new(), 5);
    assert!(top.is_empty());
    assert!(bottom.is_empty());
}
