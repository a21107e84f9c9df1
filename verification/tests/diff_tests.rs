#![allow(non_snake_case)]

use diff_stats::diff::{diffStats, scan_lines};
use diff_stats::diff_parse::{
    call_site_keys, declared_paths_from, declares, find_call_sites, find_functions, header_filenames, is_path_text, paths_from_groups,
    record_call_sites,
};
use diff_stats::diff_type::{diff_type, DiffFormatTyper, DiffType};
use diff_stats::result::Result;

fn lines(text: &[&str]) -> Vec<String> {
    text.iter().map(|line| line.to_string()).collect()
}

const SAMPLE: &str = "diff --git a/src/foo.c b/src/foo.c
index 0123456..789abcd 100644
--- a/src/foo.c
+++ b/src/foo.c
@@ -1,4 +1,5 @@ int main(void)
 #include <stdio.h>
-  old_call(1);
+  new_call(1);
+  printf(\"%d\", helper(2));
 return 0;
";

#[test]
fn mod_emptyFile() {
    // An empty file is read as no bytes at all.
    assert!(match diffStats(Vec::new()) {
        Some(_) => true,
        _ => false,
    });
}

#[test]
fn empty_file_counts_nothing() {
    let stats = diffStats(Vec::new()).unwrap();
    assert_eq!(stats.file_count(), 0);
    assert_eq!(stats.regions(), 0);
    assert_eq!(stats.lines_added(), 0);
    assert_eq!(stats.lines_removed(), 0);
    assert_eq!(stats.function_count(), 0);
}

#[test]
fn empty_line_is_rejected_at_once() {
    let mut typer = DiffFormatTyper::new();
    assert_eq!(typer.type_line(""), None);
    let stats = scan_lines(&lines(&[""])).result;
    assert_eq!(stats.file_count(), 0);
    assert_eq!(stats.regions(), 0);
}

#[test]
fn invalid_utf8_gives_nothing() {
    assert!(diffStats(vec![0x64, 0xff, 0xfe]).is_none());
    assert!(diffStats(vec![0xc3]).is_none());
}

#[test]
fn header_names_both_files() {
    assert_eq!(
        header_filenames("diff --git a/foo.c b/foo.c"),
        Some(("foo.c".to_string(), "foo.c".to_string()))
    );
    assert_eq!(
        header_filenames("diff --git a/old/path.rs b/new/path.rs"),
        Some(("old/path.rs".to_string(), "new/path.rs".to_string()))
    );
}

#[test]
fn header_of_another_shape_is_refused() {
    assert_eq!(header_filenames("diff --git a/foo.c"), None);
    assert_eq!(header_filenames("diff --git a/foo.c b/foo.c trailing"), None);
    assert_eq!(header_filenames(" diff --git a/foo.c b/foo.c"), None);
    assert_eq!(header_filenames("deleted file mode 100644"), None);
    assert_eq!(header_filenames(""), None);
}

#[test]
fn call_sites_are_word_runs_before_a_bracket() {
    assert_eq!(find_call_sites("+  myFunc(x, y);"), vec!["myFunc()".to_string()]);
    assert_eq!(
        find_call_sites("a(b(c), d_1 (e)); for(;;)"),
        vec!["a()".to_string(), "b()".to_string(), "for()".to_string()]
    );
    assert_eq!(find_call_sites("no calls here"), Vec::<String>::new());
    assert_eq!(find_call_sites("(lonely)"), Vec::<String>::new());
}

#[test]
fn addition_line_counts_line_and_call() {
    let stats = scan_lines(&lines(&[
        "diff --git a/a.c b/a.c",
        "index 1..2 100644",
        "--- a/a.c",
        "+++ b/a.c",
        "@@ -1 +1 @@",
        "+  myFunc(x, y);",
    ])).result;
    assert_eq!(stats.lines_added(), 1);
    assert_eq!(stats.function_calls("myFunc()"), 1);
    assert_eq!(stats.function_count(), 1);
}

#[test]
fn find_functions_counts_repeats() {
    let mut stats = Result::empty();
    find_functions("f(1) + g(f(2))", &mut stats);
    find_functions("f(3)", &mut stats);
    assert_eq!(stats.function_calls("f()"), 3);
    assert_eq!(stats.function_calls("g()"), 1);
    assert_eq!(stats.function_calls("h()"), 0);
    assert_eq!(stats.function_count(), 2);
}

#[test]
fn sample_diff_is_counted() {
    let stats = diffStats(SAMPLE.as_bytes().to_vec()).unwrap();
    assert_eq!(stats.file_count(), 1);
    assert!(stats.has_file("src/foo.c"));
    assert_eq!(stats.regions(), 1);
    assert_eq!(stats.lines_added(), 2);
    assert_eq!(stats.lines_removed(), 1);
    assert_eq!(stats.function_calls("main()"), 1);
    assert_eq!(stats.function_calls("old_call()"), 1);
    assert_eq!(stats.function_calls("new_call()"), 1);
    assert_eq!(stats.function_calls("printf()"), 1);
    assert_eq!(stats.function_calls("helper()"), 1);
    assert_eq!(stats.function_count(), 5);
}

#[test]
fn guess_looks_at_the_first_character_only() {
    assert_eq!(diff_type("diff --git ..."), DiffType::Header);
    assert_eq!(diff_type("deleted file mode 100644"), DiffType::Header);
    assert_eq!(diff_type("index 1..2"), DiffType::Index);
    assert_eq!(diff_type("new file mode 100644"), DiffType::NewMode);
    assert_eq!(diff_type("@@ -1 +1 @@"), DiffType::NewRegion);
    assert_eq!(diff_type("+++ b/x"), DiffType::Addition);
    assert_eq!(diff_type("--- a/x"), DiffType::Subtraction);
    assert_eq!(diff_type(" context"), DiffType::FileLine);
    assert_eq!(diff_type("anything"), DiffType::FileLine);
    assert_eq!(diff_type(""), DiffType::FileLine);
}

#[test]
fn regions_are_the_region_starts() {
    let outcome = scan_lines(&lines(&[
        "diff --git a/a.c b/a.c",
        "index 1..2 100644",
        "--- a/a.c",
        "+++ b/a.c",
        "@@ -1,2 +1,2 @@",
        " same",
        "@@ -10,2 +10,2 @@",
        " @@ not a start",
        "@@ -20,2 +20,2 @@",
        "diff --git a/b.c b/b.c",
        "index 3..4 100644",
        "--- a/b.c",
        "+++ b/b.c",
        "@@ -1 +1 @@",
    ]));
    assert_eq!(outcome.taken, 14);
    assert_eq!(outcome.last, Some(DiffType::NewRegion));
    assert_eq!(outcome.result.regions(), 4);
    assert_eq!(outcome.result.file_count(), 2);
}

#[test]
fn new_file_line_is_no_addition() {
    let text = [
        "diff --git a/a.c b/a.c",
        "index 1..2 100644",
        "--- a/a.c",
        "+++ b/a.c",
        "@@ -1,2 +1,4 @@",
        "+one",
        "+++ three plus signs in the body",
        "--- three minus signs in the body",
        "-two",
        "+",
    ];
    let outcome = scan_lines(&lines(&text));
    assert_eq!(outcome.taken, text.len());
    // Four lines begin with a plus sign; the one that names the new file is
    // not counted.
    assert_eq!(text.iter().filter(|line| line.starts_with('+')).count(), 4);
    assert_eq!(outcome.result.lines_added(), 3);
    assert_eq!(outcome.result.lines_removed(), 2);
}

#[test]
fn scan_ends_at_the_first_line_out_of_place() {
    let outcome = scan_lines(&lines(&[
        "diff --git a/a.c b/a.c",
        "index 1..2 100644",
        "--- a/a.c",
        "+++ b/a.c",
        "@@ -1 +1 @@",
        "+kept(1)",
        "index out of place",
        "+lost(2)",
        "diff --git a/b.c b/b.c",
    ]));
    assert_eq!(outcome.taken, 6);
    assert_eq!(outcome.last, Some(DiffType::Addition));
    assert_eq!(outcome.result.lines_added(), 1);
    assert_eq!(outcome.result.regions(), 1);
    assert_eq!(outcome.result.file_count(), 1);
    assert!(outcome.result.has_file("a.c"));
    assert!(!outcome.result.has_file("b.c"));
    assert_eq!(outcome.result.function_calls("kept()"), 1);
    assert_eq!(outcome.result.function_calls("lost()"), 0);
}

#[test]
fn scan_that_takes_no_line() {
    let outcome = scan_lines(&lines(&["+early", "diff --git a/a.c b/a.c"]));
    assert_eq!(outcome.taken, 0);
    assert_eq!(outcome.last, None);
    assert_eq!(outcome.result.file_count(), 0);
    assert_eq!(outcome.result.lines_added(), 0);
    let outcome = scan_lines(&Vec::new());
    assert_eq!(outcome.taken, 0);
    assert_eq!(outcome.last, None);
}

#[test]
fn scan_ends_at_a_header_without_two_files() {
    let outcome = scan_lines(&lines(&[
        "diff --git a/a.c b/a.c",
        "index 1..2 100644",
        "diff --git a/only-one",
        "index 1..2 100644",
    ]));
    assert_eq!(outcome.taken, 2);
    assert_eq!(outcome.last, Some(DiffType::Index));
    assert_eq!(outcome.result.file_count(), 1);
    let outcome = scan_lines(&lines(&["deleted file mode 100644"]));
    assert_eq!(outcome.taken, 0);
    assert_eq!(outcome.result.file_count(), 0);
}

#[test]
fn header_records_both_names() {
    let outcome = scan_lines(&lines(&["diff --git a/old.c b/new.c", "index 1..2 100644"]));
    assert_eq!(outcome.taken, 2);
    assert_eq!(outcome.result.file_count(), 2);
    assert!(outcome.result.has_file("old.c"));
    assert!(outcome.result.has_file("new.c"));
}

#[test]
fn header_lines_are_not_searched_for_calls() {
    let outcome = scan_lines(&lines(&[
        "diff --git a/f(x).c b/f(x).c",
        "index f(1)..g(2) 100644",
        "--- a/f(x).c",
        "+++ b/f(x).c",
        "@@ -1 +1 @@ h(void)",
        " i(1)",
    ]));
    assert_eq!(outcome.taken, 6);
    assert_eq!(outcome.result.function_calls("f()"), 0);
    assert_eq!(outcome.result.function_calls("g()"), 0);
    assert_eq!(outcome.result.function_calls("h()"), 1);
    assert_eq!(outcome.result.function_calls("i()"), 1);
    assert_eq!(outcome.result.function_count(), 2);
}

#[test]
fn deleted_file_and_mode_change_are_read() {
    let text = "diff --git a/gone.c b/gone.c\ndeleted file mode 100644\nindex 1..0\n--- a/gone.c\n+++ /dev/null\n@@ -1,2 +0,0 @@\n-first(1);\n-second(2);\ndiff --git a/made.c b/made.c\nnew file mode 100644\nindex 0..1\n--- /dev/null\n+++ b/made.c\n@@ -0,0 +1 @@\n+third(3);\n";
    let stats = diffStats(text.as_bytes().to_vec()).unwrap();
    assert_eq!(stats.file_count(), 2);
    assert!(stats.has_file("gone.c"));
    assert!(stats.has_file("made.c"));
    assert_eq!(stats.regions(), 2);
    assert_eq!(stats.lines_added(), 1);
    assert_eq!(stats.lines_removed(), 2);
    assert_eq!(stats.function_calls("first()"), 1);
    assert_eq!(stats.function_calls("third()"), 1);
}

#[test]
fn line_endings_do_not_matter() {
    let unix = diffStats(SAMPLE.as_bytes().to_vec()).unwrap();
    let dos = diffStats(SAMPLE.replace('\n', "\r\n").into_bytes()).unwrap();
    assert_eq!(unix.to_text(), dos.to_text());
    assert_eq!(dos.regions(), 1);
    assert_eq!(dos.lines_added(), 2);
    assert!(dos.has_file("src/foo.c"));
}

#[test]
fn two_diffs_of_one_file_merge_to_one_name() {
    let diff = "diff --git a/a.txt b/a.txt\nindex 1..2\n--- a/a.txt\n+++ b/a.txt\n@@ -1 +1 @@\n+x\n";
    let mut first = diffStats(diff.as_bytes().to_vec()).unwrap();
    let second = diffStats(diff.as_bytes().to_vec()).unwrap();
    first.add_assign(second);
    assert_eq!(first.file_count(), 1);
    assert_eq!(first.file_names(), vec!["a.txt".to_string()]);
    assert_eq!(first.regions(), 2);
    assert_eq!(first.lines_added(), 2);
}

#[test]
fn word_characters_of_other_alphabets_count() {
    assert_eq!(find_call_sites("größe(1) + Δ(2) + x٣(3)"), vec!["größe()", "Δ()", "x٣()"]);
    assert_eq!(find_call_sites("a-b(1) c.d(2) e::f(3)"), vec!["b()", "d()", "f()"]);
}

#[test]
fn header_with_odd_paths() {
    assert_eq!(
        header_filenames("diff --git a/a b/b b/c"),
        None
    );
    assert_eq!(
        header_filenames("diff --git a/x/ b/y b/z"),
        None
    );
    assert_eq!(
        header_filenames("diff --git a/dir/ä.rs b/dir/ö.rs"),
        Some(("dir/ä.rs".to_string(), "dir/ö.rs".to_string()))
    );
    assert_eq!(
        header_filenames("diff --git a/a\tb b/c"),
        Some(("a\tb".to_string(), "c".to_string()))
    );
    assert_eq!(header_filenames("diff --git a/ b/x"), None);
    assert_eq!(header_filenames("diff --git a/x b/"), None);
    assert_eq!(header_filenames("diff --git  a/x b/y"), None);
    assert_eq!(header_filenames("xdiff --git a/x b/y"), None);
}

#[test]
fn path_has_a_character_and_no_space() {
    assert!(is_path_text("a"));
    assert!(is_path_text("dir/file.rs"));
    assert!(is_path_text("tab\there"));
    assert!(!is_path_text(""));
    assert!(!is_path_text(" "));
    assert!(!is_path_text("a b"));
    assert!(!is_path_text("ab "));
    assert!(!is_path_text(" ab"));
}

#[test]
fn header_declares_its_two_paths() {
    assert!(declares("diff --git a/foo.c b/foo.c", "foo.c", "foo.c"));
    assert!(declares("diff --git a/x b/y", "x", "y"));
    assert!(!declares("diff --git a/x b/y", "y", "x"));
    assert!(!declares("diff --git a/x b/y", "x", "y "));
    assert!(!declares("diff --git a/x b/y z", "x", "y z"));
    assert!(!declares("diff --git a/x b/y", "", "y"));
    assert!(!declares("diff --git a/x b/y b/z", "x b/y", "z"));
    assert!(!declares("diff --git a/x b/yy", "x", "y"));
    assert!(!declares("", "x", "y"));
}

#[test]
fn paths_are_the_groups_one_and_two() {
    let group = |text: &str| Some(text.to_string());
    assert_eq!(paths_from_groups(None), None);
    assert_eq!(paths_from_groups(Some(vec![])), None);
    assert_eq!(paths_from_groups(Some(vec![group("all"), group("one")])), None);
    assert_eq!(paths_from_groups(Some(vec![group("all"), None, group("two")])), None);
    assert_eq!(paths_from_groups(Some(vec![group("all"), group("one"), None])), None);
    assert_eq!(
        paths_from_groups(Some(vec![group("all"), group("one"), group("two")])),
        Some(("one".to_string(), "two".to_string()))
    );
    assert_eq!(
        paths_from_groups(Some(vec![None, group("one"), group("two"), group("three")])),
        Some(("one".to_string(), "two".to_string()))
    );
}

#[test]
fn keys_are_the_matches_with_a_closing_bracket() {
    assert_eq!(call_site_keys(None), Vec::<String>::new());
    assert_eq!(call_site_keys(Some(vec![])), Vec::<String>::new());
    assert_eq!(
        call_site_keys(Some(vec!["f(".to_string(), "".to_string(), "g(".to_string(), "f(".to_string()])),
        vec!["f()", ")", "g()", "f()"]
    );
}

#[test]
fn call_sites_are_counted_in_order() {
    let mut stats = Result::new(vec![], 0, 0, 0, vec![("f()".to_string(), usize::MAX - 1), ("g()".to_string(), 4)]);
    record_call_sites(
        &vec!["f()".to_string(), "g()".to_string(), "f()".to_string(), "h()".to_string()],
        &mut stats,
    );
    // The count of f() stands at the largest number after one more call.
    assert_eq!(stats.function_calls("f()"), usize::MAX);
    assert_eq!(stats.function_calls("g()"), 5);
    assert_eq!(stats.function_calls("h()"), 1);
    assert_eq!(stats.function_count(), 3);
}

#[test]
fn paths_of_a_header_are_taken_from_the_groups_where_it_declares_them() {
    let group = |text: &str| Some(text.to_string());
    let header = "diff --git a/foo.c b/bar.c";
    assert_eq!(
        declared_paths_from(header, Some(vec![group(header), group("foo.c"), group("bar.c")])),
        Some(("foo.c".to_string(), "bar.c".to_string()))
    );
    assert_eq!(declared_paths_from(header, Some(vec![group(header), group("bar.c"), group("foo.c")])), None);
    assert_eq!(declared_paths_from(header, Some(vec![group(header), group("foo.c"), group("bar")])), None);
    assert_eq!(declared_paths_from(header, Some(vec![group(header), group("foo.c"), None])), None);
    assert_eq!(declared_paths_from(header, Some(vec![group(header), group("foo.c")])), None);
    assert_eq!(declared_paths_from(header, None), None);
    assert_eq!(
        declared_paths_from("diff --git a/x y b/z", Some(vec![None, group("x y"), group("z")])),
        None
    );
}
