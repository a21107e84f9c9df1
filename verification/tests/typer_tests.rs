use diff_stats::diff_type::{diff_type, DiffFormatTyper, DiffType};

// Feeds `lines` to a fresh reader and returns what it says of each.
fn run(lines: &[&str]) -> Vec<Option<DiffType>> {
    let mut typer = DiffFormatTyper::new();
    lines.iter().map(|line| typer.type_line(line)).collect()
}

// A reader that has just accepted a line of category `last`.
fn reader_after(last: DiffType) -> DiffFormatTyper {
    let path: &[&str] = match last {
        DiffType::Header => &["diff --git a/x b/x"],
        DiffType::Index => &["diff --git a/x b/x", "index 1..2"],
        DiffType::NewMode => &["diff --git a/x b/x", "new file mode 100644"],
        DiffType::FileDeleted => &["diff --git a/x b/x", "deleted file mode 100644"],
        DiffType::OriginalFile => &["diff --git a/x b/x", "index 1..2", "--- a/x"],
        DiffType::NewFile => &["diff --git a/x b/x", "index 1..2", "--- a/x", "+++ b/x"],
        DiffType::NewRegion => &["diff --git a/x b/x", "index 1..2", "--- a/x", "+++ b/x", "@@ -1 +1 @@"],
        DiffType::FileLine => &["diff --git a/x b/x", "index 1..2", "--- a/x", "+++ b/x", "@@ -1 +1 @@", " same"],
        DiffType::Addition => &["diff --git a/x b/x", "index 1..2", "--- a/x", "+++ b/x", "@@ -1 +1 @@", "+new"],
        DiffType::Subtraction => &["diff --git a/x b/x", "index 1..2", "--- a/x", "+++ b/x", "@@ -1 +1 @@", "-old"],
    };
    let mut typer = DiffFormatTyper::new();
    for line in path {
        assert!(typer.type_line(line).is_some());
    }
    assert_eq!(typer.last_type(), Some(last));
    typer
}

// One line for each guess that the first character can give.
const GUESSES: [(&str, DiffType); 7] = [
    ("diff --git a/x b/x", DiffType::Header),
    ("index 1..2", DiffType::Index),
    ("new file mode 100644", DiffType::NewMode),
    ("@@ -1 +1 @@", DiffType::NewRegion),
    ("+added", DiffType::Addition),
    ("-removed", DiffType::Subtraction),
    (" context", DiffType::FileLine),
];

#[test]
fn file_body_is_region_context_addition_subtraction() {
    assert!(DiffType::NewRegion.is_file_body());
    assert!(DiffType::FileLine.is_file_body());
    assert!(DiffType::Addition.is_file_body());
    assert!(DiffType::Subtraction.is_file_body());
    assert!(!DiffType::Header.is_file_body());
    assert!(!DiffType::Index.is_file_body());
    assert!(!DiffType::OriginalFile.is_file_body());
    assert!(!DiffType::NewFile.is_file_body());
    assert!(!DiffType::NewMode.is_file_body());
    assert!(!DiffType::FileDeleted.is_file_body());
}

#[test]
fn guess_of_a_line_that_begins_with_another_alphabet() {
    assert_eq!(diff_type("día"), DiffType::Header);
    assert_eq!(diff_type("é+"), DiffType::FileLine);
    assert_eq!(diff_type("\ttab"), DiffType::FileLine);
    assert_eq!(diff_type("D"), DiffType::FileLine);
}

#[test]
fn fresh_reader_accepts_a_header_only() {
    for (line, guess) in GUESSES {
        let mut typer = DiffFormatTyper::new();
        let expected = if guess == DiffType::Header { Some(DiffType::Header) } else { None };
        assert_eq!(typer.type_line(line), expected, "line {:?}", line);
        assert_eq!(typer.last_type(), expected);
    }
    let mut typer = DiffFormatTyper::new();
    assert_eq!(typer.type_line(""), None);
}

#[test]
fn after_header_come_index_mode_or_deletion() {
    for (line, guess) in GUESSES {
        let mut typer = reader_after(DiffType::Header);
        let expected = match guess {
            DiffType::Index => Some(DiffType::Index),
            DiffType::NewMode => Some(DiffType::NewMode),
            _ => None,
        };
        assert_eq!(typer.type_line(line), expected, "line {:?}", line);
    }
    assert_eq!(reader_after(DiffType::Header).type_line("deleted file mode 100644"), Some(DiffType::FileDeleted));
    assert_eq!(reader_after(DiffType::Header).type_line("deleted"), Some(DiffType::FileDeleted));
    assert_eq!(reader_after(DiffType::Header).type_line("delete"), None);
    assert_eq!(reader_after(DiffType::Header).type_line("d"), None);
}

#[test]
fn after_index_come_original_file_or_header() {
    for (line, guess) in GUESSES {
        let mut typer = reader_after(DiffType::Index);
        let expected = match guess {
            DiffType::Header => Some(DiffType::Header),
            _ => None,
        };
        assert_eq!(typer.type_line(line), expected, "line {:?}", line);
    }
    assert_eq!(reader_after(DiffType::Index).type_line("--- a/x"), Some(DiffType::OriginalFile));
    assert_eq!(reader_after(DiffType::Index).type_line("---"), Some(DiffType::OriginalFile));
    assert_eq!(reader_after(DiffType::Index).type_line("--"), None);
    assert_eq!(reader_after(DiffType::Index).type_line("-- -"), None);
    assert_eq!(reader_after(DiffType::Index).type_line("deleted file mode 100644"), Some(DiffType::Header));
}

#[test]
fn after_original_file_comes_new_file() {
    for (line, _) in GUESSES {
        let mut typer = reader_after(DiffType::OriginalFile);
        assert_eq!(typer.type_line(line), None, "line {:?}", line);
    }
    assert_eq!(reader_after(DiffType::OriginalFile).type_line("+++ b/x"), Some(DiffType::NewFile));
    assert_eq!(reader_after(DiffType::OriginalFile).type_line("+++"), Some(DiffType::NewFile));
    assert_eq!(reader_after(DiffType::OriginalFile).type_line("++"), None);
    assert_eq!(reader_after(DiffType::OriginalFile).type_line("--- a/x"), None);
}

#[test]
fn after_new_file_comes_a_region() {
    for (line, guess) in GUESSES {
        let mut typer = reader_after(DiffType::NewFile);
        let expected = match guess {
            DiffType::NewRegion => Some(DiffType::NewRegion),
            _ => None,
        };
        assert_eq!(typer.type_line(line), expected, "line {:?}", line);
    }
}

#[test]
fn after_mode_or_deletion_comes_index() {
    for last in [DiffType::NewMode, DiffType::FileDeleted] {
        for (line, guess) in GUESSES {
            let mut typer = reader_after(last);
            let expected = match guess {
                DiffType::Index => Some(DiffType::Index),
                _ => None,
            };
            assert_eq!(typer.type_line(line), expected, "line {:?} after {:?}", line, last);
        }
    }
}

#[test]
fn in_the_body_come_body_lines_or_a_header() {
    for last in [DiffType::NewRegion, DiffType::FileLine, DiffType::Addition, DiffType::Subtraction] {
        for (line, guess) in GUESSES {
            let mut typer = reader_after(last);
            let expected = match guess {
                DiffType::Index | DiffType::NewMode => None,
                other => Some(other),
            };
            assert_eq!(typer.type_line(line), expected, "line {:?} after {:?}", line, last);
        }
        assert_eq!(reader_after(last).type_line(""), Some(DiffType::FileLine));
        assert_eq!(reader_after(last).type_line("+++ b/x"), Some(DiffType::Addition));
        assert_eq!(reader_after(last).type_line("--- a/x"), Some(DiffType::Subtraction));
    }
}

#[test]
fn rejection_resets_and_the_next_header_recovers() {
    let seen = run(&[
        "diff --git a/x b/x",
        "@@ -1 +1 @@",
        "index 1..2",
        " context",
        "diff --git a/y b/y",
        "index 3..4",
    ]);
    assert_eq!(
        seen,
        vec![
            Some(DiffType::Header),
            None,
            None,
            None,
            Some(DiffType::Header),
            Some(DiffType::Index),
        ]
    );
}

#[test]
fn reader_holds_what_it_returned() {
    let mut typer = DiffFormatTyper::new();
    assert_eq!(typer.last_type(), None);
    for line in ["diff --git a/x b/x", "index 1..2", "garbage", "diff --git a/x b/x"] {
        let accepted = typer.type_line(line);
        assert_eq!(typer.last_type(), accepted);
    }
}

#[test]
fn two_fresh_readers_agree() {
    let lines = [
        "diff --git a/x b/x",
        "new file mode 100644",
        "index 1..2",
        "--- /dev/null",
        "+++ b/x",
        "@@ -0,0 +1,2 @@",
        "+one",
        "+two",
        "index out of place",
        "+lost",
        "diff --git a/y b/y",
        "deleted file mode 100644",
        "index 3..4",
        "diff --git a/z b/z",
    ];
    let first = run(&lines);
    let second = run(&lines);
    assert_eq!(first, second);
    assert_eq!(
        first,
        vec![
            Some(DiffType::Header),
            Some(DiffType::NewMode),
            Some(DiffType::Index),
            Some(DiffType::OriginalFile),
            Some(DiffType::NewFile),
            Some(DiffType::NewRegion),
            Some(DiffType::Addition),
            Some(DiffType::Addition),
            None,
            None,
            Some(DiffType::Header),
            Some(DiffType::FileDeleted),
            Some(DiffType::Index),
            Some(DiffType::Header),
        ]
    );
}
