use codesize::collectors::{Collector, PerExtensionCount, PerExtensionMax};
use codesize::metric::CountType;
use codesize::scan::{admits, count_file, count_type_for, human_readable_base, wanted};

fn filter(names: &[&str]) -> Vec<String> {
    names.iter().map(|name| name.to_string()).collect()
}

const TREE: [(&str, u64, u64); 8] = [
    ("src/main.rs", 1200, 40),
    ("src/lib.rs", 300, 12),
    ("cmd/tool.go", 5000, 210),
    ("README.txt", 80, 3),
    ("docs/guide.txt", 900, 31),
    ("Makefile", 60, 5),
    (".gitignore", 10, 2),
    ("cmd/util.go", 1, 0),
];

fn scan_sums(count_type: CountType, names: &[&str]) -> PerExtensionCount {
    let wanted_extensions = filter(names);
    let mut counts = PerExtensionCount::new();
    for (path, size, lines) in TREE {
        let read = match count_type {
            CountType::Files => 0,
            CountType::Bytes => size,
            CountType::Lines => lines,
        };
        let expected = wanted(&wanted_extensions, path);
        assert_eq!(count_file(&mut counts, count_type, &wanted_extensions, path, read), expected);
    }
    counts
}

#[test]
fn sizes_are_counted_before_files_and_lines_otherwise() {
    assert_eq!(count_type_for(true, false), CountType::Bytes);
    assert_eq!(count_type_for(true, true), CountType::Bytes);
    assert_eq!(count_type_for(false, true), CountType::Files);
    assert_eq!(count_type_for(false, false), CountType::Lines);
}

#[test]
fn bytes_are_made_readable_by_1024_and_all_else_by_1000() {
    assert_eq!(human_readable_base(true, CountType::Bytes), Some(1024));
    assert_eq!(human_readable_base(true, CountType::Files), Some(1000));
    assert_eq!(human_readable_base(true, CountType::Lines), Some(1000));
}

#[test]
fn numbers_are_printed_as_they_are_unless_asked_otherwise() {
    assert_eq!(human_readable_base(false, CountType::Bytes), None);
    assert_eq!(human_readable_base(false, CountType::Files), None);
    assert_eq!(human_readable_base(false, CountType::Lines), None);
}

#[test]
fn without_named_extensions_every_extension_is_admitted() {
    let none = filter(&[]);
    assert!(admits(&none, "rs"));
    assert!(admits(&none, ""));
    assert!(admits(&none, "anything"));
    assert!(wanted(&none, "Makefile"));
}

#[test]
fn with_named_extensions_only_these_are_admitted() {
    let some = filter(&["rs", "go"]);
    assert!(admits(&some, "rs"));
    assert!(admits(&some, "go"));
    assert!(!admits(&some, "txt"));
    assert!(!admits(&some, ""));
    assert!(!admits(&some, "RS"));
    assert!(!admits(&some, "r"));
    assert!(wanted(&some, "src/main.rs"));
    assert!(!wanted(&some, "README.txt"));
    assert!(!wanted(&some, "rs"));
}

#[test]
fn the_empty_extension_can_be_named() {
    let some = filter(&[""]);
    assert!(admits(&some, ""));
    assert!(!admits(&some, "rs"));
    assert!(wanted(&some, "Makefile"));
    assert!(wanted(&some, "notes."));
    assert!(!wanted(&some, ".gitignore"));
    assert!(!wanted(&some, "a.rs"));
}

#[test]
fn a_report_with_named_extensions_has_rows_for_these_only() {
    let counts = scan_sums(CountType::Files, &["rs", "go"]);
    assert_eq!(counts.total("txt"), 0);
    assert_eq!(counts.total(""), 0);
    assert_eq!(counts.print_counts(None), vec![".go 2", ".rs 2"]);
}

#[test]
fn counting_files_gives_the_number_of_files() {
    let counts = scan_sums(CountType::Files, &[]);
    let total: u64 =
        ["rs", "go", "txt", "", "gitignore"].iter().map(|ext| counts.total(ext)).sum();
    assert_eq!(total, TREE.len() as u64);
    assert_eq!(
        counts.print_counts(None),
        vec![
            ".go        2",
            ".rs        2",
            ".txt       2",
            "           1",
            ".gitignore 1"
        ]
    );
}

#[test]
fn counting_bytes_gives_the_sizes_added_up() {
    let counts = scan_sums(CountType::Bytes, &[]);
    let total: u64 =
        ["rs", "go", "txt", "", "gitignore"].iter().map(|ext| counts.total(ext)).sum();
    assert_eq!(total, TREE.iter().map(|file| file.1).sum::<u64>());
    assert_eq!(
        counts.print_counts(None),
        vec![
            ".go        5001",
            ".rs        1500",
            ".txt       980",
            "           60",
            ".gitignore 10"
        ]
    );
}

#[test]
fn counting_lines_gives_the_lines_added_up() {
    let counts = scan_sums(CountType::Lines, &["go", "txt"]);
    assert_eq!(counts.print_counts(None), vec![".go  210", ".txt 34"]);
}

#[test]
fn a_file_that_is_not_wanted_changes_nothing() {
    let some = filter(&["rs"]);
    let mut counts = PerExtensionCount::new();
    assert!(!count_file(&mut counts, CountType::Bytes, &some, "notes.txt", 100));
    assert!(counts.is_empty());
    assert!(count_file(&mut counts, CountType::Bytes, &some, "main.rs", 100));
    assert!(!count_file(&mut counts, CountType::Bytes, &some, "main.rs.bak", 100));
    assert_eq!(counts.print_counts(None), vec![".rs 100"]);
}

#[test]
fn the_largest_files_are_those_of_wanted_extensions() {
    let some = filter(&["rs", "txt"]);
    let mut counts = PerExtensionMax::new(1);
    for (path, size, _) in TREE {
        count_file(&mut counts, CountType::Bytes, &some, path, size);
    }
    assert_eq!(
        counts.print_counts(Some(1024)),
        vec!["rs", "  1200 src/main.rs", "txt", "  900 docs/guide.txt"]
    );
}

#[test]
fn where_files_are_counted_the_largest_are_the_last_by_path() {
    let mut counts = PerExtensionMax::new(2);
    for (path, _, _) in TREE {
        count_file(&mut counts, CountType::Files, &filter(&[]), path, 0);
    }
    assert_eq!(
        counts.print_counts(None),
        vec![
            "",
            "  1 Makefile",
            "gitignore",
            "  1 .gitignore",
            "go",
            "  1 cmd/tool.go",
            "  1 cmd/util.go",
            "rs",
            "  1 src/lib.rs",
            "  1 src/main.rs",
            "txt",
            "  1 README.txt",
            "  1 docs/guide.txt"
        ]
    );
}
