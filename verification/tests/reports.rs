use disk_usage::aggregate::Aggregator;
use disk_usage::extensions::ExtensionSummary;
use disk_usage::fact::FileFact;
use disk_usage::files::FileList;
use disk_usage::report::{largest_lines, ranked_lines, summary_lines, total_line};
use disk_usage::total::TotalSize;
use disk_usage::units::format_size;

fn fact(path: &str, size: u64) -> FileFact {
    FileFact::new(String::from(path), size)
}

fn list(files: &[(&str, u64)]) -> FileList {
    let mut list = FileList::identity();
    for (path, size) in files {
        assert!(list.fold(fact(path, *size)));
    }
    list
}

#[test]
fn total_report() {
    let mut total = TotalSize::identity();
    assert!(total.fold(fact("a", 1_320_702_444)));
    assert_eq!(total_line(&total), "1.23 GB");
    assert_eq!(total_line(&TotalSize::identity()), "0.00 B");
}

#[test]
fn summary_report_lines() {
    let mut summary = ExtensionSummary::identity();
    for (path, size) in [("a.rs", 1024u64), ("b.md", 10), ("c.RS", 512), ("d", 2048)] {
        assert!(summary.fold(fact(path, size)));
    }
    let lines = summary_lines(&summary);
    assert_eq!(
        lines,
        vec![
            format!("{:<10} {:>6} files  {:>10}", "(none)", 1, "2.00 KB"),
            format!("{:<10} {:>6} files  {:>10}", "rs", 2, "1.50 KB"),
            format!("{:<10} {:>6} files  {:>10}", "md", 1, "10.00 B"),
        ]
    );
    assert_eq!(lines[1], "rs              2 files     1.50 KB");
}

#[test]
fn summary_report_with_wide_columns() {
    let mut summary = ExtensionSummary::identity();
    let mut n: u32 = 0;
    while n < 1_234_567 {
        assert!(summary.fold(fact("x.averylongextension", 1 << 40)));
        n += 1;
    }
    let lines = summary_lines(&summary);
    let size = format_size(1_234_567u64 << 40);
    assert_eq!(
        lines,
        vec![format!("{:<10} {:>6} files  {:>10}", "averylongextension", 1_234_567, size)]
    );
    assert_eq!(lines[0], "averylongextension 1234567 files  1234567.00 TB");
}

#[test]
fn summary_report_counts_characters_not_bytes() {
    let mut summary = ExtensionSummary::identity();
    assert!(summary.fold(fact("x.äöü", 1)));
    let lines = summary_lines(&summary);
    assert_eq!(lines, vec![format!("{:<10} {:>6} files  {:>10}", "äöü", 1, "1.00 B")]);
}

#[test]
fn ranked_report_lines() {
    let files = list(&[("a", 5), ("some/long/path.txt", 1), ("c", 9 * 1024), ("d", 3)]);
    let lines = ranked_lines(&files, 3);
    assert_eq!(
        lines,
        vec![
            format!("{}. {:<10} {:>8}", 1, "c", "9.00 KB"),
            format!("{}. {:<10} {:>8}", 2, "a", "5.00 B"),
            format!("{}. {:<10} {:>8}", 3, "d", "3.00 B"),
        ]
    );
    assert_eq!(lines[0], "1. c           9.00 KB");
    let all = ranked_lines(&files, 10);
    assert_eq!(all.len(), 4);
    assert_eq!(all[3], format!("{}. {:<10} {:>8}", 4, "some/long/path.txt", "1.00 B"));
    assert_eq!(ranked_lines(&files, 0).len(), 0);
}

#[test]
fn ranked_report_counts_past_nine() {
    let mut files = FileList::identity();
    let mut i: u64 = 0;
    while i < 12 {
        assert!(files.fold(fact("f", 100 - i)));
        i += 1;
    }
    let lines = ranked_lines(&files, 12);
    assert_eq!(lines[9], format!("{}. {:<10} {:>8}", 10, "f", "91.00 B"));
    assert_eq!(lines[11], format!("{}. {:<10} {:>8}", 12, "f", "89.00 B"));
}

#[test]
fn largest_report_lines() {
    let files = list(&[("a", 5), ("b", 1 << 30), ("sub/c.bin", 9)]);
    let lines = largest_lines(&files);
    assert_eq!(
        lines,
        vec![
            format!("{:<10} {}", "1.00 GB", "b"),
            format!("{:<10} {}", "9.00 B", "sub/c.bin"),
            format!("{:<10} {}", "5.00 B", "a"),
        ]
    );
    assert_eq!(lines[0], "1.00 GB    b");
}

#[test]
fn largest_report_shows_at_most_ten() {
    let mut files = FileList::identity();
    let mut i: u64 = 0;
    while i < 15 {
        assert!(files.fold(fact("f", i)));
        i += 1;
    }
    let lines = largest_lines(&files);
    assert_eq!(lines.len(), 10);
    assert_eq!(lines[0], format!("{:<10} {}", "14.00 B", "f"));
    assert_eq!(lines[9], format!("{:<10} {}", "5.00 B", "f"));
}
