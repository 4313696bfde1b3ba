use disk_usage::aggregate::Aggregator;
use disk_usage::extensions::ExtensionSummary;
use disk_usage::fact::FileFact;
use disk_usage::files::{top_n, top_ten, FileList, FileRecord, DEFAULT_TOP};
use disk_usage::ranking::top_indices;
use disk_usage::total::TotalSize;

fn fact(path: &str, size: u64) -> FileFact {
    FileFact::new(String::from(path), size)
}

fn record(path: &str, size: u64) -> FileRecord {
    FileRecord { path: String::from(path), size }
}

fn sizes_of(files: &Vec<FileRecord>) -> Vec<u64> {
    files.iter().map(|f| f.size).collect()
}

fn paths_of(files: &Vec<FileRecord>) -> Vec<String> {
    files.iter().map(|f| f.path.clone()).collect()
}

#[test]
fn total_starts_at_zero() {
    assert_eq!(TotalSize::identity().bytes(), 0);
}

#[test]
fn total_sums_sizes() {
    let mut total = TotalSize::identity();
    assert!(total.fold(fact("a", 10)));
    assert!(total.fold(fact("b", 20)));
    assert!(total.fold(fact("c", 30)));
    assert_eq!(total.bytes(), 60);
}

#[test]
fn total_refuses_overflow_and_keeps_value() {
    let mut total = TotalSize::identity();
    assert!(total.fold(fact("a", u64::MAX - 1)));
    assert!(!total.fold(fact("b", 2)));
    assert_eq!(total.bytes(), u64::MAX - 1);
    assert!(total.fold(fact("c", 1)));
    assert_eq!(total.bytes(), u64::MAX);
}

#[test]
fn total_merge_adds() {
    let mut left = TotalSize::identity();
    assert!(left.fold(fact("a", 5)));
    let mut right = TotalSize::identity();
    assert!(right.fold(fact("b", 7)));
    assert!(right.fold(fact("c", 8)));
    assert!(left.merge(right));
    assert_eq!(left.bytes(), 20);
}

#[test]
fn total_merge_refuses_overflow() {
    let mut left = TotalSize::identity();
    assert!(left.fold(fact("a", u64::MAX)));
    let mut right = TotalSize::identity();
    assert!(right.fold(fact("b", 1)));
    assert!(!left.merge(right));
    assert_eq!(left.bytes(), u64::MAX);
}

#[test]
fn merge_of_parts_equals_fold_of_whole() {
    let all = [("a.txt", 1u64), ("b.rs", 2), ("c", 3), ("d.TXT", 4), ("e.rs", 5), ("f.md", 6)];
    let mut split: usize = 0;
    while split <= all.len() {
        let mut whole_total = TotalSize::identity();
        let mut whole_summary = ExtensionSummary::identity();
        let mut whole_list = FileList::identity();
        let mut left = (TotalSize::identity(), ExtensionSummary::identity(), FileList::identity());
        let mut right = (TotalSize::identity(), ExtensionSummary::identity(), FileList::identity());
        for (i, (path, size)) in all.iter().enumerate() {
            assert!(whole_total.fold(fact(path, *size)));
            assert!(whole_summary.fold(fact(path, *size)));
            assert!(whole_list.fold(fact(path, *size)));
            let part = if i < split { &mut left } else { &mut right };
            assert!(part.0.fold(fact(path, *size)));
            assert!(part.1.fold(fact(path, *size)));
            assert!(part.2.fold(fact(path, *size)));
        }
        assert!(left.0.merge(right.0));
        assert!(left.1.merge(right.1));
        assert!(left.2.merge(right.2));
        assert_eq!(left.0.bytes(), whole_total.bytes());
        let merged: Vec<(String, u64, usize)> =
            left.1.entries().iter().map(|e| (e.label.clone(), e.size, e.count)).collect();
        let folded: Vec<(String, u64, usize)> =
            whole_summary.entries().iter().map(|e| (e.label.clone(), e.size, e.count)).collect();
        assert_eq!(merged, folded);
        assert_eq!(paths_of(left.2.files()), paths_of(whole_list.files()));
        assert_eq!(sizes_of(left.2.files()), sizes_of(whole_list.files()));
        split += 1;
    }
}

#[test]
fn summary_groups_case_insensitively() {
    let mut summary = ExtensionSummary::identity();
    assert!(summary.fold(fact("A.TXT", 10)));
    assert!(summary.fold(fact("b.txt", 5)));
    assert_eq!(summary.len(), 1);
    let entries = summary.entries();
    assert_eq!(entries[0].label, "txt");
    assert_eq!(entries[0].size, 15);
    assert_eq!(entries[0].count, 2);
}

#[test]
fn summary_groups_files_without_extension() {
    let mut summary = ExtensionSummary::identity();
    assert!(summary.fold(fact("README", 7)));
    assert!(summary.fold(fact("dir.d/LICENSE", 3)));
    assert!(summary.fold(fact(".gitignore", 1)));
    assert_eq!(summary.len(), 1);
    assert_eq!(summary.entries()[0].label, "(none)");
    assert_eq!(summary.entries()[0].size, 11);
    assert_eq!(summary.entries()[0].count, 3);
}

#[test]
fn summary_keeps_first_seen_order() {
    let mut summary = ExtensionSummary::identity();
    for (path, size) in [("a.rs", 1u64), ("b.md", 2), ("c.rs", 3), ("d", 4), ("e.md", 5)] {
        assert!(summary.fold(fact(path, size)));
    }
    let got: Vec<(String, u64, usize)> =
        summary.entries().iter().map(|e| (e.label.clone(), e.size, e.count)).collect();
    assert_eq!(
        got,
        vec![
            (String::from("rs"), 4, 2),
            (String::from("md"), 7, 2),
            (String::from("(none)"), 4, 1),
        ]
    );
}

#[test]
fn summary_is_complete() {
    let files = [("a.rs", 11u64), ("b.md", 22), ("c.RS", 33), ("d", 44), ("e.Md", 55), ("f.x", 0)];
    let mut summary = ExtensionSummary::identity();
    let mut total = TotalSize::identity();
    for (path, size) in files {
        assert!(summary.fold(fact(path, size)));
        assert!(total.fold(fact(path, size)));
    }
    let size_sum: u64 = summary.entries().iter().map(|e| e.size).sum();
    let count_sum: usize = summary.entries().iter().map(|e| e.count).sum();
    assert_eq!(size_sum, total.bytes());
    assert_eq!(size_sum, 165);
    assert_eq!(count_sum, files.len());
}

#[test]
fn summary_sorts_by_descending_size() {
    let mut summary = ExtensionSummary::identity();
    for (path, size) in [("a.rs", 1u64), ("b.md", 20), ("c.txt", 5), ("d.rs", 3), ("e", 4)] {
        assert!(summary.fold(fact(path, size)));
    }
    let sorted: Vec<(String, u64, usize)> =
        summary.sorted_entries().iter().map(|e| (e.label.clone(), e.size, e.count)).collect();
    assert_eq!(
        sorted,
        vec![
            (String::from("md"), 20, 1),
            (String::from("txt"), 5, 1),
            (String::from("rs"), 4, 2),
            (String::from("(none)"), 4, 1),
        ]
    );
}

#[test]
fn summary_refuses_overflow_and_keeps_groups() {
    let mut summary = ExtensionSummary::identity();
    assert!(summary.fold(fact("a.bin", u64::MAX)));
    assert!(summary.fold(fact("b.txt", 1)));
    assert!(!summary.fold(fact("c.bin", 1)));
    assert_eq!(summary.len(), 2);
    assert_eq!(summary.entries()[0].size, u64::MAX);
    assert_eq!(summary.entries()[0].count, 1);
    assert!(summary.fold(fact("d.txt", u64::MAX - 1)));
    assert_eq!(summary.entries()[1].size, u64::MAX);
}

#[test]
fn summary_merge_refuses_overflow_and_keeps_groups() {
    let mut left = ExtensionSummary::identity();
    assert!(left.fold(fact("a.txt", 1)));
    assert!(left.fold(fact("a.bin", u64::MAX)));
    let mut right = ExtensionSummary::identity();
    assert!(right.fold(fact("b.txt", 2)));
    assert!(right.fold(fact("b.bin", 1)));
    assert!(!left.merge(right));
    assert_eq!(left.len(), 2);
    assert_eq!(left.entries()[0].size, 1);
    assert_eq!(left.entries()[1].size, u64::MAX);
}

#[test]
fn summary_merge_adds_keywise_and_inserts_new_keys() {
    let mut left = ExtensionSummary::identity();
    assert!(left.fold(fact("a.txt", 1)));
    assert!(left.fold(fact("a.rs", 2)));
    let mut right = ExtensionSummary::identity();
    assert!(right.fold(fact("b.md", 4)));
    assert!(right.fold(fact("b.TXT", 8)));
    assert!(left.merge(right));
    let got: Vec<(String, u64, usize)> =
        left.entries().iter().map(|e| (e.label.clone(), e.size, e.count)).collect();
    assert_eq!(
        got,
        vec![(String::from("txt"), 9, 2), (String::from("rs"), 2, 1), (String::from("md"), 4, 1)]
    );
}

#[test]
fn list_keeps_walk_order() {
    let mut list = FileList::identity();
    assert_eq!(list.len(), 0);
    assert!(list.fold(fact("z", 1)));
    assert!(list.fold(fact("a", 9)));
    assert!(list.fold(fact("m", 5)));
    assert_eq!(list.len(), 3);
    assert_eq!(paths_of(list.files()), vec!["z", "a", "m"]);
    assert_eq!(sizes_of(list.files()), vec![1, 9, 5]);
    let files = list.into_files();
    assert_eq!(files.len(), 3);
}

#[test]
fn list_merge_concatenates() {
    let mut left = FileList::identity();
    assert!(left.fold(fact("a", 1)));
    let mut right = FileList::identity();
    assert!(right.fold(fact("b", 2)));
    assert!(right.fold(fact("c", 3)));
    assert!(left.merge(right));
    assert_eq!(paths_of(left.files()), vec!["a", "b", "c"]);
}

#[test]
fn top_two_of_four() {
    let files = vec![record("a", 5), record("b", 1), record("c", 9), record("d", 3)];
    let top = top_n(&files, 2);
    assert_eq!(sizes_of(&top), vec![9, 5]);
    assert_eq!(paths_of(&top), vec!["c", "a"]);
}

#[test]
fn top_more_than_there_are() {
    let files = vec![record("a", 5), record("b", 1), record("c", 9), record("d", 3)];
    let top = top_n(&files, 100);
    assert_eq!(sizes_of(&top), vec![9, 5, 3, 1]);
    let all = top_n(&files, usize::MAX);
    assert_eq!(sizes_of(&all), vec![9, 5, 3, 1]);
    let exact = top_n(&files, 4);
    assert_eq!(paths_of(&exact), vec!["c", "a", "d", "b"]);
}

#[test]
fn top_none() {
    let files = vec![record("a", 5), record("b", 1)];
    assert_eq!(top_n(&files, 0).len(), 0);
    let empty: Vec<FileRecord> = Vec::new();
    assert_eq!(top_n(&empty, 3).len(), 0);
}

#[test]
fn top_is_stable_on_ties() {
    let files = vec![
        record("first", 4),
        record("big", 8),
        record("second", 4),
        record("third", 4),
        record("small", 1),
        record("big2", 8),
    ];
    let top = top_n(&files, 6);
    assert_eq!(paths_of(&top), vec!["big", "big2", "first", "second", "third", "small"]);
    let three = top_n(&files, 3);
    assert_eq!(paths_of(&three), vec!["big", "big2", "first"]);
    let four = top_n(&files, 4);
    assert_eq!(paths_of(&four), vec!["big", "big2", "first", "second"]);
}

#[test]
fn top_ten_is_fixed_at_ten() {
    assert_eq!(DEFAULT_TOP, 10);
    let mut files: Vec<FileRecord> = Vec::new();
    let mut i: u64 = 0;
    while i < 25 {
        files.push(record(&format!("f{}", i), (i * 7) % 25));
        i += 1;
    }
    let top = top_ten(&files);
    assert_eq!(sizes_of(&top), vec![24, 23, 22, 21, 20, 19, 18, 17, 16, 15]);
    let few = vec![record("a", 1), record("b", 2)];
    assert_eq!(sizes_of(&top_ten(&few)), vec![2, 1]);
}

#[test]
fn top_agrees_with_stable_sort() {
    let mut state: u64 = 12345;
    let mut round: u32 = 0;
    while round < 200 {
        let mut files: Vec<FileRecord> = Vec::new();
        let mut keys: Vec<u64> = Vec::new();
        let len: u64 = round as u64 % 40;
        let mut i: u64 = 0;
        while i < len {
            state = state.wrapping_mul(6364136223846793005).wrapping_add(1442695040888963407);
            let size: u64 = (state >> 33) % 8;
            files.push(record(&format!("f{}", i), size));
            keys.push(size);
            i += 1;
        }
        let mut expected: Vec<usize> = (0..files.len()).collect();
        expected.sort_by(|a, b| keys[*b].cmp(&keys[*a]));
        for n in [0usize, 1, 2, 5, 10, 39, 40, 41] {
            let want: Vec<usize> = expected.iter().take(n).cloned().collect();
            assert_eq!(top_indices(&keys, n), want);
            let top = top_n(&files, n);
            let want_paths: Vec<String> = want.iter().map(|i| files[*i].path.clone()).collect();
            assert_eq!(paths_of(&top), want_paths);
        }
        round += 1;
    }
}
