use bigfolders::aggregate::Aggregator;
use bigfolders::aggregate::aggregate_tree;
use bigfolders::aggregate::scan_children;
use bigfolders::model::FsNode;
use bigfolders::rank::rerank;
use bigfolders::validate::checked_total;
use bigfolders::validate::snapshot_is_well_formed;

fn file(path: &str, size: u64) -> FsNode {
    FsNode::File { path: path.to_string(), size }
}

fn link(path: &str) -> FsNode {
    FsNode::Symlink { path: path.to_string() }
}

fn dir(path: &str, size: u64, children: Vec<FsNode>) -> FsNode {
    FsNode::Dir { path: path.to_string(), size, children }
}

#[test]
fn aggregate_single_file_emits_nothing() {
    let root = file("/data/a.bin", 123);
    let entries = aggregate_tree(&root);
    assert!(entries.is_empty());
}

#[test]
fn aggregate_empty_dir_reports_own_size() {
    let root = dir("/data", 4096, vec![]);
    let entries = aggregate_tree(&root);
    assert_eq!(entries.len(), 1);
    assert_eq!(entries[0].file, "/data");
    assert_eq!(entries[0].size, 4096);
    assert!(entries[0].accessed.is_none());
}

#[test]
fn aggregate_sums_files_and_subdirs() {
    let root = dir(
        "/r",
        0,
        vec![
            file("/r/a", 10),
            dir("/r/s", 0, vec![file("/r/s/b", 20), file("/r/s/c", 30)]),
            file("/r/d", 5),
        ],
    );
    let entries = aggregate_tree(&root);
    assert_eq!(entries.len(), 2);
    assert_eq!(entries[0].file, "/r/s");
    assert_eq!(entries[0].size, 50);
    assert_eq!(entries[1].file, "/r");
    assert_eq!(entries[1].size, 65);
}

#[test]
fn postorder_nested_dirs_inner_first() {
    let root = dir(
        "/r",
        0,
        vec![dir("/r/a", 0, vec![dir("/r/a/b", 0, vec![file("/r/a/b/f", 10)])])],
    );
    let entries = aggregate_tree(&root);
    let names: Vec<&str> = entries.iter().map(|e| e.file.as_str()).collect();
    assert_eq!(names, vec!["/r/a/b", "/r/a", "/r"]);
    assert_eq!(entries[0].size, 10);
    assert_eq!(entries[1].size, 10);
    assert_eq!(entries[2].size, 10);
}

#[test]
fn root_size_is_sum_of_all_files() {
    let root = dir(
        "/top",
        0,
        vec![
            dir("/top/x", 0, vec![file("/top/x/1", 100), file("/top/x/2", 200)]),
            dir("/top/y", 0, vec![dir("/top/y/z", 0, vec![file("/top/y/z/3", 300)])]),
            file("/top/4", 400),
        ],
    );
    let entries = aggregate_tree(&root);
    let last = entries.last().unwrap();
    assert_eq!(last.file, "/top");
    assert_eq!(last.size, 1000);
}

#[test]
fn symlinks_are_never_traversed_and_count_zero() {
    // the link stands where a cycle back to an ancestor would be on disk;
    // the scan terminates and the link adds nothing
    let root = dir(
        "/r",
        0,
        vec![dir("/r/a", 0, vec![file("/r/a/f", 64), link("/r/a/back_to_r")]), link("/r/loop")],
    );
    let entries = aggregate_tree(&root);
    let names: Vec<&str> = entries.iter().map(|e| e.file.as_str()).collect();
    assert_eq!(names, vec!["/r/a", "/r"]);
    assert_eq!(entries[0].size, 64);
    assert_eq!(entries[1].size, 64);
}

#[test]
fn scan_children_skips_top_level_files_and_links() {
    let root = dir(
        "/home",
        999,
        vec![
            file("/home/readme", 7),
            dir("/home/alice", 0, vec![file("/home/alice/f", 10)]),
            link("/home/ghost"),
            dir("/home/bob", 0, vec![]),
        ],
    );
    let entries = scan_children(&root);
    let names: Vec<&str> = entries.iter().map(|e| e.file.as_str()).collect();
    assert_eq!(names, vec!["/home/alice", "/home/bob"]);
    assert_eq!(entries[0].size, 10);
    assert_eq!(entries[1].size, 0);
}

#[test]
fn two_dirs_example_sizes_and_ranking() {
    // a root with A/ holding one 4096-byte file and B/ empty
    let root = dir(
        "/root",
        0,
        vec![
            dir("/root/A", 0, vec![file("/root/A/f", 4096)]),
            dir("/root/B", 0, vec![]),
        ],
    );
    let mut entries = scan_children(&root);
    assert_eq!(entries.len(), 2);
    assert_eq!(entries[0].file, "/root/A");
    assert!(entries[0].size >= 4096);
    assert_eq!(entries[1].file, "/root/B");
    assert_eq!(entries[1].size, 0);
    rerank(&mut entries);
    assert_eq!(entries[0].file, "/root/A");
    assert_eq!(entries[1].file, "/root/B");
}

#[test]
fn stopping_after_k_entries_keeps_them() {
    let root = dir(
        "/r",
        0,
        vec![
            dir("/r/a", 0, vec![file("/r/a/f", 1)]),
            dir("/r/b", 0, vec![file("/r/b/f", 2)]),
            dir("/r/c", 0, vec![file("/r/c/f", 3)]),
        ],
    );
    let full = scan_children(&root);
    assert_eq!(full.len(), 3);

    let mut agg = Aggregator::for_scan(&root);
    let mut collected = Vec::new();
    for _ in 0..2 {
        collected.push(agg.next().unwrap());
    }
    // a stop request: the machine is simply not stepped again
    drop(agg);
    assert_eq!(collected.len(), 2);
    for k in 0..2 {
        assert_eq!(collected[k].file, full[k].file);
        assert_eq!(collected[k].size, full[k].size);
    }
}

#[test]
fn aggregator_reports_done_and_stays_done() {
    let root = dir("/r", 5, vec![]);
    let mut agg = Aggregator::new(&root);
    let first = agg.next().unwrap();
    assert_eq!(first.file, "/r");
    assert_eq!(first.size, 5);
    assert!(agg.next().is_none());
    assert!(agg.next().is_none());
}

#[test]
fn well_formedness_check_accepts_and_rejects() {
    let good = dir("/r", 0, vec![file("/r/a", 1), file("/r/b", 2)]);
    assert!(snapshot_is_well_formed(&good));
    let bad = dir("/r", 0, vec![file("/r/a", 1), file("/r/a", 2)]);
    assert!(!snapshot_is_well_formed(&bad));
}

#[test]
fn checked_total_detects_overflow() {
    let good = dir("/r", 1, vec![file("/r/a", 41)]);
    assert_eq!(checked_total(&good), Some(42));
    let huge = dir("/r", 1, vec![file("/r/a", u64::MAX)]);
    assert_eq!(checked_total(&huge), None);
}
