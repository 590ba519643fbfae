use bigfolders::FileEntry;
use bigfolders::export::export_csv_text;
use bigfolders::resolve::Command;
use bigfolders::resolve::resolve_scan_root;
use bigfolders::session::AppSettings;
use bigfolders::session::Mode;
use bigfolders::session::ScanSession;

fn entry(file: &str, size: u64) -> FileEntry {
    FileEntry { file: file.to_string(), size, accessed: None }
}

#[test]
fn export_omits_zero_sizes_after_header() {
    // two entries, one of size zero: a header row and one data row come out
    let entries = vec![entry("logs", 1048576), entry("tmp", 0)];
    let text = export_csv_text(&entries);
    assert_eq!(text, "File,Size\nlogs,1.0 MB\n");
}

#[test]
fn export_empty_list_is_just_the_header() {
    let entries: Vec<FileEntry> = Vec::new();
    assert_eq!(export_csv_text(&entries), "File,Size\n");
}

#[test]
fn export_quotes_paths_that_need_it() {
    let entries = vec![entry("a,b", 2048)];
    assert_eq!(export_csv_text(&entries), "File,Size\n\"a,b\",2.0 KB\n");
}

#[test]
fn export_doubles_quotes_inside_quoted_fields() {
    let entries = vec![entry("he\"llo", 1024)];
    assert_eq!(export_csv_text(&entries), "File,Size\n\"he\"\"llo\",1.0 KB\n");
}

#[test]
fn export_keeps_entry_order() {
    let entries = vec![entry("x", 1024), entry("y", 2048)];
    assert_eq!(export_csv_text(&entries), "File,Size\nx,1.0 KB\ny,2.0 KB\n");
}

#[test]
fn settings_defaults() {
    let s = AppSettings::default();
    assert_eq!(s.entries_visible, 20);
    assert!(s.show_last_accessed);
}

#[test]
fn session_defaults() {
    let s = ScanSession::default();
    assert!(matches!(s.mode, Mode::Main));
    assert!(s.entries.is_empty());
    assert_eq!(s.sort_cutoff, 1000);
    assert!(!s.scanning);
    assert!(s.status.is_empty());
    assert!(!s.show_wait_dialog);
}

#[test]
fn record_entry_ranks_every_cutoff_arrivals() {
    let mut s = ScanSession::default();
    s.sort_cutoff = 2;
    s.record_entry(entry("small", 1));
    assert_eq!(s.entries[0].file, "small");
    assert!(s.status.is_empty());
    s.record_entry(entry("big", 50));
    // the second arrival hit the cutoff: ranked, status refreshed
    assert_eq!(s.entries[0].file, "big");
    assert_eq!(s.entries[1].file, "small");
    assert_eq!(s.status, "Scanned 2 folders, showing the 20 biggest ones");
}

#[test]
fn finish_ranks_and_clears_scanning() {
    let mut s = ScanSession::default();
    s.scanning = true;
    s.record_entry(entry("a", 1));
    s.record_entry(entry("b", 9));
    s.finish();
    assert!(!s.scanning);
    assert_eq!(s.entries[0].file, "b");
    assert_eq!(s.status, "Scanned 2 folders, showing the 20 biggest ones");
}

#[test]
fn begin_scan_clears_entries() {
    let mut s = ScanSession::default();
    s.record_entry(entry("a", 1));
    s.begin_scan();
    assert!(s.entries.is_empty());
    assert!(s.scanning);
}

#[test]
fn folder_selection_waits_while_scanning() {
    let mut s = ScanSession::default();
    assert!(s.accept_folder_selection());
    assert!(s.scanning);
    assert!(!s.show_wait_dialog);
    // a second selection while the scan runs is refused with the dialog
    assert!(!s.accept_folder_selection());
    assert!(s.show_wait_dialog);
    s.close_wait_dialog();
    assert!(!s.show_wait_dialog);
}

#[test]
fn entries_visible_setting_parses_or_keeps() {
    let mut s = ScanSession::default();
    s.set_entries_visible("15");
    assert_eq!(s.settings.entries_visible, 15);
    s.set_entries_visible("nonsense");
    assert_eq!(s.settings.entries_visible, 15);
    s.set_show_last_accessed(false);
    assert!(!s.settings.show_last_accessed);
}

#[test]
fn visible_count_is_capped() {
    let mut s = ScanSession::default();
    s.settings.entries_visible = 2;
    s.record_entry(entry("a", 1));
    assert_eq!(s.visible_count(), 1);
    s.record_entry(entry("b", 2));
    s.record_entry(entry("c", 3));
    assert_eq!(s.visible_count(), 2);
}

#[test]
fn accessed_is_enriched_in_place() {
    let mut s = ScanSession::default();
    s.record_entry(entry("a", 1));
    assert!(s.entries[0].accessed.is_none());
    s.set_accessed(0, 1700000000);
    assert_eq!(s.entries[0].accessed, Some(1700000000));
    assert_eq!(s.entries[0].file, "a");
    assert_eq!(s.entries[0].size, 1);
}

#[test]
fn mode_transitions() {
    let mut s = ScanSession::default();
    s.set_mode(Mode::About);
    assert!(matches!(s.mode, Mode::About));
    s.set_mode(Mode::Settings);
    assert!(matches!(s.mode, Mode::Settings));
    s.set_mode(Mode::Main);
    assert!(matches!(s.mode, Mode::Main));
}

#[test]
fn resolve_current_user_is_the_home_itself() {
    let r = resolve_scan_root(&Command::CurrentUser, "/home/alice");
    assert_eq!(r.as_deref(), Some("/home/alice"));
}

#[test]
fn resolve_all_users_scans_the_homes_container() {
    // with a home of /home/alice, an all-users scan covers /home
    let r = resolve_scan_root(&Command::AllUsers, "/home/alice");
    assert_eq!(r.as_deref(), Some("/home"));
}

#[test]
fn resolve_selected_folder_verbatim_and_stop_nothing() {
    let r = resolve_scan_root(&Command::FolderSelected("/var/log".to_string()), "/home/alice");
    assert_eq!(r.as_deref(), Some("/var/log"));
    assert!(resolve_scan_root(&Command::Stop, "/home/alice").is_none());
}
