use template_store::natural::{natural_order_of, NameOrder};
use template_store::listing::{
    files_to_read, read_at, readable_entries, reload_at, sort_entries, template_dir_list,
    template_dir_read, template_dir_reload, DirData, FileError, FileStat, FileText, FileTime,
    TemplateDirEntry,
};

fn text(name: &str, content: &str) -> FileText {
    FileText { name: name.to_string(), text: Some(content.to_string()) }
}

fn entry(name: &str, content: &str) -> TemplateDirEntry {
    TemplateDirEntry { name: name.to_string(), data: Some(content.to_string()) }
}

fn file(name: &str, secs: u64, nanos: u32) -> FileStat {
    FileStat { name: name.to_string(), is_file: true, modified: Some(FileTime { secs, nanos }) }
}

fn names(d: &DirData) -> Vec<String> {
    d.entries.iter().map(|e| e.name.clone()).collect()
}

#[test]
fn full_read_orders_entries_naturally() {
    let files = vec![text("b.txt", "B"), text("a.txt", "A"), text("10.txt", "ten")];
    let d = read_at(Some(files), 77).unwrap();
    assert_eq!(names(&d), vec!["10.txt", "a.txt", "b.txt"]);
    assert_eq!(d.entries[0].data, Some("ten".to_string()));
    assert_eq!(d.entries[1].data, Some("A".to_string()));
    assert_eq!(d.entries[2].data, Some("B".to_string()));
    assert_eq!(d.last_read, 77);
}

#[test]
fn full_read_orders_numbers_by_value() {
    let files = vec![text("page10", ""), text("page9", ""), text("page010", ""), text("page1", "")];
    let d = read_at(Some(files), 0).unwrap();
    assert_eq!(names(&d), vec!["page1", "page9", "page10", "page010"]);
}

#[test]
fn files_that_are_no_text_are_left_out() {
    let files = vec![
        text("b", "1"),
        FileText { name: "image.png".to_string(), text: None },
        text("a", "2"),
    ];
    assert_eq!(readable_entries(&files), vec![entry("b", "1"), entry("a", "2")]);
    let d = read_at(Some(files.clone()), 5).unwrap();
    assert_eq!(d.entries, vec![entry("a", "2"), entry("b", "1")]);
    let d = reload_at(Some(files), 6).unwrap();
    assert_eq!(d.entries, vec![entry("b", "1"), entry("a", "2")]);
    assert_eq!(d.last_read, 6);
}

#[test]
fn a_missing_folder_is_not_found() {
    assert_eq!(read_at(None, 1), Err(FileError::FileNotFound));
    assert_eq!(reload_at(None, 1), Err(FileError::FileNotFound));
    assert_eq!(template_dir_read(None), Err(FileError::FileNotFound));
    assert_eq!(template_dir_reload(None), Err(FileError::FileNotFound));
    assert_eq!(template_dir_list(None), Err(FileError::FileNotFound));
}

#[test]
fn an_empty_folder_gives_an_empty_snapshot() {
    let d = read_at(Some(Vec::new()), 3).unwrap();
    assert!(d.entries.is_empty());
    assert_eq!(template_dir_list(Some(Vec::new())), Ok(Vec::new()));
}

#[test]
fn reads_carry_the_current_time() {
    let before = template_store::clock::get_now();
    let d = template_dir_read(Some(vec![text("b", "1"), text("a", "2")])).unwrap();
    assert_eq!(d.entries, vec![entry("a", "2"), entry("b", "1")]);
    assert!(d.last_read >= before);
    assert!(before > 1_600_000_000);
    let r = template_dir_reload(Some(vec![text("b", "1"), text("a", "2")])).unwrap();
    assert_eq!(r.entries, vec![entry("b", "1"), entry("a", "2")]);
    assert!(r.last_read >= d.last_read);
}

#[test]
fn a_full_read_takes_every_regular_file() {
    let listing = vec![
        file("a", 10, 0),
        FileStat { name: "sub".to_string(), is_file: false, modified: None },
        file("b", 0, 0),
        FileStat { name: "c".to_string(), is_file: true, modified: None },
    ];
    assert_eq!(files_to_read(&listing, None), vec![0, 2, 3]);
}

#[test]
fn a_reload_takes_only_what_changed() {
    let t0 = 1000;
    let listing = vec![file("a", 999, 999_999_999), file("b", 1000, 0), file("c", 1001, 0)];
    assert_eq!(files_to_read(&listing, Some(t0)), vec![2]);
    let d = reload_at(Some(vec![text("c", "new")]), 1002).unwrap();
    assert_eq!(d.entries, vec![entry("c", "new")]);
}

#[test]
fn a_reload_compares_below_the_second() {
    let listing = vec![file("a", 1000, 1), file("b", 1000, 0)];
    assert_eq!(files_to_read(&listing, Some(1000)), vec![0]);
    assert!(FileTime { secs: 1000, nanos: 1 }.after(1000));
    assert!(!FileTime { secs: 1000, nanos: 0 }.after(1000));
    assert!(!FileTime { secs: 999, nanos: 5 }.after(1000));
    assert!(FileTime { secs: 1001, nanos: 0 }.after(1000));
}

#[test]
fn a_reload_takes_files_of_unknown_time_and_no_folders() {
    let listing = vec![
        FileStat { name: "dir".to_string(), is_file: false, modified: Some(FileTime { secs: 5000, nanos: 0 }) },
        FileStat { name: "x".to_string(), is_file: true, modified: None },
        file("old", 1, 0),
    ];
    assert_eq!(files_to_read(&listing, Some(1000)), vec![1]);
    assert_eq!(files_to_read(&listing, Some(u64::MAX)), vec![1]);
}

#[test]
fn names_are_listed_in_natural_order() {
    let listing = vec![
        file("item10", 0, 0),
        FileStat { name: "folder".to_string(), is_file: false, modified: None },
        file("item2", 0, 0),
        file("item1", 0, 0),
    ];
    assert_eq!(
        template_dir_list(Some(listing)),
        Ok(vec!["item1".to_string(), "item2".to_string(), "item10".to_string()])
    );
}

#[test]
fn sorting_twice_changes_nothing() {
    let entries = vec![
        entry("b2", "1"),
        entry("a", "2"),
        entry("b02", "3"),
        entry("10", "4"),
        entry("9", "5"),
        entry("b2", "6"),
    ];
    let once = sort_entries(entries.clone());
    let twice = sort_entries(once.clone());
    assert_eq!(once, twice);
    let mut sorted_names: Vec<String> = once.iter().map(|e| e.name.clone()).collect();
    let mut given_names: Vec<String> = entries.iter().map(|e| e.name.clone()).collect();
    sorted_names.sort();
    given_names.sort();
    assert_eq!(sorted_names, given_names);
}

#[test]
fn entries_with_equal_names_keep_their_order() {
    let entries = vec![entry("b2", "1"), entry("b02", "2"), entry("b2", "3"), entry("a", "4")];
    let sorted = sort_entries(entries);
    assert_eq!(sorted, vec![entry("a", "4"), entry("b2", "1"), entry("b02", "2"), entry("b2", "3")]);
}

#[test]
fn no_sorted_entry_comes_after_a_later_one() {
    let names = ["b2", "a", "b02", "10", "9", "b2", "", "a10", "a9", "!", "b"];
    let entries: Vec<TemplateDirEntry> = names.iter().map(|n| entry(n, "")).collect();
    let sorted = sort_entries(entries);
    assert_eq!(sorted.len(), names.len());
    for i in 0..sorted.len() {
        for j in i..sorted.len() {
            let order = natural_order_of(sorted[i].name.as_bytes(), sorted[j].name.as_bytes());
            assert_ne!(order, NameOrder::Greater);
        }
    }
}

#[test]
fn a_clock_before_the_epoch_reads_as_zero() {
    assert_eq!(template_store::clock::seconds_or_zero(None), 0);
    assert_eq!(template_store::clock::seconds_or_zero(Some(0)), 0);
    assert_eq!(template_store::clock::seconds_or_zero(Some(1_700_000_000)), 1_700_000_000);
    assert_eq!(template_store::clock::seconds_or_zero(Some(u64::MAX)), u64::MAX);
}
