use template_store::fingerprint::{
    hex_digit, hex_lower, list_hash, template_list_hash, Entry, TreeItem,
};
use template_store::listing::FileText;
use template_store::window::{PosSize, Position, Size};

fn text(name: &str, content: &str) -> TreeItem {
    TreeItem::File(FileText { name: name.to_string(), text: Some(content.to_string()) })
}

#[test]
fn bytes_are_written_in_lowercase_hex() {
    assert_eq!(hex_lower(&[]), "");
    assert_eq!(hex_lower(&[0x00, 0x0f, 0xa0, 0xff, 0x1b]), "000fa0ff1b");
    assert_eq!(hex_digit(0), "0");
    assert_eq!(hex_digit(9), "9");
    assert_eq!(hex_digit(10), "a");
    assert_eq!(hex_digit(15), "f");
}

#[test]
fn digests_are_sha1_of_the_text() {
    let entries = template_list_hash(&vec![text("dir/abc.txt", "abc"), text("dir/empty", "")]);
    assert_eq!(
        entries,
        vec![
            Entry {
                path: "dir/abc.txt".to_string(),
                hash: "a9993e364706816aba3e25717850c26c9cd0d89d".to_string(),
            },
            Entry {
                path: "dir/empty".to_string(),
                hash: "da39a3ee5e6b4b0d3255bfef95601890afd80709".to_string(),
            },
        ]
    );
}

#[test]
fn each_file_gets_a_digest_of_its_own() {
    let alone = template_list_hash(&vec![text("b", "abc")]);
    let after_another = template_list_hash(&vec![text("a", "something else"), text("b", "abc")]);
    assert_eq!(alone[0], after_another[1]);
    assert_ne!(after_another[0].hash, after_another[1].hash);
}

#[test]
fn digests_have_forty_digits() {
    let entries = template_list_hash(&vec![text("a", "x"), text("b", "some longer text\n")]);
    for e in entries.iter() {
        assert_eq!(e.hash.len(), 40);
        assert!(e.hash.chars().all(|c| c.is_ascii_digit() || ('a'..='f').contains(&c)));
    }
}

#[test]
fn files_that_are_no_text_have_no_fingerprint() {
    let files = vec![
        TreeItem::File(FileText { name: "bin".to_string(), text: None }),
        text("t", "abc"),
    ];
    let entries = template_list_hash(&files);
    assert_eq!(entries.len(), 1);
    assert_eq!(entries[0].path, "t");
}

#[test]
fn fingerprints_are_added_after_what_is_there() {
    let mut entries = vec![Entry { path: "kept".to_string(), hash: "0".repeat(40) }];
    list_hash(&mut entries, &vec![text("t", "abc")]);
    assert_eq!(entries.len(), 2);
    assert_eq!(entries[0].path, "kept");
    assert_eq!(entries[1].hash, "a9993e364706816aba3e25717850c26c9cd0d89d");
}

#[test]
fn two_runs_agree_and_a_change_shows_in_one_digest() {
    let before = vec![text("a", "one"), text("b", "two"), text("c", "three")];
    let again = template_list_hash(&before);
    assert_eq!(template_list_hash(&before), again);
    let after = vec![text("a", "one"), text("b", "two!"), text("c", "three")];
    let changed = template_list_hash(&after);
    assert_eq!(changed[0], again[0]);
    assert_eq!(changed[2], again[2]);
    assert_eq!(changed[1].path, again[1].path);
    assert_ne!(changed[1].hash, again[1].hash);
}

#[test]
fn folders_are_walked_depth_first() {
    let tree = vec![
        text("root/z", "1"),
        TreeItem::Folder(vec![
            text("root/sub/b", "2"),
            TreeItem::Folder(vec![text("root/sub/deep/c", "3")]),
            TreeItem::Folder(Vec::new()),
            text("root/sub/a", "abc"),
        ]),
        text("root/y", "4"),
    ];
    let entries = template_list_hash(&tree);
    let paths: Vec<&str> = entries.iter().map(|e| e.path.as_str()).collect();
    assert_eq!(
        paths,
        vec!["root/z", "root/sub/b", "root/sub/deep/c", "root/sub/a", "root/y"]
    );
    assert_eq!(entries[3].hash, "a9993e364706816aba3e25717850c26c9cd0d89d");
}

#[test]
fn an_empty_tree_has_no_fingerprints() {
    assert!(template_list_hash(&Vec::new()).is_empty());
    assert!(template_list_hash(&vec![TreeItem::Folder(Vec::new())]).is_empty());
}

#[test]
fn window_geometry_splits_into_position_and_size() {
    let p = PosSize { x: -5, y: 7, width: 800, height: 600 };
    assert_eq!(p.to_physical_position(), Position { x: -5, y: 7 });
    assert_eq!(p.to_physical_size(), Size { width: 800, height: 600 });
    assert_eq!(PosSize::new(Position { x: -5, y: 7 }, Size { width: 800, height: 600 }), p);
    assert_eq!(PosSize::default(), PosSize { x: 0, y: 0, width: 0, height: 0 });
}
