use template_store::folder::{list_folders, resolve, template_list_folders, FolderTree};

fn leaf(name: &str) -> FolderTree {
    FolderTree { name: name.to_string(), subfolders: Vec::new() }
}

fn node(name: &str, subfolders: Vec<FolderTree>) -> FolderTree {
    FolderTree { name: name.to_string(), subfolders }
}

#[test]
fn the_root_resolves_to_itself() {
    assert_eq!(resolve("/"), None);
}

#[test]
fn a_folder_resolves_to_what_follows_the_slash() {
    assert_eq!(resolve("/Shapes/Arrows"), Some("Shapes/Arrows".to_string()));
    assert_eq!(resolve("/a"), Some("a".to_string()));
    assert_eq!(resolve("//"), Some("/".to_string()));
    assert_eq!(resolve("/\u{e9}t\u{e9}/x"), Some("\u{e9}t\u{e9}/x".to_string()));
    assert_eq!(resolve("/../x"), Some("../x".to_string()));
}

#[test]
fn an_empty_tree_has_the_root_alone() {
    assert_eq!(template_list_folders(&leaf("templates")), vec!["/".to_string()]);
}

#[test]
fn folders_come_depth_first_in_listing_order() {
    let tree = node(
        "templates",
        vec![
            node("b", vec![leaf("y"), node("x", vec![leaf("deep")])]),
            leaf("a"),
        ],
    );
    assert_eq!(
        template_list_folders(&tree),
        vec!["/", "/b", "/b/y", "/b/x", "/b/x/deep", "/a"]
    );
}

#[test]
fn the_root_comes_first_at_any_depth() {
    let mut tree = leaf("bottom");
    for depth in 0..50 {
        tree = node(&format!("level{}", depth), vec![tree]);
    }
    let folders = template_list_folders(&tree);
    assert_eq!(folders.len(), 51);
    assert_eq!(folders[0], "/");
    assert_eq!(folders[1], "/level48");
    assert!(folders[50].ends_with("/level0/bottom"));
}

#[test]
fn folders_are_added_after_what_is_there() {
    let mut folders = vec!["kept".to_string()];
    let tree = node("any", vec![node("a", vec![leaf("b")])]);
    list_folders(&mut folders, &tree, "/base/");
    assert_eq!(folders, vec!["kept", "/base/a", "/base/a/b"]);
}
