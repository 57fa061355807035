use mini_git::object::Object;
use mini_git::tree::{basename, build_tree, file_mode, sort_entries, write_tree, DirEntry, FileMode};

fn file(name: &str, content: &str) -> DirEntry {
    DirEntry::File {
        name: String::from(name),
        mode: FileMode::Regular,
        content: content.as_bytes().to_vec(),
    }
}

fn dir(name: &str, entries: Vec<DirEntry>) -> DirEntry {
    DirEntry::Dir { name: String::from(name), entries }
}

/// file1, dir1/file_in_dir_1, dir1/file_in_dir_2 and dir2/file_in_dir_3, all empty,
/// listed in sorted order.
fn sample_listing() -> Vec<DirEntry> {
    let contents = "";
    vec![
        dir(
            "dir1",
            vec![file("file_in_dir_1", contents), file("file_in_dir_2", contents)],
        ),
        dir("dir2", vec![file("file_in_dir_3", contents)]),
        file("file1", contents),
    ]
}

#[test]
fn test_basename() {
    assert_eq!(basename("dir1/dir2/file.txt"), "file.txt");
    assert_eq!(basename("dir1/dir2/dir3"), "dir3");
    assert_eq!(basename("dir1/dir2/dir3/"), "dir3");
}

#[test]
fn basename_of_plain_name_is_itself() {
    assert_eq!(basename("file1"), "file1");
    assert_eq!(basename(""), "");
}

#[test]
fn test_build_tree() {
    let tree = build_tree(&sample_listing());
    assert_eq!(tree.len(), 7);
    assert_eq!(tree.iter().filter(|obj| obj.get_type() == "file").count(), 4);
    assert_eq!(tree.iter().filter(|obj| obj.get_type() == "tree").count(), 3);
}

#[test]
fn test_write_tree() {
    let (hash_got, writes) = write_tree("/repo", &sample_listing()).unwrap();
    let hash_want = "192403f9d8c4872a30e949685d9e5e7f91f06933";
    assert_eq!(hash_got.to_hex(), hash_want);
    assert_eq!(writes.len(), 7);
    assert_eq!(writes[6].0.to_hex(), hash_want);
    assert_eq!(
        writes[6].1,
        "/repo/.git/objects/19/2403f9d8c4872a30e949685d9e5e7f91f06933"
    );
}

#[test]
fn test_read_tree() {
    let (hash, writes) = write_tree("/repo", &sample_listing()).unwrap();
    let root = writes.iter().find(|w| w.0 == hash).unwrap();

    let tree_node = Object::read(&root.2).unwrap().as_tree();
    let wants = ["dir1", "dir2", "file1"];
    assert_eq!(tree_node.entries().len(), wants.len());
    for (got, want) in tree_node.entries().iter().zip(wants) {
        assert_eq!(got.name, want)
    }
}

#[test]
fn root_entries_follow_sorted_listing() {
    let tree = build_tree(&sample_listing());
    let root = tree.into_iter().last().unwrap().as_tree();
    let names: Vec<&str> = root.entries().iter().map(|e| e.name.as_str()).collect();
    assert_eq!(names, vec!["dir1", "dir2", "file1"]);
    let modes: Vec<&str> = root.entries().iter().map(|e| e.mode.as_str()).collect();
    assert_eq!(modes, vec!["40000", "40000", "100644"]);
    assert_eq!(
        root.entries()[0].hash.to_hex(),
        "48476f6bcf1f94d1f8fefe15f44d90db14241663"
    );
    assert_eq!(
        root.entries()[2].hash.to_hex(),
        "e69de29bb2d1d6434b8b29ae775ad8c2e48c5391"
    );
}

#[test]
fn children_come_before_the_nodes_that_name_them() {
    let tree = build_tree(&sample_listing());
    let hashes: Vec<String> = tree.iter().map(|o| o.hash().to_hex()).collect();
    for (i, obj) in tree.iter().enumerate() {
        if let Object::TreeNode(node) = obj {
            for entry in node.entries() {
                let pos = hashes.iter().position(|h| *h == entry.hash.to_hex()).unwrap();
                assert!(pos < i);
            }
        }
    }
}

#[test]
fn store_dir_is_left_out_and_modes_are_recorded() {
    let listing = vec![
        dir(".git", vec![file("HEAD", "ref: refs/heads/main\n")]),
        DirEntry::File {
            name: String::from("link"),
            mode: FileMode::Symlink,
            content: b"target".to_vec(),
        },
        DirEntry::File {
            name: String::from("run.sh"),
            mode: FileMode::Executable,
            content: b"echo".to_vec(),
        },
    ];
    let tree = build_tree(&listing);
    assert_eq!(tree.len(), 3);
    let root = tree.into_iter().last().unwrap().as_tree();
    let modes: Vec<&str> = root.entries().iter().map(|e| e.mode.as_str()).collect();
    assert_eq!(modes, vec!["120000", "100755"]);
}

#[test]
fn empty_directory_gives_no_snapshot() {
    assert!(write_tree("/repo", &Vec::new()).is_none());
    let only_store = vec![dir(".git", vec![])];
    assert!(write_tree("/repo", &only_store).is_none());
}

#[test]
fn listing_is_sorted_by_name_bytes() {
    let unsorted = vec![
        file("file1", ""),
        dir("dir2", vec![file("file_in_dir_3", "")]),
        file("B", ""),
        dir(
            "dir1",
            vec![file("file_in_dir_1", ""), file("file_in_dir_2", "")],
        ),
        file("dir1.txt", ""),
    ];
    let sorted = sort_entries(unsorted).unwrap();
    let names: Vec<String> = sorted
        .iter()
        .map(|e| match e {
            DirEntry::File { name, .. } => name.clone(),
            DirEntry::Dir { name, .. } => name.clone(),
        })
        .collect();
    assert_eq!(names, vec!["B", "dir1", "dir1.txt", "dir2", "file1"]);
}

#[test]
fn sorted_listing_gives_sorted_root() {
    let unsorted = vec![
        file("file1", ""),
        dir("dir2", vec![file("file_in_dir_3", "")]),
        dir(
            "dir1",
            vec![file("file_in_dir_1", ""), file("file_in_dir_2", "")],
        ),
    ];
    let (hash, _) = write_tree("/repo", &sort_entries(unsorted).unwrap()).unwrap();
    assert_eq!(hash.to_hex(), "192403f9d8c4872a30e949685d9e5e7f91f06933");
}

#[test]
fn duplicate_names_cannot_be_sorted() {
    let twice = vec![file("a", "1"), file("b", ""), dir("a", vec![])];
    assert!(sort_entries(twice).is_none());
}

#[test]
fn mode_from_metadata() {
    assert_eq!(file_mode(false, 0o100644), FileMode::Regular);
    assert_eq!(file_mode(false, 0o100755), FileMode::Executable);
    assert_eq!(file_mode(false, 0o100744), FileMode::Executable);
    assert_eq!(file_mode(false, 0o100655), FileMode::Regular);
    assert_eq!(file_mode(true, 0o120777), FileMode::Symlink);
}
