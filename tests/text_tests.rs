use mini_git::blob::Blob;
use mini_git::commit::{format_timestamp, format_timezone, Commit};
use mini_git::repo::Repo;
use mini_git::tree_node::{TreeNode, TreeNodeEntry};

fn empty_blob_hash() -> mini_git::hash::Hash {
    mini_git::hash::Hash::from_hex("e69de29bb2d1d6434b8b29ae775ad8c2e48c5391").unwrap()
}

#[test]
fn hex_names_parse_back_to_hashes() {
    let h = empty_blob_hash();
    assert_eq!(h.to_hex(), "e69de29bb2d1d6434b8b29ae775ad8c2e48c5391");
    assert_eq!(h.bytes()[0], 0xe6);
    assert!(mini_git::hash::Hash::from_hex("e69d").is_none());
    assert!(mini_git::hash::Hash::from_hex("zz9de29bb2d1d6434b8b29ae775ad8c2e48c5391").is_none());
}

#[test]
fn timestamps_are_plain_decimals() {
    assert_eq!(format_timestamp(0), "0");
    assert_eq!(format_timestamp(1700000000), "1700000000");
    assert_eq!(format_timestamp(-42), "-42");
    assert_eq!(format_timestamp(i64::MIN), "-9223372036854775808");
}

#[test]
fn time_zones_drop_the_colon() {
    assert_eq!(format_timezone(0), "+0000");
    assert_eq!(format_timezone(3600), "+0100");
    assert_eq!(format_timezone(-(5 * 3600 + 30 * 60)), "-0530");
    assert_eq!(format_timezone(3600 + 61), "+010101");
    assert_eq!(format_timezone(86399), "+235959");
}

#[test]
fn commit_at_a_given_time() {
    let c = Commit::new_at(empty_blob_hash(), vec![], 1700000000, 7200, String::from("m"));
    let text = String::from_utf8(c.serialize()).unwrap();
    assert!(text.contains("\nauthor Name <name@example.com> 1700000000 +0200\n"));
    assert!(text.contains("\ncommitter Name <name@example.com> 1700000000 +0200\n"));
}

#[test]
fn commit_now_has_the_fixed_author() {
    let c = Commit::new_current_time(empty_blob_hash(), vec![], String::from("now"));
    let text = String::from_utf8(c.serialize()).unwrap();
    assert!(text.contains("\nauthor Name <name@example.com> "));
    assert!(text.ends_with("\n\nnow\n"));
}

#[test]
fn entry_and_tree_text() {
    let h = empty_blob_hash();
    let dir = TreeNodeEntry::new(String::from("40000"), String::from("dir1"), h);
    assert_eq!(
        dir.to_text(),
        "040000 e69de29bb2d1d6434b8b29ae775ad8c2e48c5391\tdir1"
    );
    assert_eq!(
        dir.listing_line("tree"),
        "040000 tree e69de29bb2d1d6434b8b29ae775ad8c2e48c5391\tdir1"
    );
    let file = TreeNodeEntry::new(String::from("100644"), String::from("a.txt"), h);
    assert_eq!(
        file.listing_line("file"),
        "100644 file e69de29bb2d1d6434b8b29ae775ad8c2e48c5391\ta.txt"
    );
    let node = TreeNode::new(vec![dir, file]);
    assert_eq!(
        node.to_text(),
        "040000 e69de29bb2d1d6434b8b29ae775ad8c2e48c5391\tdir1\n\
100644 e69de29bb2d1d6434b8b29ae775ad8c2e48c5391\ta.txt\n"
    );
}

#[test]
fn blob_text_only_for_utf8() {
    assert_eq!(Blob::new(b"Hello World!".to_vec()).to_text(), Some(String::from("Hello World!")));
    assert_eq!(Blob::new(vec![0xff, 0xfe]).to_text(), None);
}

#[test]
fn repo_keeps_its_root() {
    let repo = Repo::new(String::from("/work/tree"));
    assert_eq!(repo.get_root(), "/work/tree");
}
