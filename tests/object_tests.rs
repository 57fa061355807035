use mini_git::blob::Blob;
use mini_git::bytes_reader::BytesReader;
use mini_git::codec::{compress, decompress};
use mini_git::commit::Commit;
use mini_git::object::{get_obj_path, Header, Object, ObjectError};
use mini_git::tree_node::{TreeNode, TreeNodeEntry};

fn hash_of_hex(hex: &str) -> mini_git::hash::Hash {
    let mut b = [0u8; 20];
    for i in 0..20 {
        b[i] = u8::from_str_radix(&hex[2 * i..2 * i + 2], 16).unwrap();
    }
    mini_git::hash::Hash::new(b)
}

#[test]
fn test_read_blob() {
    let contents = "Hello World!";
    let obj = Object::Blob(Blob::new(contents.as_bytes().to_vec()));
    let (hash, _path, compressed) = obj.write("/repo");
    assert_eq!(hash.to_hex(), "c57eff55ebc0c54973903af5f72bac72762cf4f4");

    let blob = Object::read(&compressed).unwrap().as_blob();
    assert_eq!(blob.content, contents.as_bytes());
}

#[test]
fn test_write_blob() {
    let contents = "Hello World!";
    let hash_want = "c57eff55ebc0c54973903af5f72bac72762cf4f4";
    let blob = Blob::new(String::from(contents).bytes().collect());
    let obj = Object::Blob(blob);
    let (hash_got, path, encoded_got) = obj.write("/repo");
    assert_eq!(hash_got.to_hex(), hash_want);
    assert_eq!(
        path,
        "/repo/.git/objects/c5/7eff55ebc0c54973903af5f72bac72762cf4f4"
    );
    let stored = decompress(&encoded_got).unwrap();
    assert!(stored.starts_with(b"blob 12\0Hello World!"));
    assert_eq!(stored, b"blob 12\0Hello World!".to_vec());
}

#[test]
fn blob_round_trip() {
    for content in [&b""[..], b"a", b"two\nlines\0with nul", b"blob 3\0abc"] {
        let blob = Blob::new(content.to_vec());
        let bytes = blob.serialize();
        match Object::parse(&bytes).unwrap() {
            Object::Blob(b) => assert_eq!(b.content, content),
            _ => panic!("not a blob"),
        }
    }
}

#[test]
fn tree_round_trip_keeps_entries_and_order() {
    let h1 = hash_of_hex("e69de29bb2d1d6434b8b29ae775ad8c2e48c5391");
    let h2 = hash_of_hex("48476f6bcf1f94d1f8fefe15f44d90db14241663");
    let node = TreeNode::new(vec![
        TreeNodeEntry::new(String::from("100644"), String::from("zeta"), h1),
        TreeNodeEntry::new(String::from("40000"), String::from("alpha"), h2),
        TreeNodeEntry::new(String::from("100755"), String::from("naïve.sh"), h1),
    ]);
    let bytes = node.serialize();
    let parsed = Object::parse(&bytes).unwrap().as_tree();
    let got: Vec<(String, String, String)> = parsed
        .entries()
        .iter()
        .map(|e| (e.mode.clone(), e.name.clone(), e.hash.to_hex()))
        .collect();
    let want: Vec<(String, String, String)> = node
        .entries()
        .iter()
        .map(|e| (e.mode.clone(), e.name.clone(), e.hash.to_hex()))
        .collect();
    assert_eq!(got, want);
}

#[test]
fn tree_entry_encoding_is_binary() {
    let h = hash_of_hex("e69de29bb2d1d6434b8b29ae775ad8c2e48c5391");
    let e = TreeNodeEntry::new(String::from("100644"), String::from("a"), h);
    let mut want = b"100644 a\0".to_vec();
    want.extend_from_slice(&h.bytes());
    assert_eq!(e.encode(), want);
    let node = TreeNode::new(vec![e]);
    let bytes = node.serialize();
    assert!(bytes.starts_with(b"tree 29\0100644 a\0"));
    assert_eq!(bytes.len(), 8 + 29);
}

#[test]
fn header_encode_and_parse() {
    let h = Header::new(String::from("blob"), 12);
    assert_eq!(h.encode(), b"blob 12\0".to_vec());
    let bytes = b"tree 1234\0rest";
    let mut r = BytesReader::new(bytes);
    let parsed = Header::parse(&mut r).unwrap();
    assert_eq!(parsed.kind, "tree");
    assert_eq!(parsed.size, 1234);
    assert_eq!(r.read_all(), b"rest".to_vec());
}

#[test]
fn header_without_delimiters_is_a_framing_error() {
    let mut r = BytesReader::new(b"blob12\0");
    assert!(matches!(Header::parse(&mut r), Err(ObjectError::Framing)));
    let mut r = BytesReader::new(b"blob 12");
    assert!(matches!(Header::parse(&mut r), Err(ObjectError::Framing)));
    let mut r = BytesReader::new(b"blob 1x\0");
    assert!(matches!(Header::parse(&mut r), Err(ObjectError::Framing)));
    let mut r = BytesReader::new(b"blob \0");
    assert!(matches!(Header::parse(&mut r), Err(ObjectError::Framing)));
}

#[test]
fn each_error_kind_has_its_input() {
    assert!(matches!(Object::parse(b"blob 5\0abc"), Err(ObjectError::SizeMismatch)));
    assert!(matches!(Object::parse(b"commit 3\0abc"), Err(ObjectError::UnsupportedType)));
    assert!(matches!(Object::parse(b"tag 0\0"), Err(ObjectError::UnsupportedType)));
    assert!(matches!(Object::parse(b"tree 3\0abc"), Err(ObjectError::Framing)));
    assert!(matches!(Object::parse(b"no header"), Err(ObjectError::Framing)));
    assert!(matches!(Object::read(b"not zlib"), Err(ObjectError::Corruption)));
    let mut truncated = compress(b"blob 12\0Hello World!");
    truncated.truncate(truncated.len() - 3);
    assert!(matches!(Object::read(&truncated), Err(ObjectError::Corruption)));
}

#[test]
fn codec_round_trip() {
    for b in [&b""[..], b"x", b"Hello World!", &[0u8, 255, 7, 7, 7, 7, 7, 7, 7][..]] {
        let c = compress(b);
        assert_ne!(c, b.to_vec());
        assert_eq!(decompress(&c).unwrap(), b.to_vec());
    }
    let long: Vec<u8> = (0..10000u32).map(|i| (i % 251) as u8).collect();
    assert_eq!(decompress(&compress(&long)).unwrap(), long);
}

#[test]
fn hash_is_deterministic_and_sensitive() {
    assert_eq!(mini_git::hash::Hash::hash(b"abc").to_hex(), "a9993e364706816aba3e25717850c26c9cd0d89d");
    assert_eq!(mini_git::hash::Hash::hash(b"abc").to_hex(), mini_git::hash::Hash::hash(b"abc").to_hex());
    assert_eq!(mini_git::hash::Hash::hash(b"abd").to_hex(), "cb4cc28df0fdbe0ecf9d9662e294b118092a5735");
    assert_ne!(mini_git::hash::Hash::hash(b"abc"), mini_git::hash::Hash::hash(b"abd"));
}

#[test]
fn hex_text_is_lowercase_and_padded() {
    let mut b = [0u8; 20];
    b[0] = 0x0a;
    b[19] = 0xff;
    let h = mini_git::hash::Hash::new(b);
    assert_eq!(h.to_hex(), "0a000000000000000000000000000000000000ff");
    assert_eq!(h.bytes(), b);
    let (dir, file) = h.shard_parts();
    assert_eq!(dir, "0a");
    assert_eq!(file, "000000000000000000000000000000000000ff");
    assert_eq!(
        get_obj_path("/r", &h),
        "/r/.git/objects/0a/000000000000000000000000000000000000ff"
    );
}

#[test]
fn commit_without_parents_has_no_parent_line() {
    let tree = hash_of_hex("192403f9d8c4872a30e949685d9e5e7f91f06933");
    let c = Commit::new(
        tree,
        vec![],
        String::from("1700000000"),
        String::from("+0100"),
        String::from("msg"),
    );
    let payload = "tree 192403f9d8c4872a30e949685d9e5e7f91f06933\n\
author Name <name@example.com> 1700000000 +0100\n\
committer Name <name@example.com> 1700000000 +0100\n\
\n\
msg\n";
    let mut want = format!("commit {}\0", payload.len()).into_bytes();
    want.extend_from_slice(payload.as_bytes());
    assert_eq!(c.serialize(), want);
    let text = String::from_utf8(c.serialize()).unwrap();
    assert!(!text.contains("parent "));
}

#[test]
fn commit_with_two_parents_lists_both_in_order() {
    let tree = hash_of_hex("192403f9d8c4872a30e949685d9e5e7f91f06933");
    let first_parent = hash_of_hex("e69de29bb2d1d6434b8b29ae775ad8c2e48c5391");
    let second_parent = hash_of_hex("c57eff55ebc0c54973903af5f72bac72762cf4f4");
    let c = Commit::new(
        tree,
        vec![first_parent, second_parent],
        String::from("0"),
        String::from("-0530"),
        String::from("two"),
    );
    let text = String::from_utf8(c.serialize()).unwrap();
    assert_eq!(text.matches("parent ").count(), 2);
    let first = text.find("parent e69de29bb2d1d6434b8b29ae775ad8c2e48c5391\n").unwrap();
    let second = text.find("parent c57eff55ebc0c54973903af5f72bac72762cf4f4\n").unwrap();
    assert!(first < second);
    assert!(text.ends_with("\n\ntwo\n"));
    let (h, bytes) = c.encode();
    assert_eq!(h, mini_git::hash::Hash::hash(&c.serialize()));
    assert_eq!(decompress(&bytes).unwrap(), c.serialize());
}

#[test]
fn test_create_commit() {
    let tree_want = hash_of_hex("c57eff55ebc0c54973903af5f72bac72762cf4f4");
    let message_want = String::from("msg");
    let commit = Commit::new(
        tree_want,
        vec![],
        String::from("1700000000"),
        String::from("+0000"),
        message_want.clone(),
    );
    let obj = Object::Commit(commit);
    let (hash, _path, compressed) = obj.write("/repo");
    let stored = String::from_utf8(decompress(&compressed).unwrap()).unwrap();
    assert!(stored.contains(&format!("tree {}\n", tree_want.to_hex())));
    assert_eq!(stored.matches("parent ").count(), 0);
    assert!(stored.ends_with(&format!("\n\n{}\n", message_want)));
    assert_eq!(hash, obj.hash());
    assert!(matches!(Object::read(&compressed), Err(ObjectError::UnsupportedType)));
}

#[test]
fn reader_steps() {
    let data = b"ab cd\0ef";
    let mut r = BytesReader::new(data);
    assert_eq!(r.len(), 8);
    assert_eq!(r.read(), Some(b'a'));
    assert_eq!(r.read_until(b' '), Some(b"b".to_vec()));
    r.skip();
    assert_eq!(r.read_until(b'z'), None);
    assert_eq!(r.read_n(9), None);
    assert_eq!(r.read_n(2), Some(b"cd".to_vec()));
    r.skip();
    assert!(!r.is_at_end());
    assert_eq!(r.read_all(), b"ef".to_vec());
    assert!(r.is_at_end());
    assert_eq!(r.read(), None);
}

fn bytes_of_hex(hex: &str) -> Vec<u8> {
    (0..hex.len() / 2)
        .map(|i| u8::from_str_radix(&hex[2 * i..2 * i + 2], 16).unwrap())
        .collect()
}

#[test]
fn reads_streams_from_another_encoder() {
    // zlib at its default level, as git stores objects
    let tree = bytes_of_hex("789c2b294a4d55b03465303100028594cc2243060ff7fcecf3f2532efef8f74ff48bef84db222a62c970692306df397f9ebcdfbcf7edadcb137ff65b716b1dd150f9616860606662a2909699936ac8f06ceea3d99b2e5e73f6eed65c571e75e3d0939ee089004f312ce4");
    let node = Object::read(&tree).unwrap().as_tree();
    let names: Vec<&str> = node.entries().iter().map(|e| e.name.as_str()).collect();
    assert_eq!(names, vec!["dir1", "dir2", "file1"]);
    let short = bytes_of_hex("789c4bcac94f523065484c4a060011e3031b");
    assert!(matches!(Object::read(&short), Err(ObjectError::SizeMismatch)));
    let commit = bytes_of_hex("789c4bcecfcdcd2c513066484c4a06001c090403");
    assert!(matches!(Object::read(&commit), Err(ObjectError::UnsupportedType)));
}

#[test]
fn hex_names_must_be_lowercase() {
    assert!(mini_git::hash::Hash::from_hex("E69DE29BB2D1D6434B8B29AE775AD8C2E48C5391").is_none());
}
