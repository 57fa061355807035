use vstd::prelude::*;
use vstd::slice::slice_to_vec;
use vstd::utf8::encode_utf8;
use vstd::seq_lib::group_to_multiset_ensures;
use crate::blob::{serialized_blob, Blob};
use crate::codec::zlib_fast;
use crate::hash::{hex_chars, sha1_of};
use crate::object::{serialized_object, Object};
use crate::tree_node::{serialized_tree, EntryView, TreeNode, TreeNodeEntry};

verus! {

/// How a file is kept: a regular file, an executable, or a symbolic link.
#[derive(Debug, Clone, Copy, PartialEq, Eq, Structural)]
pub enum FileMode {
    Regular,
    Executable,
    Symlink,
}

/// A directory as read from disk: each item with its base name, in listing order.
pub enum DirEntry {
    File { name: String, mode: FileMode, content: Vec<u8> },
    Dir { name: String, entries: Vec<DirEntry> },
}

/// The mode text that a tree entry records for a file.
pub open spec fn mode_text(m: FileMode) -> Seq<char> {
    match m {
        FileMode::Regular => "100644"@,
        FileMode::Executable => "100755"@,
        FileMode::Symlink => "120000"@,
    }
}

/// The store's own metadata directory, which snapshots leave out.
pub open spec fn is_store_dir(e: DirEntry) -> bool {
    e matches DirEntry::Dir { name, .. } && name@ == ".git"@
}

/// The identity of an object.
pub open spec fn object_hash(o: Object) -> Seq<u8> {
    sha1_of(serialized_object(&o))
}

/// The entries of a tree node; nothing for the other kinds.
pub open spec fn node_entries(o: Object) -> Seq<EntryView> {
    match o {
        Object::TreeNode(t) => t@,
        _ => Seq::empty(),
    }
}

/// Some object before position `i` has hash `h`.
pub open spec fn refers_back(objs: Seq<Object>, i: int, h: Seq<u8>) -> bool {
    exists|k: int| 0 <= k < i && #[trigger] object_hash(objs[k]) == h
}

/// Every hash that a tree node refers to is the hash of an object earlier in the list.
pub open spec fn postorder(objs: Seq<Object>) -> bool {
    forall|i: int, j: int|
        0 <= i < objs.len() && 0 <= j < node_entries(objs[i]).len() ==> #[trigger] refers_back(
            objs,
            i,
            node_entries(objs[i])[j].2,
        )
}

/// The tree entries that a directory listing gives, in listing order.
pub open spec fn tree_view(es: Seq<DirEntry>) -> Seq<EntryView>
    decreases es,
{
    if es.len() == 0 {
        Seq::empty()
    } else {
        let init = tree_view(es.drop_last());
        if is_store_dir(es.last()) {
            init
        } else {
            init.push(entry_view(es.last()))
        }
    }
}

/// The tree entry for one listed item: a subdirectory refers to its own tree node, a
/// file to its blob.
pub open spec fn entry_view(e: DirEntry) -> EntryView
    decreases e,
{
    match e {
        DirEntry::File { name, mode, content } => (
            mode_text(mode),
            name@,
            sha1_of(serialized_blob(content@)),
        ),
        DirEntry::Dir { name, entries } => (
            "40000"@,
            name@,
            sha1_of(serialized_tree(tree_view(entries@))),
        ),
    }
}

/// The stored bytes of the objects that a listing yields, children first: for each
/// listed item in order, a subdirectory's own objects or a file's blob.
pub open spec fn listing_objects(es: Seq<DirEntry>) -> Seq<Seq<u8>>
    decreases es,
{
    if es.len() == 0 {
        Seq::empty()
    } else {
        listing_objects(es.drop_last()) + item_objects(es.last())
    }
}

/// The stored bytes of the objects that one listed item yields: nothing for the store's
/// own directory, a directory's objects followed by its tree node, or a file's blob.
pub open spec fn item_objects(e: DirEntry) -> Seq<Seq<u8>>
    decreases e,
{
    match e {
        DirEntry::File { content, .. } => seq![serialized_blob(content@)],
        DirEntry::Dir { name, entries } => if name@ == ".git"@ {
            Seq::empty()
        } else {
            listing_objects(entries@).push(serialized_tree(tree_view(entries@)))
        },
    }
}

/// The stored bytes of a snapshot's objects in postorder, its root tree node last.
pub open spec fn snapshot_objects(es: Seq<DirEntry>) -> Seq<Seq<u8>> {
    listing_objects(es).push(serialized_tree(tree_view(es)))
}

/// Concatenating two lists that each refer only backwards keeps that property.
pub proof fn lemma_postorder_append(a: Seq<Object>, b: Seq<Object>)
    requires
        postorder(a),
        postorder(b),
    ensures
        postorder(a + b),
{
    let c = a + b;
    assert forall|i: int, j: int|
        0 <= i < c.len() && 0 <= j < node_entries(c[i]).len() implies #[trigger] refers_back(
            c,
            i,
            node_entries(c[i])[j].2,
        ) by {
        if i < a.len() {
            assert(c[i] == a[i]);
            assert(refers_back(a, i, node_entries(a[i])[j].2));
            let k = choose|k: int| 0 <= k < i && #[trigger] object_hash(a[k]) == node_entries(a[i])[j].2;
            assert(c[k] == a[k]);
        } else {
            let ib = i - a.len();
            assert(c[i] == b[ib]);
            assert(refers_back(b, ib, node_entries(b[ib])[j].2));
            let k = choose|k: int| 0 <= k < ib && #[trigger] object_hash(b[k]) == node_entries(b[ib])[j].2;
            assert(c[k + a.len()] == b[k]);
        }
    }
}

/// Objects added after position `i` leave what lies before it unchanged.
proof fn lemma_refers_back_extend(a: Seq<Object>, b: Seq<Object>, i: int, h: Seq<u8>)
    requires
        refers_back(a, i, h),
        i <= a.len(),
        a.len() <= b.len(),
        a == b.take(a.len() as int),
    ensures
        refers_back(b, i, h),
{
    let k = choose|k: int| 0 <= k < i && #[trigger] object_hash(a[k]) == h;
    assert(b.take(a.len() as int)[k] == b[k]);
    assert(b[k] == a[k]);
}

/// How a file is kept, from its metadata: a link is a link; otherwise the owner's
/// execute bit (0o100) of its permission bits decides.
pub fn file_mode(is_symlink: bool, permissions: u32) -> (r: FileMode)
    ensures
        r == (if is_symlink {
            FileMode::Symlink
        } else if permissions & 64 != 0 {
            FileMode::Executable
        } else {
            FileMode::Regular
        }),
{
    if is_symlink {
        FileMode::Symlink
    } else if permissions & 64 != 0 {
        FileMode::Executable
    } else {
        FileMode::Regular
    }
}

/// The mode text that a tree entry records for a file.
pub fn mode_string(m: FileMode) -> (r: String)
    ensures
        r@ == mode_text(m),
{
    match m {
        FileMode::Regular => String::from_str("100644"),
        FileMode::Executable => String::from_str("100755"),
        FileMode::Symlink => String::from_str("120000"),
    }
}

/// Whether a directory name is the store's own metadata directory.
pub fn is_dot_git(name: &String) -> (r: bool)
    ensures
        r == (name@ == ".git"@),
{
    let git = String::from_str(".git");
    *name == git
}

/// Turns a directory listing into objects in postorder: each subdirectory's objects,
/// then each file's blob, in listing order, and last the tree node of the directory
/// itself, whose entries are `tree_view` of the listing.
#[verifier::rlimit(50)]
pub fn build_tree(entries: &Vec<DirEntry>) -> (r: Vec<Object>)
    requires
        listing_sorted(entries@),
    ensures
        r@.last() matches Object::TreeNode(t) && view_names_increasing(t@),
        r@.map_values(|o: Object| serialized_object(&o)) == snapshot_objects(entries@),
        r@.len() > 0,
        r@.last() matches Object::TreeNode(t) && t@ == tree_view(entries@),
        postorder(r@),
    decreases entries,
{
    let mut tree: Vec<Object> = Vec::new();
    let mut children: Vec<TreeNodeEntry> = Vec::new();
    let mut i: usize = 0;
    while i < entries.len()
        invariant
            0 <= i <= entries@.len(),
            listing_sorted(entries@),
            children@.map_values(|e: TreeNodeEntry| e@) == tree_view(entries@.take(i as int)),
            tree@.map_values(|o: Object| serialized_object(&o)) == listing_objects(entries@.take(i as int)),
            postorder(tree@),
            forall|j: int| 0 <= j < children@.len() ==> #[trigger] refers_back(
                tree@,
                tree@.len() as int,
                children@[j]@.2,
            ),
        decreases entries@.len() - i,
    {
        let ghost before = children@.map_values(|e: TreeNodeEntry| e@);
        let ghost tree_before = tree@;
        let ghost children_before = children@;
        proof {
            assert(entries@.take(i + 1).drop_last() =~= entries@.take(i as int));
            assert(entries@.take(i + 1).last() == entries@[i as int]);
        }
        match &entries[i] {
            DirEntry::Dir { name, entries: sub } => {
                if !is_dot_git(name) {
                    proof {
                        assert(decreases_to!(entries => entries@[i as int]));
                        lemma_subdirs_sorted(entries@, i as int);
                    }
                    let mut subtree = build_tree(sub);
                    let hash = subtree[subtree.len() - 1].hash();
                    let ghost sub_seq = subtree@;
                    tree.append(&mut subtree);
                    let e = TreeNodeEntry::new(String::from_str("40000"), name.clone(), hash);
                    proof {
                        assert(e@ == entry_view(entries@[i as int]));
                    }
                    children.push(e);
                    proof {
                        assert(tree@.map_values(|o: Object| serialized_object(&o)) =~= tree_before.map_values(|o: Object| serialized_object(&o)) + sub_seq.map_values(|o: Object| serialized_object(&o)));
                        assert(item_objects(entries@[i as int]) == snapshot_objects(sub@));
                        assert(listing_objects(entries@.take(i + 1)) == listing_objects(entries@.take(i as int)) + item_objects(entries@[i as int]));
                        lemma_postorder_append(tree_before, sub_seq);
                        assert(tree@ =~= tree_before + sub_seq);
                        assert(tree_before =~= tree@.take(tree_before.len() as int));
                        let last = tree@.len() - 1;
                        assert(tree@[last] == sub_seq.last());
                        assert(children@.map_values(|e: TreeNodeEntry| e@) =~= before.push(e@));
                        assert forall|j: int| 0 <= j < children@.len() implies #[trigger] refers_back(
                            tree@,
                            tree@.len() as int,
                            children@[j]@.2,
                        ) by {
                            if j < children@.len() - 1 {
                                assert(children@[j] == children_before[j]);
                                assert(refers_back(tree_before, tree_before.len() as int, children_before[j]@.2));
                                lemma_refers_back_extend(tree_before, tree@, tree_before.len() as int, children@[j]@.2);
                                let k = choose|k: int| 0 <= k < tree_before.len() && #[trigger] object_hash(tree@[k]) == children@[j]@.2;
                            } else {
                                assert(object_hash(tree@[last]) == children@[j]@.2);
                            }
                        }
                    }
                } else {
                    proof {
                        assert(children@.map_values(|e: TreeNodeEntry| e@) =~= before);
                        assert(tree@.map_values(|o: Object| serialized_object(&o)) =~= tree_before.map_values(|o: Object| serialized_object(&o)) + Seq::<Seq<u8>>::empty());
                        assert(item_objects(entries@[i as int]) == Seq::<Seq<u8>>::empty());
                        assert(listing_objects(entries@.take(i + 1)) == listing_objects(entries@.take(i as int)) + item_objects(entries@[i as int]));
                    }
                }
            },
            DirEntry::File { name, mode, content } => {
                let obj = Object::Blob(Blob::new(slice_to_vec(content.as_slice())));
                let hash = obj.hash();
                tree.push(obj);
                let e = TreeNodeEntry::new(mode_string(*mode), name.clone(), hash);
                proof {
                    assert(e@ == entry_view(entries@[i as int]));
                }
                children.push(e);
                proof {
                    let last = tree@.len() - 1;
                    assert(tree@.map_values(|o: Object| serialized_object(&o)) =~= tree_before.map_values(|o: Object| serialized_object(&o)) + seq![serialized_blob(content@)]);
                    assert(item_objects(entries@[i as int]) == seq![serialized_blob(content@)]);
                    assert(listing_objects(entries@.take(i + 1)) == listing_objects(entries@.take(i as int)) + item_objects(entries@[i as int]));
                    assert(tree_before =~= tree@.take(tree_before.len() as int));
                    assert(postorder(tree@)) by {
                        assert(postorder(seq![tree@[last]])) by {
                            assert(node_entries(seq![tree@[last]][0]).len() == 0);
                        }
                        lemma_postorder_append(tree_before, seq![tree@[last]]);
                        assert(tree_before + seq![tree@[last]] =~= tree@);
                    }
                    assert(children@.map_values(|e: TreeNodeEntry| e@) =~= before.push(e@));
                    assert forall|j: int| 0 <= j < children@.len() implies #[trigger] refers_back(
                        tree@,
                        tree@.len() as int,
                        children@[j]@.2,
                    ) by {
                        if j < children@.len() - 1 {
                            assert(children@[j] == children_before[j]);
                            assert(refers_back(tree_before, tree_before.len() as int, children_before[j]@.2));
                            lemma_refers_back_extend(tree_before, tree@, tree_before.len() as int, children@[j]@.2);
                            let k = choose|k: int| 0 <= k < tree_before.len() && #[trigger] object_hash(tree@[k]) == children@[j]@.2;
                        } else {
                            assert(object_hash(tree@[last]) == children@[j]@.2);
                        }
                    }
                }
            },
        }
        i = i + 1;
    }
    proof {
        assert(entries@.take(i as int) =~= entries@);
    }
    let ghost tree_before = tree@;
    let ghost children_before = children@;
    proof {
        lemma_tree_view_sorted(entries@);
    }
    let node = TreeNode::new(children);
    tree.push(Object::TreeNode(node));
    proof {
        assert(tree@.map_values(|o: Object| serialized_object(&o)) =~= tree_before.map_values(|o: Object| serialized_object(&o)).push(serialized_tree(tree_view(entries@))));
        let last = tree@.len() - 1;
        assert(tree_before =~= tree@.take(tree_before.len() as int));
        assert forall|i2: int, j: int|
            0 <= i2 < tree@.len() && 0 <= j < node_entries(tree@[i2]).len() implies #[trigger] refers_back(
                tree@,
                i2,
                node_entries(tree@[i2])[j].2,
            ) by {
            if i2 < last {
                assert(tree@[i2] == tree_before[i2]);
                assert(refers_back(tree_before, i2, node_entries(tree_before[i2])[j].2));
                lemma_refers_back_extend(tree_before, tree@, i2, node_entries(tree@[i2])[j].2);
            } else {
                assert(node_entries(tree@[i2])[j] == children_before[j]@);
                assert(refers_back(tree_before, tree_before.len() as int, children_before[j]@.2));
                lemma_refers_back_extend(tree_before, tree@, tree_before.len() as int, children_before[j]@.2);
            }
        }
    }
    tree
}

/// The path with its trailing separators taken off.
pub open spec fn trim_slashes(p: Seq<char>) -> Seq<char>
    decreases p.len(),
{
    if p.len() > 0 && p.last() == '/' {
        trim_slashes(p.drop_last())
    } else {
        p
    }
}

/// What follows the last separator.
pub open spec fn last_segment(p: Seq<char>) -> Seq<char>
    decreases p.len(),
{
    if p.len() == 0 || p.last() == '/' {
        Seq::empty()
    } else {
        last_segment(p.drop_last()).push(p.last())
    }
}

/// The last component of a `/`-separated path; trailing separators do not count.
pub fn basename(path: &str) -> (r: String)
    ensures
        r@ == last_segment(trim_slashes(path@)),
{
    let ghost p = path@;
    let n = path.unicode_len();
    let mut end: usize = n;
    assert(p.subrange(0, n as int) =~= p);
    while end > 0 && path.get_char(end - 1) == '/'
        invariant
            end <= p.len(),
            p == path@,
            trim_slashes(p) == trim_slashes(p.subrange(0, end as int)),
        decreases end,
    {
        proof {
            assert(p.subrange(0, end as int).drop_last() =~= p.subrange(0, end - 1));
        }
        end = end - 1;
    }
    let ghost q = p.subrange(0, end as int);
    assert(trim_slashes(q) == q);
    let mut start: usize = end;
    assert(q.subrange(0, end as int) =~= q);
    assert(last_segment(q) + q.subrange(end as int, end as int) =~= last_segment(q));
    while start > 0 && path.get_char(start - 1) != '/'
        invariant
            start <= end <= p.len(),
            p == path@,
            q == p.subrange(0, end as int),
            last_segment(q) == last_segment(q.subrange(0, start as int)) + q.subrange(
                start as int,
                end as int,
            ),
        decreases start,
    {
        proof {
            let a = q.subrange(0, start as int);
            assert(a.drop_last() =~= q.subrange(0, start - 1));
            assert(a.last() == p[start - 1]);
            assert(last_segment(a) == last_segment(a.drop_last()).push(a.last()));
            assert(last_segment(a.drop_last()).push(a.last()) + q.subrange(start as int, end as int)
                =~= last_segment(a.drop_last()) + q.subrange(start - 1, end as int));
        }
        start = start - 1;
    }
    proof {
        let a = q.subrange(0, start as int);
        assert(last_segment(a) =~= Seq::<char>::empty());
        assert(q.subrange(start as int, end as int) =~= p.subrange(start as int, end as int));
    }
    String::from_str(path.substring_char(start, end))
}

/// Snapshots a directory listing: the root's hash and the writes to perform, one per
/// object of `snapshot_objects` in that order, so children are stored before the tree
/// nodes that refer to them and the root comes last. A listing with nothing to record
/// (empty, or only the store's own directory) yields no snapshot and no writes.
pub fn write_tree(root: &str, entries: &Vec<DirEntry>) -> (r: Option<(crate::hash::Hash, Vec<(crate::hash::Hash, String, Vec<u8>)>)>)
    requires
        listing_sorted(entries@),
    ensures
        (tree_view(entries@).len() == 0) == (r is None),
        r matches Some((h, writes)) ==> {
            &&& h@ == sha1_of(serialized_tree(tree_view(entries@)))
            &&& writes@.len() == snapshot_objects(entries@).len()
            &&& writes@.last().0@ == h@
            &&& forall|i: int|
                0 <= i < writes@.len() ==> {
                    &&& (#[trigger] writes@[i]).0@ == sha1_of(snapshot_objects(entries@)[i])
                    &&& writes@[i].1@ == root@ + "/.git/objects/"@ + hex_chars(writes@[i].0@).subrange(0, 2)
                        + "/"@ + hex_chars(writes@[i].0@).subrange(2, 40)
                    &&& writes@[i].2@ == zlib_fast(snapshot_objects(entries@)[i])
                }
        },
{
    let objs = build_tree(entries);
    let ghost stored = objs@.map_values(|o: Object| serialized_object(&o));
    let empty = match &objs[objs.len() - 1] {
        Object::TreeNode(t) => t.entries().len() == 0,
        _ => true,
    };
    if empty {
        return None;
    }
    let mut writes: Vec<(crate::hash::Hash, String, Vec<u8>)> = Vec::new();
    let mut i: usize = 0;
    while i < objs.len()
        invariant
            0 <= i <= objs@.len(),
            stored == objs@.map_values(|o: Object| serialized_object(&o)),
            writes@.len() == i,
            forall|j: int|
                0 <= j < i ==> {
                    &&& (#[trigger] writes@[j]).0@ == sha1_of(stored[j])
                    &&& writes@[j].1@ == root@ + "/.git/objects/"@ + hex_chars(writes@[j].0@).subrange(0, 2)
                        + "/"@ + hex_chars(writes@[j].0@).subrange(2, 40)
                    &&& writes@[j].2@ == zlib_fast(stored[j])
                },
        decreases objs@.len() - i,
    {
        let w = objs[i].write(root);
        writes.push(w);
        i = i + 1;
    }
    let h = writes[writes.len() - 1].0;
    Some((h, writes))
}

/// Every directory level of the listing is in strictly increasing byte-wise name order,
/// as a sorted listing of a real directory is.
pub open spec fn listing_sorted(es: Seq<DirEntry>) -> bool {
    names_increasing(es) && subdirs_sorted(es)
}

/// Each subdirectory of the listing is itself a sorted listing.
pub open spec fn subdirs_sorted(es: Seq<DirEntry>) -> bool
    decreases es,
{
    es.len() == 0 || (subdirs_sorted(es.drop_last()) && item_sorted(es.last()))
}

pub open spec fn item_sorted(e: DirEntry) -> bool
    decreases e,
{
    match e {
        DirEntry::Dir { entries, .. } => names_increasing(entries@) && subdirs_sorted(entries@),
        DirEntry::File { .. } => true,
    }
}

/// Tree entries whose names strictly increase, byte-wise.
pub open spec fn view_names_increasing(vs: Seq<EntryView>) -> bool {
    forall|i: int, j: int|
        0 <= i < j < vs.len() ==> bytes_lt(encode_utf8(#[trigger] vs[i].1), encode_utf8(#[trigger] vs[j].1))
}

proof fn lemma_subdirs_sorted(es: Seq<DirEntry>, i: int)
    requires
        subdirs_sorted(es),
        0 <= i < es.len(),
    ensures
        item_sorted(es[i]),
    decreases es.len(),
{
    if i < es.len() - 1 {
        lemma_subdirs_sorted(es.drop_last(), i);
    }
}

/// Each entry of a listing's tree view is named after some listed item.
proof fn lemma_tree_view_names(es: Seq<DirEntry>, k: int)
    requires
        0 <= k < tree_view(es).len(),
    ensures
        exists|i: int| 0 <= i < es.len() && encode_utf8(tree_view(es)[k].1) == name_bytes(#[trigger] es[i]),
    decreases es.len(),
{
    let init = tree_view(es.drop_last());
    if k < init.len() {
        lemma_tree_view_names(es.drop_last(), k);
        let i = choose|i: int| 0 <= i < es.drop_last().len() && encode_utf8(init[k].1) == name_bytes(#[trigger] es.drop_last()[i]);
        assert(es.drop_last()[i] == es[i]);
    } else {
        assert(!is_store_dir(es.last()));
        assert(tree_view(es) == init.push(entry_view(es.last())));
        assert(tree_view(es)[k] == entry_view(es.last()));
        assert(encode_utf8(tree_view(es)[k].1) == name_bytes(es[es.len() - 1]));
    }
}

/// A listing in increasing name order gives tree entries in increasing name order.
pub proof fn lemma_tree_view_sorted(es: Seq<DirEntry>)
    requires
        names_increasing(es),
    ensures
        view_names_increasing(tree_view(es)),
    decreases es.len(),
{
    if es.len() > 0 {
        let dl = es.drop_last();
        assert(names_increasing(dl)) by {
            assert forall|i: int, j: int| 0 <= i < j < dl.len() implies bytes_lt(#[trigger] name_bytes(dl[i]), #[trigger] name_bytes(dl[j])) by {
                assert(dl[i] == es[i] && dl[j] == es[j]);
            }
        }
        lemma_tree_view_sorted(dl);
        let tv = tree_view(es);
        let init = tree_view(dl);
        assert forall|i: int, j: int| 0 <= i < j < tv.len() implies bytes_lt(encode_utf8(#[trigger] tv[i].1), encode_utf8(#[trigger] tv[j].1)) by {
            if j < init.len() {
                assert(tv[i] == init[i] && tv[j] == init[j]);
            } else {
                assert(tv[i] == init[i]);
                lemma_tree_view_names(dl, i);
                let a = choose|a: int| 0 <= a < dl.len() && encode_utf8(init[i].1) == name_bytes(#[trigger] dl[a]);
                assert(dl[a] == es[a]);
                assert(!is_store_dir(es.last()));
                assert(tv == init.push(entry_view(es.last())));
                assert(tv[j] == entry_view(es.last()));
                assert(encode_utf8(tv[j].1) == name_bytes(es[es.len() - 1]));
            }
        }
    }
}

/// Byte-wise order: a proper prefix comes first, otherwise the first differing byte decides.
pub open spec fn bytes_lt(a: Seq<u8>, b: Seq<u8>) -> bool
    decreases a.len(),
{
    if a.len() == 0 {
        b.len() > 0
    } else if b.len() == 0 {
        false
    } else if a[0] != b[0] {
        a[0] < b[0]
    } else {
        bytes_lt(a.drop_first(), b.drop_first())
    }
}

/// The bytes of an item's name.
pub open spec fn name_bytes(e: DirEntry) -> Seq<u8> {
    match e {
        DirEntry::File { name, .. } => encode_utf8(name@),
        DirEntry::Dir { name, .. } => encode_utf8(name@),
    }
}

/// The items' names strictly increase, byte-wise.
pub open spec fn names_increasing(es: Seq<DirEntry>) -> bool {
    forall|i: int, j: int|
        0 <= i < j < es.len() ==> bytes_lt(#[trigger] name_bytes(es[i]), #[trigger] name_bytes(es[j]))
}

pub proof fn lemma_bytes_lt_transitive(a: Seq<u8>, b: Seq<u8>, c: Seq<u8>)
    requires
        bytes_lt(a, b),
        bytes_lt(b, c),
    ensures
        bytes_lt(a, c),
    decreases a.len(),
{
    if a.len() > 0 && b.len() > 0 && c.len() > 0 && a[0] == b[0] && b[0] == c[0] {
        lemma_bytes_lt_transitive(a.drop_first(), b.drop_first(), c.drop_first());
    }
}

/// Compares byte-wise: negative where `a` comes first, zero where equal, positive where
/// `b` comes first.
pub fn compare_bytes(a: &[u8], b: &[u8]) -> (r: i8)
    ensures
        (r == 0) == (a@ == b@),
        (r < 0) == bytes_lt(a@, b@),
        (r > 0) == bytes_lt(b@, a@),
{
    let mut i: usize = 0;
    assert(a@.skip(0) =~= a@);
    assert(b@.skip(0) =~= b@);
    while i < a.len() && i < b.len()
        invariant
            i <= a@.len(),
            i <= b@.len(),
            a@.take(i as int) == b@.take(i as int),
            bytes_lt(a@, b@) == bytes_lt(a@.skip(i as int), b@.skip(i as int)),
            bytes_lt(b@, a@) == bytes_lt(b@.skip(i as int), a@.skip(i as int)),
        decreases a@.len() - i,
    {
        if a[i] != b[i] {
            assert(a@.skip(i as int)[0] == a@[i as int]);
            assert(b@.skip(i as int)[0] == b@[i as int]);
            return if a[i] < b[i] {
                -1
            } else {
                1
            };
        }
        proof {
            assert(a@.skip(i + 1) =~= a@.skip(i as int).drop_first());
            assert(b@.skip(i + 1) =~= b@.skip(i as int).drop_first());
            assert(a@.take(i + 1) =~= a@.take(i as int).push(a@[i as int]));
            assert(b@.take(i + 1) =~= b@.take(i as int).push(b@[i as int]));
        }
        i = i + 1;
    }
    if a.len() == b.len() {
        assert(a@ =~= a@.take(i as int));
        assert(b@ =~= b@.take(i as int));
        assert(a@.skip(i as int) =~= Seq::<u8>::empty());
        assert(b@.skip(i as int) =~= Seq::<u8>::empty());
        0
    } else if a.len() < b.len() {
        assert(a@.skip(i as int) =~= Seq::<u8>::empty());
        assert(a@.len() != b@.len());
        -1
    } else {
        assert(b@.skip(i as int) =~= Seq::<u8>::empty());
        assert(a@.len() != b@.len());
        1
    }
}

fn entry_name(e: &DirEntry) -> (r: &String)
    ensures
        encode_utf8(r@) == name_bytes(*e),
{
    match e {
        DirEntry::File { name, .. } => name,
        DirEntry::Dir { name, .. } => name,
    }
}

/// Some item after position `n` of `orig` is `e`.
pub open spec fn occurs_after(orig: Seq<DirEntry>, n: int, e: DirEntry) -> bool {
    exists|j: int| n < j < orig.len() && orig[j] == e
}

/// Puts the items of one directory in byte-wise order of their names; `None` where two
/// items share a name, which no directory holds.
pub fn sort_entries(entries: Vec<DirEntry>) -> (r: Option<Vec<DirEntry>>)
    ensures
        r matches Some(v) ==> v@.to_multiset() == entries@.to_multiset() && names_increasing(v@),
        r is None ==> exists|i: int, j: int|
            0 <= i < j < entries@.len() && name_bytes(entries@[i]) == name_bytes(entries@[j]),
{
    broadcast use group_to_multiset_ensures;
    let ghost orig = entries@;
    let mut rest = entries;
    let mut sorted: Vec<DirEntry> = Vec::new();
    assert(orig.skip(orig.len() as int) =~= Seq::<DirEntry>::empty());
    assert(orig.take(orig.len() as int) =~= orig);
    while rest.len() > 0
        invariant
            rest@.len() <= orig.len(),
            rest@ == orig.take(rest@.len() as int),
            sorted@.to_multiset() == orig.skip(rest@.len() as int).to_multiset(),
            names_increasing(sorted@),
            orig == entries@,
            forall|p: int| 0 <= p < sorted@.len() ==> occurs_after(orig, rest@.len() - 1, #[trigger] sorted@[p]),
        decreases rest@.len(),
    {
        let ghost n = (rest@.len() - 1) as int;
        let x = rest.pop().unwrap();
        assert(x == orig[n]);
        assert(rest@ =~= orig.take(n));
        let x_name = entry_name(&x).as_str().as_bytes();
        let mut p: usize = 0;
        let mut stop = false;
        while p < sorted.len() && !stop
            invariant
                p <= sorted@.len(),
                names_increasing(sorted@),
                x_name@ == name_bytes(x),
                forall|q: int| 0 <= q < p ==> bytes_lt(#[trigger] name_bytes(sorted@[q]), name_bytes(x)),
                stop ==> p < sorted@.len() && bytes_lt(name_bytes(x), name_bytes(sorted@[p as int])),
                forall|q: int| 0 <= q < sorted@.len() ==> occurs_after(orig, n, #[trigger] sorted@[q]),
                orig == entries@,
                0 <= n < orig.len(),
                x == orig[n],
            decreases sorted@.len() - p + if stop { 0int } else { 1int },
        {
            let c = compare_bytes(entry_name(&sorted[p]).as_str().as_bytes(), x_name);
            if c == 0 {
                proof {
                    let j = choose|j: int| n < j < orig.len() && orig[j] == sorted@[p as int];
                    assert(name_bytes(orig[n]) == name_bytes(orig[j]));
                    assert(0 <= n < j < entries@.len() && name_bytes(entries@[n]) == name_bytes(entries@[j]));
                }
                return None;
            }
            if c > 0 {
                stop = true;
            } else {
                p = p + 1;
            }
        }
        let ghost before = sorted@;
        sorted.insert(p, x);
        proof {
            assert(sorted@ == before.insert(p as int, x));
            assert(orig.skip(n) =~= orig.skip(n + 1).insert(0, x));
            vstd::seq_lib::to_multiset_insert(before, p as int, x);
            vstd::seq_lib::to_multiset_insert(orig.skip(n + 1), 0, x);
            assert forall|i: int, j: int| 0 <= i < j < sorted@.len() implies bytes_lt(
                #[trigger] name_bytes(sorted@[i]),
                #[trigger] name_bytes(sorted@[j]),
            ) by {
                if j < p {
                    assert(sorted@[i] == before[i] && sorted@[j] == before[j]);
                } else if j == p {
                    assert(sorted@[i] == before[i]);
                } else if i == p {
                    assert(sorted@[j] == before[j - 1]);
                    if j - 1 > p {
                        assert(bytes_lt(name_bytes(before[p as int]), name_bytes(before[j - 1])));
                        lemma_bytes_lt_transitive(name_bytes(x), name_bytes(before[p as int]), name_bytes(before[j - 1]));
                    }
                } else if i < p {
                    assert(sorted@[i] == before[i] && sorted@[j] == before[j - 1]);
                    assert(bytes_lt(name_bytes(before[i]), name_bytes(x)));
                    if p < before.len() {
                        assert(bytes_lt(name_bytes(before[i]), name_bytes(before[j - 1])));
                    } else {
                        assert(false);
                    }
                } else {
                    assert(sorted@[i] == before[i - 1] && sorted@[j] == before[j - 1]);
                }
            }
            assert forall|q: int| 0 <= q < sorted@.len() implies occurs_after(orig, n - 1, #[trigger] sorted@[q]) by {
                if q < p {
                    assert(sorted@[q] == before[q]);
                    assert(occurs_after(orig, n, before[q]));
                } else if q == p {
                    assert(orig[n] == sorted@[q]);
                } else {
                    assert(sorted@[q] == before[q - 1]);
                    assert(occurs_after(orig, n, before[q - 1]));
                }
            }
        }
    }
    assert(orig.skip(0) =~= orig);
    Some(sorted)
}

} // verus!
