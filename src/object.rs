use vstd::prelude::*;
use vstd::utf8::{decode_utf8, decode_utf8_encode_utf8, encode_utf8, encode_utf8_valid_utf8, valid_utf8};
use vstd::slice::slice_to_vec;
use crate::blob::{blob_tag, serialized_blob, Blob};
use crate::bytes_reader::BytesReader;
use crate::codec::{decompress, zlib_fast, zlib_inflate};
use crate::commit::{serialized_commit, Commit};
use crate::hash::{hex_chars, sha1_of};
use crate::tree_node::{entries_bytes, entries_wf, serialized_tree, tree_tag, EntryView, TreeNode};

verus! {

/// Why an object could not be read.
#[derive(Debug, Clone, Copy, PartialEq, Eq, Structural)]
pub enum ObjectError {
    /// A delimiter is missing, or a field does not hold what its place asks for.
    Framing,
    /// The header's size differs from the number of payload bytes.
    SizeMismatch,
    /// The header names a kind that cannot be read.
    UnsupportedType,
    /// The stored bytes are not a valid compressed stream.
    Corruption,
    /// No object is stored under the hash.
    NotFound,
}

pub open spec fn is_digit(b: u8) -> bool {
    48 <= b <= 57
}

/// A non-empty run of ASCII decimal digits.
pub open spec fn is_digits(d: Seq<u8>) -> bool {
    d.len() > 0 && forall|i: int| 0 <= i < d.len() ==> is_digit(#[trigger] d[i])
}

/// The number that a run of decimal digits spells.
pub open spec fn digits_value(d: Seq<u8>) -> nat
    decreases d.len(),
{
    if d.len() == 0 {
        0
    } else {
        digits_value(d.drop_last()) * 10 + (d.last() - 48) as nat
    }
}

/// The shortest decimal spelling of `n`.
pub open spec fn decimal(n: nat) -> Seq<u8>
    decreases n,
{
    if n < 10 {
        seq![(48 + n) as u8]
    } else {
        decimal(n / 10).push((48 + n % 10) as u8)
    }
}

/// The header text "<kind> <size>\0".
pub open spec fn header_bytes(kind: Seq<u8>, size: nat) -> Seq<u8> {
    kind + seq![32u8] + decimal(size) + seq![0u8]
}

/// `s` is a kind without a space, a space, a run of digits, a NUL, and then `t`.
pub open spec fn header_layout(s: Seq<u8>, k: Seq<u8>, d: Seq<u8>, t: Seq<u8>) -> bool {
    &&& s == k + seq![32u8] + d + seq![0u8] + t
    &&& !k.contains(32u8)
    &&& is_digits(d)
}

pub proof fn lemma_decimal(n: nat)
    ensures
        is_digits(decimal(n)),
        digits_value(decimal(n)) == n,
    decreases n,
{
    if n >= 10 {
        lemma_decimal(n / 10);
        assert(decimal(n).drop_last() =~= decimal(n / 10));
        assert(decimal(n).last() == (48 + n % 10) as u8);
        assert((decimal(n).last() - 48) as nat == n % 10);
        assert(n == (n / 10) * 10 + n % 10);
    } else {
        assert(decimal(n).drop_last() =~= Seq::<u8>::empty());
        assert(digits_value(Seq::<u8>::empty()) == 0);
    }
}

/// Where a sequence is split at the first occurrence of a delimiter, the split is unique.
pub proof fn lemma_first_delimiter(a: Seq<u8>, ra: Seq<u8>, b: Seq<u8>, rb: Seq<u8>, x: u8)
    requires
        a + seq![x] + ra == b + seq![x] + rb,
        !a.contains(x),
        !b.contains(x),
    ensures
        a == b,
        ra == rb,
{
    let s = a + seq![x] + ra;
    if a.len() < b.len() {
        assert(s[a.len() as int] == x);
        assert(b[a.len() as int] == x);
        assert(b.contains(x));
    } else if b.len() < a.len() {
        assert(s[b.len() as int] == x);
        assert(a[b.len() as int] == x);
        assert(a.contains(x));
    }
    assert(a =~= s.subrange(0, a.len() as int));
    assert(b =~= s.subrange(0, b.len() as int));
    assert(ra =~= s.subrange(a.len() as int + 1, s.len() as int));
    assert(rb =~= s.subrange(b.len() as int + 1, s.len() as int));
}

proof fn lemma_digits_no_nul(d: Seq<u8>)
    requires
        is_digits(d),
    ensures
        !d.contains(0u8),
{
    if d.contains(0u8) {
        let i = choose|i: int| 0 <= i < d.len() && d[i] == 0u8;
        assert(is_digit(d[i]));
    }
}

/// Two header layouts of one sequence are the same layout.
pub proof fn lemma_header_layout_unique(
    s: Seq<u8>,
    k1: Seq<u8>,
    d1: Seq<u8>,
    t1: Seq<u8>,
    k2: Seq<u8>,
    d2: Seq<u8>,
    t2: Seq<u8>,
)
    requires
        header_layout(s, k1, d1, t1),
        header_layout(s, k2, d2, t2),
    ensures
        k1 == k2,
        d1 == d2,
        t1 == t2,
{
    let r1 = d1 + seq![0u8] + t1;
    let r2 = d2 + seq![0u8] + t2;
    assert(s =~= k1 + seq![32u8] + r1);
    assert(s =~= k2 + seq![32u8] + r2);
    lemma_first_delimiter(k1, r1, k2, r2, 32u8);
    lemma_digits_no_nul(d1);
    lemma_digits_no_nul(d2);
    lemma_first_delimiter(d1, t1, d2, t2, 0u8);
}

proof fn lemma_digits_value_prefix(d: Seq<u8>, i: int)
    requires
        0 <= i <= d.len(),
    ensures
        digits_value(d.subrange(0, i)) <= digits_value(d),
    decreases d.len() - i,
{
    if i < d.len() {
        lemma_digits_value_prefix(d, i + 1);
        assert(d.subrange(0, i + 1).drop_last() =~= d.subrange(0, i));
    } else {
        assert(d.subrange(0, i) =~= d);
    }
}

/// Relies on String::from_utf8: it accepts exactly the valid UTF-8 sequences and keeps
/// their characters.
#[verifier::external_body]
pub(crate) fn utf8_string(v: Vec<u8>) -> (r: Option<String>)
    ensures
        r is Some <==> valid_utf8(v@),
        r matches Some(s) ==> s@ == decode_utf8(v@),
{
    String::from_utf8(v).ok()
}

/// The decimal spelling of `n`.
pub fn decimal_bytes(n: usize) -> (r: Vec<u8>)
    ensures
        r@ == decimal(n as nat),
    decreases n,
{
    if n < 10 {
        vec![48u8 + n as u8]
    } else {
        let mut v = decimal_bytes(n / 10);
        v.push(48u8 + (n % 10) as u8);
        v
    }
}

/// The number that `d` spells, where `d` is a run of digits whose value fits a `usize`.
pub fn parse_decimal(d: &[u8]) -> (r: Option<usize>)
    ensures
        r is Some <==> is_digits(d@) && digits_value(d@) <= usize::MAX,
        r matches Some(n) ==> n == digits_value(d@),
{
    if d.len() == 0 {
        return None;
    }
    let mut acc: usize = 0;
    let mut i: usize = 0;
    while i < d.len()
        invariant
            0 <= i <= d@.len(),
            forall|j: int| 0 <= j < i ==> is_digit(#[trigger] d@[j]),
            acc == digits_value(d@.subrange(0, i as int)),
        decreases d@.len() - i,
    {
        let b = d[i];
        if b < 48 || b > 57 {
            return None;
        }
        proof {
            assert(d@.subrange(0, i + 1).drop_last() =~= d@.subrange(0, i as int));
        }
        let digit = (b - 48) as usize;
        if acc > (usize::MAX - digit) / 10 {
            proof {
                lemma_digits_value_prefix(d@, i + 1);
            }
            return None;
        }
        acc = acc * 10 + digit;
        i = i + 1;
    }
    assert(d@.subrange(0, i as int) =~= d@);
    Some(acc)
}

/// The frame before every payload: the object's kind and the payload's length.
pub struct Header {
    pub kind: String,
    pub size: usize,
}

impl Header {
    pub fn new(kind: String, size: usize) -> (r: Header)
        ensures
            r.kind@ == kind@,
            r.size == size,
    {
        Header { kind, size }
    }

    /// Reads "<kind> <size>\0" from the front of the reader.
    pub fn parse(reader: &mut BytesReader) -> (r: Result<Header, ObjectError>)
        requires
            old(reader).wf(),
        ensures
            final(reader).wf(),
            match r {
                Ok(h) => exists|k: Seq<u8>, d: Seq<u8>|
                    header_layout(old(reader)@, k, d, final(reader)@) && k == encode_utf8(h.kind@)
                        && digits_value(d) == h.size,
                Err(e) => e == ObjectError::Framing && !exists|k: Seq<u8>, d: Seq<u8>, t: Seq<u8>|
                    header_layout(old(reader)@, k, d, t) && valid_utf8(k) && digits_value(d)
                        <= usize::MAX,
            },
    {
        let ghost s = reader@;
        let kind = match reader.read_until(32u8) {
            Some(k) => k,
            None => {
                assert forall|k: Seq<u8>, d: Seq<u8>, t: Seq<u8>| !header_layout(s, k, d, t) by {
                    if header_layout(s, k, d, t) {
                        assert(s[k.len() as int] == 32u8);
                    }
                }
                return Err(ObjectError::Framing);
            },
        };
        reader.skip();
        let ghost s2 = reader@;
        proof {
            assert(s =~= kind@ + seq![32u8] + s2);
        }
        let digits = match reader.read_until(0u8) {
            Some(d) => d,
            None => {
                assert forall|k: Seq<u8>, d: Seq<u8>, t: Seq<u8>| !header_layout(s, k, d, t) by {
                    if header_layout(s, k, d, t) {
                        assert(s =~= k + seq![32u8] + (d + seq![0u8] + t));
                        lemma_first_delimiter(k, d + seq![0u8] + t, kind@, s2, 32u8);
                        assert(s2 =~= d + seq![0u8] + t);
                        assert(s2[d.len() as int] == 0u8);
                    }
                }
                return Err(ObjectError::Framing);
            },
        };
        reader.skip();
        let ghost t0 = reader@;
        proof {
            assert(s2 =~= digits@ + seq![0u8] + t0);
            assert(s =~= kind@ + seq![32u8] + digits@ + seq![0u8] + t0);
        }
        let ghost kb = kind@;
        let kind_text = utf8_string(kind);
        let size = parse_decimal(digits.as_slice());
        if kind_text.is_none() || size.is_none() {
            assert forall|k: Seq<u8>, d: Seq<u8>, t: Seq<u8>|
                !(header_layout(s, k, d, t) && valid_utf8(k) && digits_value(d) <= usize::MAX) by {
                if header_layout(s, k, d, t) {
                    lemma_digits_no_nul(d);
                    assert(s =~= k + seq![32u8] + (d + seq![0u8] + t));
                    lemma_first_delimiter(k, d + seq![0u8] + t, kb, s2, 32u8);
                    lemma_first_delimiter(d, t, digits@, t0, 0u8);
                }
            }
            return Err(ObjectError::Framing);
        }
        let kind_text = kind_text.unwrap();
        proof {
            decode_utf8_encode_utf8(kb);
            assert(header_layout(s, kb, digits@, t0));
        }
        Ok(Header { kind: kind_text, size: size.unwrap() })
    }

    /// "<kind> <size>\0" as bytes.
    pub fn encode(&self) -> (r: Vec<u8>)
        ensures
            r@ == header_bytes(encode_utf8(self.kind@), self.size as nat),
    {
        let mut v = slice_to_vec(self.kind.as_str().as_bytes());
        v.push(32u8);
        let mut d = decimal_bytes(self.size);
        v.append(&mut d);
        v.push(0u8);
        v
    }
}

/// A readable header: a layout whose kind is text and whose size fits a `usize`.
pub open spec fn header_ok(s: Seq<u8>, k: Seq<u8>, d: Seq<u8>, t: Seq<u8>) -> bool {
    header_layout(s, k, d, t) && valid_utf8(k) && digits_value(d) <= usize::MAX
}

proof fn lemma_tags_distinct()
    ensures
        !blob_tag().contains(32u8),
        !tree_tag().contains(32u8),
        blob_tag() != tree_tag(),
{
    assert(blob_tag()[0] != tree_tag()[0]);
}

/// What a well-formed header over `rest` looks like.
proof fn lemma_header_of(tag: Seq<u8>, rest: Seq<u8>)
    requires
        !tag.contains(32u8),
    ensures
        header_layout(header_bytes(tag, rest.len()) + rest, tag, decimal(rest.len()), rest),
        digits_value(decimal(rest.len())) == rest.len(),
{
    lemma_decimal(rest.len());
    assert(header_bytes(tag, rest.len()) + rest =~= tag + seq![32u8] + decimal(rest.len()) + seq![0u8]
        + rest);
}

/// Serialization loses nothing: two blobs, or two trees of well-formed entries, with the
/// same stored bytes have the same content.
pub proof fn lemma_serialization_injective(
    c1: Seq<u8>,
    c2: Seq<u8>,
    es1: Seq<EntryView>,
    es2: Seq<EntryView>,
)
    requires
        entries_wf(es1),
        entries_wf(es2),
    ensures
        serialized_blob(c1) == serialized_blob(c2) ==> c1 == c2,
        serialized_tree(es1) == serialized_tree(es2) ==> es1 == es2,
{
    lemma_tags_distinct();
    if serialized_blob(c1) == serialized_blob(c2) {
        lemma_header_of(blob_tag(), c1);
        lemma_header_of(blob_tag(), c2);
        lemma_header_layout_unique(
            serialized_blob(c1),
            blob_tag(),
            decimal(c1.len()),
            c1,
            blob_tag(),
            decimal(c2.len()),
            c2,
        );
    }
    if serialized_tree(es1) == serialized_tree(es2) {
        let b1 = entries_bytes(es1);
        let b2 = entries_bytes(es2);
        lemma_header_of(tree_tag(), b1);
        lemma_header_of(tree_tag(), b2);
        lemma_header_layout_unique(
            serialized_tree(es1),
            tree_tag(),
            decimal(b1.len()),
            b1,
            tree_tag(),
            decimal(b2.len()),
            b2,
        );
        crate::tree_node::lemma_entries_unique(es1, es2);
    }
}

fn bytes_equal(a: &[u8], b: &[u8]) -> (r: bool)
    ensures
        r == (a@ == b@),
{
    if a.len() != b.len() {
        return false;
    }
    let mut i: usize = 0;
    while i < a.len()
        invariant
            0 <= i <= a@.len(),
            a@.len() == b@.len(),
            forall|j: int| 0 <= j < i ==> a@[j] == b@[j],
        decreases a@.len() - i,
    {
        if a[i] != b[i] {
            return false;
        }
        i = i + 1;
    }
    assert(a@ =~= b@);
    true
}

/// Where an object with this hash is stored under `root`: the first two hex digits name
/// the shard directory, the other 38 the file.
pub fn get_obj_path(root: &str, hash: &crate::hash::Hash) -> (r: String)
    ensures
        r@ == root@ + "/.git/objects/"@ + hex_chars(hash@).subrange(0, 2) + "/"@ + hex_chars(
            hash@,
        ).subrange(2, 40),
{
    let (dir, file) = hash.shard_parts();
    let mut p = String::from_str(root);
    p.append("/.git/objects/");
    p.append(dir.as_str());
    p.append("/");
    p.append(file.as_str());
    p
}

/// What decoding the uncompressed stored bytes `s` gives: for a blob or a tree, the
/// header names its kind and its size matches the payload; each error comes only on
/// the inputs that cause it; and serialized blobs and trees decode to what was serialized.
pub open spec fn parse_outcome(s: Seq<u8>, r: Result<Object, ObjectError>) -> bool {
    &&& (r matches Ok(Object::Blob(b)) ==> exists|d: Seq<u8>|
        header_ok(s, blob_tag(), d, b.content@) && digits_value(d) == b.content@.len())
    &&& (r matches Ok(Object::TreeNode(t)) ==> entries_wf(t@) && exists|d: Seq<u8>|
        header_ok(s, tree_tag(), d, entries_bytes(t@)) && digits_value(d)
            == entries_bytes(t@).len())
    &&& !(r matches Ok(Object::Commit(_)))
    &&& (r == Err::<Object, ObjectError>(ObjectError::Framing) ==> (forall|
        k: Seq<u8>,
        d: Seq<u8>,
        t: Seq<u8>,
    | !header_ok(s, k, d, t)) || exists|d: Seq<u8>, t: Seq<u8>|
        header_ok(s, tree_tag(), d, t) && digits_value(d) == t.len() && forall|
            es: Seq<EntryView>,
        | entries_wf(es) ==> #[trigger] entries_bytes(es) != t)
    &&& (r == Err::<Object, ObjectError>(ObjectError::SizeMismatch) ==> exists|
        k: Seq<u8>,
        d: Seq<u8>,
        t: Seq<u8>,
    | header_ok(s, k, d, t) && digits_value(d) != t.len())
    &&& (r == Err::<Object, ObjectError>(ObjectError::UnsupportedType) ==> exists|
        k: Seq<u8>,
        d: Seq<u8>,
        t: Seq<u8>,
    | header_ok(s, k, d, t) && digits_value(d) == t.len() && k != blob_tag() && k
        != tree_tag())
    &&& r != Err::<Object, ObjectError>(ObjectError::Corruption)
    &&& r != Err::<Object, ObjectError>(ObjectError::NotFound)
    &&& (forall|c: Seq<u8>| #[trigger] serialized_blob(c) == s ==> (r matches Ok(
        Object::Blob(b),
    ) && b.content@ == c))
    &&& (forall|es: Seq<EntryView>| entries_wf(es) && #[trigger] serialized_tree(es) == s
        ==> (r matches Ok(Object::TreeNode(t)) && t@ == es))
}

/// One stored object: exactly one of the three kinds.
pub enum Object {
    Blob(Blob),
    TreeNode(TreeNode),
    Commit(Commit),
}

/// The bytes that an object is hashed and stored as, before compression.
pub open spec fn serialized_object(o: &Object) -> Seq<u8> {
    match o {
        Object::Blob(b) => serialized_blob(b.content@),
        Object::TreeNode(t) => serialized_tree(t@),
        Object::Commit(c) => serialized_commit(c@),
    }
}

impl Object {
    /// The name that listings give the object's kind.
    pub fn get_type(&self) -> (r: &'static str)
        ensures
            self is Blob ==> r@ == "file"@,
            self is TreeNode ==> r@ == "tree"@,
            self is Commit ==> r@ == "commit"@,
    {
        match self {
            Object::Blob(_) => "file",
            Object::TreeNode(_) => "tree",
            Object::Commit(_) => "commit",
        }
    }

    /// The hash of the object's serialized bytes and their compressed form.
    pub fn encode(&self) -> (r: (crate::hash::Hash, Vec<u8>))
        ensures
            r.0@ == sha1_of(serialized_object(self)),
            r.1@ == zlib_fast(serialized_object(self)),
    {
        match self {
            Object::Blob(b) => b.encode(),
            Object::TreeNode(t) => t.encode(),
            Object::Commit(c) => c.encode(),
        }
    }

    /// The object's identity.
    pub fn hash(&self) -> (r: crate::hash::Hash)
        ensures
            r@ == sha1_of(serialized_object(self)),
    {
        let bytes = match self {
            Object::Blob(b) => b.serialize(),
            Object::TreeNode(t) => t.serialize(),
            Object::Commit(c) => c.serialize(),
        };
        crate::hash::Hash::hash(bytes.as_slice())
    }

    /// What storing the object under `root` writes: its hash, the file it goes to, and
    /// the compressed bytes that file holds.
    pub fn write(&self, root: &str) -> (r: (crate::hash::Hash, String, Vec<u8>))
        ensures
            r.0@ == sha1_of(serialized_object(self)),
            r.1@ == root@ + "/.git/objects/"@ + hex_chars(r.0@).subrange(0, 2) + "/"@ + hex_chars(
                r.0@,
            ).subrange(2, 40),
            r.2@ == zlib_fast(serialized_object(self)),
    {
        let (hash, encoded) = self.encode();
        let path = get_obj_path(root, &hash);
        (hash, path, encoded)
    }

    /// Decodes an object from its uncompressed stored bytes: a header whose size matches
    /// the payload, then a blob or tree payload.
    pub fn parse(bytes: &[u8]) -> (r: Result<Object, ObjectError>)
        ensures
            parse_outcome(bytes@, r),
    {
        let ghost s = bytes@;
        let bk = crate::blob::blob_kind();
        let tk = crate::tree_node::tree_kind();
        let total = bytes.len();
        proof {
            lemma_tags_distinct();
            encode_utf8_valid_utf8(bk@);
            encode_utf8_valid_utf8(tk@);
            assert(s.len() == total);
        }
        let mut reader = BytesReader::new(bytes);
        let header = match Header::parse(&mut reader) {
            Ok(h) => h,
            Err(e) => {
                proof {
                    assert forall|c: Seq<u8>| #[trigger] serialized_blob(c) != s by {
                        lemma_header_of(blob_tag(), c);
                        if serialized_blob(c) == s {
                            assert(c.len() <= s.len());
                            assert(header_ok(s, blob_tag(), decimal(c.len()), c));
                        }
                    }
                    assert forall|es: Seq<EntryView>| #[trigger] serialized_tree(es) != s by {
                        lemma_header_of(tree_tag(), entries_bytes(es));
                        if serialized_tree(es) == s {
                            assert(entries_bytes(es).len() <= s.len());
                            assert(header_ok(s, tree_tag(), decimal(entries_bytes(es).len()), entries_bytes(es)));
                        }
                    }
                }
                return Err(e);
            },
        };
        let ghost t = reader@;
        let ghost (k, d) = choose|k: Seq<u8>, d: Seq<u8>|
            header_layout(s, k, d, t) && k == encode_utf8(header.kind@) && digits_value(d) == header.size;
        proof {
            encode_utf8_valid_utf8(header.kind@);
            assert(header_ok(s, k, d, t));
            assert forall|c: Seq<u8>| #[trigger] serialized_blob(c) == s implies k == blob_tag() && t == c && digits_value(d) == c.len() by {
                lemma_header_of(blob_tag(), c);
                lemma_header_layout_unique(s, k, d, t, blob_tag(), decimal(c.len()), c);
            }
            assert forall|es: Seq<EntryView>| #[trigger] serialized_tree(es) == s implies k == tree_tag() && t == entries_bytes(es) && digits_value(d) == t.len() by {
                lemma_header_of(tree_tag(), entries_bytes(es));
                lemma_header_layout_unique(s, k, d, t, tree_tag(), decimal(entries_bytes(es).len()), entries_bytes(es));
            }
        }
        if reader.len() != header.size {
            return Err(ObjectError::SizeMismatch);
        }
        let kind = header.kind.as_str().as_bytes();
        if bytes_equal(kind, bk.as_str().as_bytes()) {
            assert(kind@ == blob_tag());
            let b = Blob::parse(&mut reader);
            return Ok(Object::Blob(b));
        }
        if bytes_equal(kind, tk.as_str().as_bytes()) {
            assert(kind@ == tree_tag());
            return match TreeNode::parse(&mut reader) {
                Ok(tree) => {
                    proof {
                        assert forall|es: Seq<EntryView>| entries_wf(es) && #[trigger] serialized_tree(es) == s implies tree@ == es by {
                            crate::tree_node::lemma_entries_unique(tree@, es);
                        }
                    }
                    Ok(Object::TreeNode(tree))
                },
                Err(e) => Err(e),
            };
        }
        Err(ObjectError::UnsupportedType)
    }

    /// Decodes an object from the compressed bytes it is stored as.
    pub fn read(compressed: &[u8]) -> (r: Result<Object, ObjectError>)
        ensures
            zlib_inflate(compressed@) is None <==> r == Err::<Object, ObjectError>(
                ObjectError::Corruption,
            ),
            zlib_inflate(compressed@) matches Some(b) ==> parse_outcome(b, r),
            forall|o: Object| #[trigger] zlib_fast(serialized_object(&o)) == compressed@ ==> (match o {
                Object::Blob(b) => r matches Ok(Object::Blob(b2)) && b2.content@ == b.content@,
                Object::TreeNode(t) => entries_wf(t@) ==> (r matches Ok(Object::TreeNode(t2)) && t2@ == t@),
                Object::Commit(_) => true,
            }),
    {
        let bytes = match decompress(compressed) {
            Ok(v) => v,
            Err(_) => return Err(ObjectError::Corruption),
        };
        let r = Object::parse(bytes.as_slice());
        proof {
            assert forall|o: Object| #[trigger] zlib_fast(serialized_object(&o)) == compressed@ implies (match o {
                Object::Blob(b) => r matches Ok(Object::Blob(b2)) && b2.content@ == b.content@,
                Object::TreeNode(t) => entries_wf(t@) ==> (r matches Ok(Object::TreeNode(t2)) && t2@ == t@),
                Object::Commit(_) => true,
            }) by {
                assert(bytes@ == serialized_object(&o));
                match o {
                    Object::Blob(b) => {
                        assert(serialized_blob(b.content@) == bytes@);
                    },
                    Object::TreeNode(t) => {
                        assert(serialized_tree(t@) == bytes@);
                    },
                    Object::Commit(_) => {},
                }
            }
        }
        r
    }

    /// The blob inside.
    pub fn as_blob(self) -> (r: Blob)
        requires
            self is Blob,
        ensures
            self matches Object::Blob(b) && r.content@ == b.content@,
    {
        match self {
            Object::Blob(b) => b,
            _ => Blob::new(Vec::new()),
        }
    }

    /// The tree node inside.
    pub fn as_tree(self) -> (r: TreeNode)
        requires
            self is TreeNode,
        ensures
            self matches Object::TreeNode(t) && r@ == t@,
    {
        match self {
            Object::TreeNode(t) => t,
            _ => TreeNode::new(Vec::new()),
        }
    }
}

} // verus!
