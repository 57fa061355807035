use vstd::prelude::*;
use vstd::utf8::{decode_utf8_encode_utf8, encode_utf8, encode_utf8_decode_utf8};
use vstd::string::{is_ascii, is_ascii_spec_bytes, StringSliceAdditionalSpecFns};
use vstd::slice::slice_to_vec;
use crate::bytes_reader::BytesReader;
use crate::codec::{compress, zlib_fast};
use crate::hash::{hex_chars, sha1_of};
use crate::object::{header_bytes, lemma_first_delimiter, utf8_string, Header, ObjectError};

verus! {

/// An entry as mathematical values: its mode text, its name, and the referenced hash.
pub type EntryView = (Seq<char>, Seq<char>, Seq<u8>);

/// "<mode> <name>\0" followed by the 20 raw hash bytes.
pub open spec fn entry_bytes(e: EntryView) -> Seq<u8> {
    encode_utf8(e.0) + seq![32u8] + encode_utf8(e.1) + seq![0u8] + e.2
}

/// An entry's encoding followed by `t`.
pub open spec fn entry_then(v: EntryView, t: Seq<u8>) -> Seq<u8> {
    entry_bytes(v) + t
}

/// A mode without a space, a name without a NUL, and a full hash: what the encoding can carry.
pub open spec fn entry_wf(e: EntryView) -> bool {
    &&& !encode_utf8(e.0).contains(32u8)
    &&& !encode_utf8(e.1).contains(0u8)
    &&& e.2.len() == 20
}

pub open spec fn entries_wf(es: Seq<EntryView>) -> bool {
    forall|i: int| 0 <= i < es.len() ==> entry_wf(#[trigger] es[i])
}

/// The entries' encodings, one after the other, in order.
pub open spec fn entries_bytes(es: Seq<EntryView>) -> Seq<u8>
    decreases es.len(),
{
    if es.len() == 0 {
        Seq::empty()
    } else {
        entries_bytes(es.drop_last()) + entry_bytes(es.last())
    }
}

/// The kind tag "tree".
pub open spec fn tree_tag() -> Seq<u8> {
    seq![116u8, 114u8, 101u8, 101u8]
}

/// A tree node as stored before compression.
pub open spec fn serialized_tree(es: Seq<EntryView>) -> Seq<u8> {
    header_bytes(tree_tag(), entries_bytes(es).len()) + entries_bytes(es)
}

/// The header kind "tree" as text.
pub fn tree_kind() -> (r: String)
    ensures
        encode_utf8(r@) == tree_tag(),
{
    let lit = "tree";
    proof {
        reveal_strlit("tree");
        broadcast use is_ascii_spec_bytes;
        assert(is_ascii(lit));
        assert(lit.spec_bytes() =~= tree_tag());
    }
    String::from_str(lit)
}

/// A mode padded on the left with zeros to six characters.
pub open spec fn padded_mode(m: Seq<char>) -> Seq<char> {
    if m.len() < 6 {
        Seq::new((6 - m.len()) as nat, |i: int| '0') + m
    } else {
        m
    }
}

/// "<mode> <hex>\t<name>", the mode padded to six characters.
pub open spec fn entry_text(e: EntryView) -> Seq<char> {
    padded_mode(e.0) + seq![' '] + hex_chars(e.2) + seq!['\t'] + e.1
}

/// One line per entry, in stored order.
pub open spec fn tree_text(es: Seq<EntryView>) -> Seq<char>
    decreases es.len(),
{
    if es.len() == 0 {
        Seq::empty()
    } else {
        tree_text(es.drop_last()) + entry_text(es.last()) + seq!['\n']
    }
}

fn padded_mode_string(m: &String) -> (r: String)
    ensures
        r@ == padded_mode(m@),
{
    let n = m.as_str().unicode_len();
    let mut s = String::new();
    if n < 6 {
        let mut k: usize = 0;
        while k < 6 - n
            invariant
                n == m@.len(),
                n < 6,
                k <= 6 - n,
                s@ == Seq::new(k as nat, |i: int| '0'),
            decreases 6 - n - k,
        {
            proof {
                reveal_strlit("0");
            }
            s.append("0");
            assert(s@ =~= Seq::new((k + 1) as nat, |i: int| '0'));
            k = k + 1;
        }
    }
    s.append(m.as_str());
    assert(n >= 6 ==> s@ =~= m@);
    s
}

/// An entry's encoding splits in one way only.
pub proof fn lemma_entry_unique(v1: EntryView, t1: Seq<u8>, v2: EntryView, t2: Seq<u8>)
    requires
        entry_wf(v1),
        entry_wf(v2),
        entry_bytes(v1) + t1 == entry_bytes(v2) + t2,
    ensures
        v1 == v2,
        t1 == t2,
{
    let m1 = encode_utf8(v1.0);
    let m2 = encode_utf8(v2.0);
    let n1 = encode_utf8(v1.1);
    let n2 = encode_utf8(v2.1);
    let r1 = n1 + seq![0u8] + v1.2 + t1;
    let r2 = n2 + seq![0u8] + v2.2 + t2;
    assert(entry_bytes(v1) + t1 =~= m1 + seq![32u8] + r1);
    assert(entry_bytes(v2) + t2 =~= m2 + seq![32u8] + r2);
    lemma_first_delimiter(m1, r1, m2, r2, 32u8);
    assert(r1 =~= n1 + seq![0u8] + (v1.2 + t1));
    assert(r2 =~= n2 + seq![0u8] + (v2.2 + t2));
    lemma_first_delimiter(n1, v1.2 + t1, n2, v2.2 + t2, 0u8);
    assert(v1.2 =~= (v1.2 + t1).subrange(0, 20));
    assert(v2.2 =~= (v2.2 + t2).subrange(0, 20));
    assert(t1 =~= (v1.2 + t1).subrange(20, (v1.2 + t1).len() as int));
    assert(t2 =~= (v2.2 + t2).subrange(20, (v2.2 + t2).len() as int));
    encode_utf8_decode_utf8(v1.0);
    encode_utf8_decode_utf8(v2.0);
    encode_utf8_decode_utf8(v1.1);
    encode_utf8_decode_utf8(v2.1);
}

/// Reading the encodings front to back: the first entry's bytes come first.
pub proof fn lemma_entries_bytes_front(es: Seq<EntryView>)
    requires
        es.len() > 0,
    ensures
        entries_bytes(es) == entry_bytes(es[0]) + entries_bytes(es.drop_first()),
    decreases es.len(),
{
    if es.len() > 1 {
        lemma_entries_bytes_front(es.drop_last());
        assert(es.drop_last().drop_first() =~= es.drop_first().drop_last());
        assert(es.drop_first().last() == es.last());
    } else {
        assert(es.drop_last() =~= Seq::<EntryView>::empty());
        assert(es.drop_first() =~= Seq::<EntryView>::empty());
    }
}

/// One name in a tree node: its mode, its name, and the hash of the blob or tree it refers to.
pub struct TreeNodeEntry {
    pub mode: String,
    pub name: String,
    pub hash: crate::hash::Hash,
}

impl View for TreeNodeEntry {
    type V = EntryView;

    open spec fn view(&self) -> EntryView {
        (self.mode@, self.name@, self.hash@)
    }
}

impl TreeNodeEntry {
    pub fn new(mode: String, name: String, hash: crate::hash::Hash) -> (r: TreeNodeEntry)
        ensures
            r@ == (mode@, name@, hash@),
    {
        TreeNodeEntry { mode, name, hash }
    }

    /// Reads one entry from the front of the reader.
    pub fn parse(reader: &mut BytesReader) -> (r: Result<TreeNodeEntry, ObjectError>)
        requires
            old(reader).wf(),
        ensures
            final(reader).wf(),
            r matches Ok(e) ==> entry_wf(e@) && old(reader)@ == entry_bytes(e@) + final(reader)@,
            r is Err ==> r == Err::<TreeNodeEntry, ObjectError>(ObjectError::Framing) && forall|
                v: EntryView,
                t: Seq<u8>,
            | entry_wf(v) ==> old(reader)@ != #[trigger] entry_then(v, t),
    {
        let ghost s = reader@;
        let mode = match reader.read_until(32u8) {
            Some(m) => m,
            None => {
                assert forall|v: EntryView, t: Seq<u8>| entry_wf(v) implies s
                    != #[trigger] entry_then(v, t) by {
                    if s == entry_then(v, t) {
                        assert(s[encode_utf8(v.0).len() as int] == 32u8);
                    }
                }
                return Err(ObjectError::Framing);
            },
        };
        reader.skip();
        let ghost s2 = reader@;
        let name = match reader.read_until(0u8) {
            Some(n) => n,
            None => {
                assert forall|v: EntryView, t: Seq<u8>| entry_wf(v) implies s
                    != #[trigger] entry_then(v, t) by {
                    if s == entry_then(v, t) {
                        let rest = encode_utf8(v.1) + seq![0u8] + v.2 + t;
                        assert(s =~= encode_utf8(v.0) + seq![32u8] + rest);
                        assert(s =~= mode@ + seq![32u8] + s2);
                        lemma_first_delimiter(encode_utf8(v.0), rest, mode@, s2, 32u8);
                        assert(s2[encode_utf8(v.1).len() as int] == 0u8);
                    }
                }
                return Err(ObjectError::Framing);
            },
        };
        reader.skip();
        let ghost s3 = reader@;
        let hash = match reader.read_n(20) {
            Some(h) => h,
            None => {
                assert forall|v: EntryView, t: Seq<u8>| entry_wf(v) implies s
                    != #[trigger] entry_then(v, t) by {
                    if s == entry_then(v, t) {
                        let rest = encode_utf8(v.1) + seq![0u8] + v.2 + t;
                        assert(s =~= encode_utf8(v.0) + seq![32u8] + rest);
                        assert(s =~= mode@ + seq![32u8] + s2);
                        lemma_first_delimiter(encode_utf8(v.0), rest, mode@, s2, 32u8);
                        assert(s2 =~= encode_utf8(v.1) + seq![0u8] + (v.2 + t));
                        assert(s2 =~= name@ + seq![0u8] + s3);
                        lemma_first_delimiter(encode_utf8(v.1), v.2 + t, name@, s3, 0u8);
                    }
                }
                return Err(ObjectError::Framing);
            },
        };
        let ghost mb = mode@;
        let ghost nb = name@;
        let mode_text = utf8_string(mode);
        let name_text = utf8_string(name);
        if mode_text.is_none() || name_text.is_none() {
            assert forall|v: EntryView, t: Seq<u8>| entry_wf(v) implies s
                != #[trigger] entry_then(v, t) by {
                if s == entry_then(v, t) {
                    let rest = encode_utf8(v.1) + seq![0u8] + v.2 + t;
                    assert(s =~= encode_utf8(v.0) + seq![32u8] + rest);
                    assert(s =~= mb + seq![32u8] + s2);
                    lemma_first_delimiter(encode_utf8(v.0), rest, mb, s2, 32u8);
                    assert(s2 =~= encode_utf8(v.1) + seq![0u8] + (v.2 + t));
                    assert(s2 =~= nb + seq![0u8] + s3);
                    lemma_first_delimiter(encode_utf8(v.1), v.2 + t, nb, s3, 0u8);
                    vstd::utf8::encode_utf8_valid_utf8(v.0);
                    vstd::utf8::encode_utf8_valid_utf8(v.1);
                }
            }
            return Err(ObjectError::Framing);
        }
        let mut digest = [0u8; 20];
        let mut i: usize = 0;
        while i < 20
            invariant
                0 <= i <= 20,
                hash@.len() == 20,
                forall|j: int| 0 <= j < i ==> digest@[j] == hash@[j],
            decreases 20 - i,
        {
            digest[i] = hash[i];
            i = i + 1;
        }
        assert(digest@ =~= hash@);
        let e = TreeNodeEntry::new(mode_text.unwrap(), name_text.unwrap(), crate::hash::Hash::new(digest));
        proof {
            decode_utf8_encode_utf8(mb);
            decode_utf8_encode_utf8(nb);
            assert(s2 =~= nb + seq![0u8] + hash@ + reader@);
            assert(s =~= entry_bytes(e@) + reader@);
        }
        Ok(e)
    }

    /// The entry as a listing shows it: "<mode> <hex>\t<name>".
    pub fn to_text(&self) -> (r: String)
        ensures
            r@ == entry_text(self@),
    {
        let mut s = padded_mode_string(&self.mode);
        proof {
            reveal_strlit(" ");
            reveal_strlit("\t");
        }
        s.append(" ");
        let hex = self.hash.to_hex();
        s.append(hex.as_str());
        s.append("\t");
        s.append(self.name.as_str());
        s
    }

    /// The entry with the kind of the object it refers to: "<mode> <kind> <hex>\t<name>".
    pub fn listing_line(&self, kind: &str) -> (r: String)
        ensures
            r@ == padded_mode(self.mode@) + seq![' '] + kind@ + seq![' '] + hex_chars(self.hash@)
                + seq!['\t'] + self.name@,
    {
        let mut s = padded_mode_string(&self.mode);
        proof {
            reveal_strlit(" ");
            reveal_strlit("\t");
        }
        s.append(" ");
        s.append(kind);
        s.append(" ");
        let hex = self.hash.to_hex();
        s.append(hex.as_str());
        s.append("\t");
        s.append(self.name.as_str());
        s
    }

    /// "<mode> <name>\0" and then the raw hash bytes.
    pub fn encode(&self) -> (r: Vec<u8>)
        ensures
            r@ == entry_bytes(self@),
    {
        let mut v = slice_to_vec(self.mode.as_str().as_bytes());
        v.push(32u8);
        let mut n = slice_to_vec(self.name.as_str().as_bytes());
        v.append(&mut n);
        v.push(0u8);
        let digest = self.hash.bytes();
        let mut h = slice_to_vec(digest.as_slice());
        v.append(&mut h);
        v
    }
}

proof fn lemma_entries_bytes_empty(es: Seq<EntryView>)
    requires
        entries_bytes(es).len() == 0,
    ensures
        es.len() == 0,
{
    if es.len() > 0 {
        assert(entries_bytes(es).len() >= entry_bytes(es.last()).len());
    }
}

/// Where the encodings of `a`, followed by `r`, are those of `b`, then `a` begins `b`
/// and `r` encodes the rest of `b`.
pub proof fn lemma_entries_prefix(a: Seq<EntryView>, r: Seq<u8>, b: Seq<EntryView>)
    requires
        entries_wf(a),
        entries_wf(b),
        entries_bytes(a) + r == entries_bytes(b),
    ensures
        a.len() <= b.len(),
        a == b.take(a.len() as int),
        r == entries_bytes(b.skip(a.len() as int)),
    decreases a.len(),
{
    if a.len() == 0 {
        assert(entries_bytes(a) + r =~= r);
        assert(b.skip(0) =~= b);
        assert(a =~= b.take(0));
    } else {
        lemma_entries_bytes_front(a);
        if b.len() == 0 {
            assert((entries_bytes(a) + r).len() > 0);
        }
        lemma_entries_bytes_front(b);
        assert(entry_wf(a[0]));
        assert(entry_wf(b[0]));
        assert(entries_bytes(a) + r =~= entry_bytes(a[0]) + (entries_bytes(a.drop_first()) + r));
        lemma_entry_unique(a[0], entries_bytes(a.drop_first()) + r, b[0], entries_bytes(b.drop_first()));
        assert(entries_wf(a.drop_first())) by {
            assert forall|i: int| 0 <= i < a.drop_first().len() implies entry_wf(#[trigger] a.drop_first()[i]) by {
                assert(a.drop_first()[i] == a[i + 1]);
            }
        }
        assert(entries_wf(b.drop_first())) by {
            assert forall|i: int| 0 <= i < b.drop_first().len() implies entry_wf(#[trigger] b.drop_first()[i]) by {
                assert(b.drop_first()[i] == b[i + 1]);
            }
        }
        lemma_entries_prefix(a.drop_first(), r, b.drop_first());
        assert(b.drop_first().skip(a.len() - 1) =~= b.skip(a.len() as int));
        assert(a =~= b.take(a.len() as int)) by {
            assert forall|i: int| 0 <= i < a.len() implies a[i] == b.take(a.len() as int)[i] by {
                if i > 0 {
                    assert(a[i] == a.drop_first()[i - 1]);
                    assert(b[i] == b.drop_first()[i - 1]);
                    assert(a.drop_first()[i - 1] == b.drop_first().take(a.len() - 1)[i - 1]);
                }
            }
        }
    }
}

/// Distinct well-formed entry lists have distinct encodings.
pub proof fn lemma_entries_unique(a: Seq<EntryView>, b: Seq<EntryView>)
    requires
        entries_wf(a),
        entries_wf(b),
        entries_bytes(a) == entries_bytes(b),
    ensures
        a == b,
{
    assert(entries_bytes(a) + Seq::<u8>::empty() =~= entries_bytes(b));
    lemma_entries_prefix(a, Seq::empty(), b);
    lemma_entries_bytes_empty(b.skip(a.len() as int));
    assert(b.take(a.len() as int) =~= b);
}

/// A directory snapshot: its entries in their stored order.
pub struct TreeNode {
    entries: Vec<TreeNodeEntry>,
}

impl View for TreeNode {
    type V = Seq<EntryView>;

    closed spec fn view(&self) -> Seq<EntryView> {
        self.entries@.map_values(|e: TreeNodeEntry| e@)
    }
}

impl TreeNode {
    pub fn new(entries: Vec<TreeNodeEntry>) -> (r: TreeNode)
        ensures
            r@ == entries@.map_values(|e: TreeNodeEntry| e@),
    {
        TreeNode { entries }
    }

    /// The entries, in their stored order.
    pub fn entries(&self) -> (r: &Vec<TreeNodeEntry>)
        ensures
            r@.map_values(|e: TreeNodeEntry| e@) == self@,
    {
        &self.entries
    }

    /// Reads entries until the reader is exhausted.
    pub fn parse(reader: &mut BytesReader) -> (r: Result<TreeNode, ObjectError>)
        requires
            old(reader).wf(),
        ensures
            final(reader).wf(),
            r matches Ok(t) ==> entries_wf(t@) && entries_bytes(t@) == old(reader)@
                && final(reader)@.len() == 0,
            r is Err ==> r == Err::<TreeNode, ObjectError>(ObjectError::Framing) && forall|
                es: Seq<EntryView>,
            | entries_wf(es) ==> #[trigger] entries_bytes(es) != old(reader)@,
    {
        let ghost s = reader@;
        let mut entries: Vec<TreeNodeEntry> = Vec::new();
        while !reader.is_at_end()
            invariant
                reader.wf(),
                s == old(reader)@,
                entries_wf(entries@.map_values(|e: TreeNodeEntry| e@)),
                s == entries_bytes(entries@.map_values(|e: TreeNodeEntry| e@)) + reader@,
            decreases reader@.len(),
        {
            let ghost done = entries@.map_values(|e: TreeNodeEntry| e@);
            let ghost rest = reader@;
            match TreeNodeEntry::parse(reader) {
                Ok(e) => {
                    let ghost ev = e@;
                    entries.push(e);
                    proof {
                        let now = entries@.map_values(|e: TreeNodeEntry| e@);
                        assert(now =~= done.push(ev));
                        assert(now.drop_last() =~= done);
                        assert(s =~= entries_bytes(now) + reader@);
                    }
                },
                Err(_) => {
                    assert forall|es: Seq<EntryView>| entries_wf(es) implies #[trigger] entries_bytes(es) != s by {
                        if entries_bytes(es) == s {
                            lemma_entries_prefix(done, rest, es);
                            let more = es.skip(done.len() as int);
                            if more.len() == 0 {
                                assert(entries_bytes(more) =~= Seq::<u8>::empty());
                            } else {
                                lemma_entries_bytes_front(more);
                                assert(more[0] == es[done.len() as int]);
                                assert(rest == entry_then(more[0], entries_bytes(more.drop_first())));
                            }
                        }
                    }
                    return Err(ObjectError::Framing);
                },
            }
        }
        assert(s =~= entries_bytes(entries@.map_values(|e: TreeNodeEntry| e@)));
        Ok(TreeNode { entries })
    }

    /// Every entry's text on a line of its own, in stored order.
    pub fn to_text(&self) -> (r: String)
        ensures
            r@ == tree_text(self@),
    {
        let mut s = String::new();
        let mut i: usize = 0;
        while i < self.entries.len()
            invariant
                0 <= i <= self.entries@.len(),
                s@ == tree_text(self@.take(i as int)),
            decreases self.entries@.len() - i,
        {
            let line = self.entries[i].to_text();
            s.append(line.as_str());
            proof {
                reveal_strlit("\n");
            }
            s.append("\n");
            proof {
                assert(self@.take(i + 1).drop_last() =~= self@.take(i as int));
                assert(self@.take(i + 1).last() == self.entries@[i as int]@);
            }
            i = i + 1;
        }
        assert(self@.take(i as int) =~= self@);
        s
    }

    /// The entries' bytes in stored order, after a "tree" header.
    pub fn serialize(&self) -> (r: Vec<u8>)
        ensures
            r@ == serialized_tree(self@),
    {
        let mut payload: Vec<u8> = Vec::new();
        let mut i: usize = 0;
        while i < self.entries.len()
            invariant
                0 <= i <= self.entries@.len(),
                payload@ == entries_bytes(self@.take(i as int)),
            decreases self.entries@.len() - i,
        {
            let mut e = self.entries[i].encode();
            payload.append(&mut e);
            proof {
                assert(self@.take(i + 1).drop_last() =~= self@.take(i as int));
                assert(self@.take(i + 1).last() == self.entries@[i as int]@);
            }
            i = i + 1;
        }
        assert(self@.take(i as int) =~= self@);
        let mut bytes = Header::new(tree_kind(), payload.len()).encode();
        bytes.append(&mut payload);
        bytes
    }

    /// The hash of the serialized node and its compressed bytes.
    pub fn encode(&self) -> (r: (crate::hash::Hash, Vec<u8>))
        ensures
            r.0@ == sha1_of(serialized_tree(self@)),
            r.1@ == zlib_fast(serialized_tree(self@)),
    {
        let bytes = self.serialize();
        let hash = crate::hash::Hash::hash(bytes.as_slice());
        let encoded = compress(bytes.as_slice());
        (hash, encoded)
    }
}

} // verus!
