use vstd::prelude::*;
use vstd::utf8::{decode_utf8, encode_utf8, valid_utf8};
use vstd::string::{is_ascii, is_ascii_spec_bytes, StringSliceAdditionalSpecFns};
use vstd::slice::slice_to_vec;
use crate::bytes_reader::BytesReader;
use crate::codec::{compress, zlib_fast};
use crate::hash::sha1_of;
use crate::object::{header_bytes, utf8_string, Header};

verus! {

/// The kind tag "blob".
pub open spec fn blob_tag() -> Seq<u8> {
    seq![98u8, 108u8, 111u8, 98u8]
}

/// A blob as stored before compression: its header, then its content verbatim.
pub open spec fn serialized_blob(content: Seq<u8>) -> Seq<u8> {
    header_bytes(blob_tag(), content.len()) + content
}

/// The header kind "blob" as text.
pub fn blob_kind() -> (r: String)
    ensures
        encode_utf8(r@) == blob_tag(),
{
    let lit = "blob";
    proof {
        reveal_strlit("blob");
        broadcast use is_ascii_spec_bytes;
        assert(is_ascii(lit));
        assert(lit.spec_bytes() =~= blob_tag());
    }
    String::from_str(lit)
}

/// One file's raw bytes.
pub struct Blob {
    pub content: Vec<u8>,
}

impl Blob {
    pub fn new(content: Vec<u8>) -> (r: Blob)
        ensures
            r.content@ == content@,
    {
        Blob { content }
    }

    /// The rest of the reader, taken as it is.
    pub fn parse(reader: &mut BytesReader) -> (r: Blob)
        requires
            old(reader).wf(),
        ensures
            final(reader).wf(),
            r.content@ == old(reader)@,
            final(reader)@.len() == 0,
    {
        Blob::new(reader.read_all())
    }

    pub fn serialize(&self) -> (r: Vec<u8>)
        ensures
            r@ == serialized_blob(self.content@),
    {
        let mut bytes = Header::new(blob_kind(), self.content.len()).encode();
        let mut content = slice_to_vec(self.content.as_slice());
        bytes.append(&mut content);
        bytes
    }

    /// The content as text, where it is valid UTF-8.
    pub fn to_text(&self) -> (r: Option<String>)
        ensures
            r is Some <==> valid_utf8(self.content@),
            r matches Some(s) ==> s@ == decode_utf8(self.content@),
    {
        utf8_string(slice_to_vec(self.content.as_slice()))
    }

    /// The hash of the serialized blob and its compressed bytes.
    pub fn encode(&self) -> (r: (crate::hash::Hash, Vec<u8>))
        ensures
            r.0@ == sha1_of(serialized_blob(self.content@)),
            r.1@ == zlib_fast(serialized_blob(self.content@)),
    {
        let bytes = self.serialize();
        let hash = crate::hash::Hash::hash(bytes.as_slice());
        let encoded = compress(bytes.as_slice());
        (hash, encoded)
    }
}

} // verus!
