use sha1::Digest;
use vstd::prelude::*;
use vstd::slice::slice_subrange;

verus! {

/// What SHA-1 yields for a byte sequence: a function of the bytes alone.
pub uninterp spec fn sha1_of(b: Seq<u8>) -> Seq<u8>;

/// The lowercase hexadecimal digit for a value below sixteen.
pub open spec fn hex_digit(d: u8) -> char {
    if d == 0 { '0' } else if d == 1 { '1' } else if d == 2 { '2' } else if d == 3 { '3' }
    else if d == 4 { '4' } else if d == 5 { '5' } else if d == 6 { '6' } else if d == 7 { '7' }
    else if d == 8 { '8' } else if d == 9 { '9' } else if d == 10 { 'a' } else if d == 11 { 'b' }
    else if d == 12 { 'c' } else if d == 13 { 'd' } else if d == 14 { 'e' } else { 'f' }
}

/// Two lowercase hex digits per byte, high nibble first.
pub open spec fn hex_chars(b: Seq<u8>) -> Seq<char>
    decreases b.len(),
{
    if b.len() == 0 {
        Seq::empty()
    } else {
        seq![hex_digit(b[0] / 16), hex_digit(b[0] % 16)] + hex_chars(b.drop_first())
    }
}

pub proof fn lemma_hex_chars_len(b: Seq<u8>)
    ensures
        hex_chars(b).len() == 2 * b.len(),
    decreases b.len(),
{
    if b.len() > 0 {
        lemma_hex_chars_len(b.drop_first());
    }
}

pub proof fn lemma_hex_chars_split(a: Seq<u8>, b: Seq<u8>)
    ensures
        hex_chars(a + b) == hex_chars(a) + hex_chars(b),
    decreases a.len(),
{
    if a.len() == 0 {
        assert(a + b =~= b);
        assert(hex_chars(a) + hex_chars(b) =~= hex_chars(b));
    } else {
        assert((a + b).drop_first() =~= a.drop_first() + b);
        lemma_hex_chars_split(a.drop_first(), b);
    }
}

/// Relies on sha1::Sha1 (through digest's update and finalize): the 20-byte digest of `b`.
#[verifier::external_body]
fn sha1_digest(b: &[u8]) -> (r: [u8; 20])
    ensures
        r@ == sha1_of(b@),
{
    let mut hasher = sha1::Sha1::new();
    hasher.update(b);
    hasher.finalize().into()
}

/// Relies on hex::encode: two lowercase hex digits for each byte, in order.
#[verifier::external_body]
fn hex_encode(b: &[u8]) -> (r: String)
    ensures
        r@ == hex_chars(b@),
{
    hex::encode(b)
}

/// Relies on hex::decode: it gives back the bytes whose lowercase digits `s` holds, and
/// two digits make each byte of whatever it accepts.
#[verifier::external_body]
fn hex_decode(s: &str) -> (r: Option<Vec<u8>>)
    ensures
        r is None ==> forall|b: Seq<u8>| #[trigger] hex_chars(b) != s@,
        r matches Some(v) ==> forall|b: Seq<u8>| #[trigger] hex_chars(b) == s@ ==> v@ == b,
        r matches Some(v) ==> 2 * v@.len() == s@.len(),
{
    hex::decode(s).ok()
}

/// A 20-byte object identity.
#[derive(Clone, Copy, Debug, PartialEq, Eq)]
pub struct Hash {
    digest: [u8; 20],
}

impl View for Hash {
    type V = Seq<u8>;

    closed spec fn view(&self) -> Seq<u8> {
        self.digest@
    }
}

impl Hash {
    pub fn new(hash: [u8; 20]) -> (r: Hash)
        ensures
            r@ == hash@,
    {
        Hash { digest: hash }
    }

    pub fn bytes(&self) -> (r: [u8; 20])
        ensures
            r@ == self@,
    {
        self.digest
    }

    /// The digest of exactly the given bytes.
    pub fn hash(bytes: &[u8]) -> (r: Hash)
        ensures
            r@ == sha1_of(bytes@),
    {
        Hash { digest: sha1_digest(bytes) }
    }

    /// The canonical text form: 40 lowercase hex digits.
    pub fn to_hex(&self) -> (r: String)
        ensures
            r@ == hex_chars(self@),
            r@.len() == 40,
    {
        proof {
            lemma_hex_chars_len(self@);
        }
        hex_encode(self.digest.as_slice())
    }

    /// The hash whose canonical text is `s`; `None` where `s` is not 40 lowercase hex digits.
    pub fn from_hex(s: &str) -> (r: Option<Hash>)
        ensures
            forall|b: Seq<u8>| b.len() == 20 && #[trigger] hex_chars(b) == s@ ==> (r matches Some(h) && h@ == b),
            r matches Some(h) ==> hex_chars(h@) == s@,
            r is Some ==> s@.len() == 40,
    {
        match hex_decode(s) {
            Some(v) => {
                if v.len() != 20 {
                    return None;
                }
                let mut digest = [0u8; 20];
                let mut i: usize = 0;
                while i < 20
                    invariant
                        0 <= i <= 20,
                        v@.len() == 20,
                        forall|j: int| 0 <= j < i ==> digest@[j] == v@[j],
                    decreases 20 - i,
                {
                    digest[i] = v[i];
                    i = i + 1;
                }
                assert(digest@ =~= v@);
                let back = hex_encode(digest.as_slice());
                let given = String::from_str(s);
                if back != given {
                    return None;
                }
                proof {
                    lemma_hex_chars_len(digest@);
                }
                Some(Hash { digest })
            },
            None => None,
        }
    }

    /// The hex text split after its first two digits: the shard directory and the file name.
    pub fn shard_parts(&self) -> (r: (String, String))
        ensures
            r.0@ == hex_chars(self@).subrange(0, 2),
            r.1@ == hex_chars(self@).subrange(2, 40),
    {
        let all = self.digest.as_slice();
        let head = slice_subrange(all, 0, 1);
        let tail = slice_subrange(all, 1, 20);
        proof {
            assert(self@ =~= head@ + tail@);
            lemma_hex_chars_split(head@, tail@);
            lemma_hex_chars_len(head@);
            lemma_hex_chars_len(tail@);
            assert(hex_chars(self@).subrange(0, 2) =~= hex_chars(head@));
            assert(hex_chars(self@).subrange(2, 40) =~= hex_chars(tail@));
        }
        (hex_encode(head), hex_encode(tail))
    }
}

/// Identical input bytes give identical hashes.
pub proof fn lemma_hash_deterministic(a: Seq<u8>, b: Seq<u8>)
    requires
        a == b,
    ensures
        sha1_of(a) == sha1_of(b),
{
}

} // verus!
