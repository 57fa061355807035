use vstd::prelude::*;
use vstd::utf8::encode_utf8;
use vstd::string::{is_ascii, is_ascii_spec_bytes, StringSliceAdditionalSpecFns};
use vstd::slice::slice_to_vec;
use crate::codec::{compress, zlib_fast};
use crate::hash::{hex_chars, hex_digit, sha1_of};
use crate::bytes_reader::BytesReader;
use crate::object::{header_bytes, Header, ObjectError};

verus! {

/// A commit as mathematical values: tree hash, parent hashes, author name, email,
/// timestamp, time zone and message.
pub type CommitView = (Seq<u8>, Seq<Seq<u8>>, Seq<char>, Seq<char>, Seq<char>, Seq<char>, Seq<char>);

/// The kind tag "commit".
pub open spec fn commit_tag() -> Seq<u8> {
    seq![99u8, 111u8, 109u8, 109u8, 105u8, 116u8]
}

/// A hash's 40 hex digits as bytes.
pub open spec fn hex_text(h: Seq<u8>) -> Seq<u8> {
    encode_utf8(hex_chars(h))
}

/// "parent <hex>\n".
pub open spec fn parent_line(h: Seq<u8>) -> Seq<u8> {
    seq![112u8, 97u8, 114u8, 101u8, 110u8, 116u8, 32u8] + hex_text(h) + seq![10u8]
}

/// One parent line per parent, in list order.
pub open spec fn parent_lines(ps: Seq<Seq<u8>>) -> Seq<u8>
    decreases ps.len(),
{
    if ps.len() == 0 {
        Seq::empty()
    } else {
        parent_lines(ps.drop_last()) + parent_line(ps.last())
    }
}

/// "<name> <<email>> <timestamp> <timezone>".
pub open spec fn signature(c: CommitView) -> Seq<u8> {
    encode_utf8(c.2) + seq![32u8, 60u8] + encode_utf8(c.3) + seq![62u8, 32u8] + encode_utf8(c.4)
        + seq![32u8] + encode_utf8(c.5)
}

/// The commit's text: tree line, parent lines, author and committer lines, a blank
/// line, and the message with a closing newline.
pub open spec fn commit_payload(c: CommitView) -> Seq<u8> {
    seq![116u8, 114u8, 101u8, 101u8, 32u8] + hex_text(c.0) + seq![10u8] + parent_lines(c.1)
        + seq![97u8, 117u8, 116u8, 104u8, 111u8, 114u8, 32u8] + signature(c) + seq![10u8]
        + seq![99u8, 111u8, 109u8, 109u8, 105u8, 116u8, 116u8, 101u8, 114u8, 32u8] + signature(c)
        + seq![10u8, 10u8] + encode_utf8(c.6) + seq![10u8]
}

/// A commit as stored before compression.
pub open spec fn serialized_commit(c: CommitView) -> Seq<u8> {
    header_bytes(commit_tag(), commit_payload(c).len()) + commit_payload(c)
}

/// A commit without parents has no parent line; one with two parents has exactly their
/// two lines, in list order.
pub proof fn lemma_parent_lines_shape(ps: Seq<Seq<u8>>)
    ensures
        ps.len() == 0 ==> parent_lines(ps) == Seq::<u8>::empty(),
        ps.len() == 2 ==> parent_lines(ps) == parent_line(ps[0]) + parent_line(ps[1]),
{
    if ps.len() == 2 {
        assert(ps.drop_last().drop_last() =~= Seq::<Seq<u8>>::empty());
        assert(parent_lines(ps.drop_last().drop_last()) == Seq::<u8>::empty());
        assert(ps.drop_last().last() == ps[0]);
        assert(parent_lines(ps.drop_last()) =~= parent_line(ps[0]));
    }
}

/// The header kind "commit" as text.
pub fn commit_kind() -> (r: String)
    ensures
        encode_utf8(r@) == commit_tag(),
{
    let lit = "commit";
    proof {
        reveal_strlit("commit");
        broadcast use is_ascii_spec_bytes;
        assert(is_ascii(lit));
        assert(lit.spec_bytes() =~= commit_tag());
    }
    String::from_str(lit)
}

/// The two decimal digits of a value below a hundred.
pub open spec fn two_digits(n: int) -> Seq<char> {
    seq![hex_digit((n / 10) as u8), hex_digit((n % 10) as u8)]
}

/// The decimal digits of `n`, without leading zeros.
pub open spec fn decimal_chars(n: nat) -> Seq<char>
    decreases n,
{
    if n < 10 {
        seq![hex_digit(n as u8)]
    } else {
        decimal_chars(n / 10).push(hex_digit((n % 10) as u8))
    }
}

/// A timestamp as text: a minus sign where it is negative, then its digits.
pub open spec fn timestamp_text(t: int) -> Seq<char> {
    if t < 0 {
        seq!['-'] + decimal_chars((-t) as nat)
    } else {
        decimal_chars(t as nat)
    }
}

/// An offset from UTC in seconds as "+HHMM", or "+HHMMSS" where seconds remain; "-" west
/// of UTC.
pub open spec fn timezone_text(offset: int) -> Seq<char> {
    let sign = if offset < 0 { '-' } else { '+' };
    let a = if offset < 0 { -offset } else { offset };
    let sec = a % 60;
    let min = (a / 60) % 60;
    let hour = (a / 60) / 60;
    seq![sign] + two_digits(hour) + two_digits(min) + if sec == 0 {
        Seq::empty()
    } else {
        two_digits(sec)
    }
}

/// The one-character text of a decimal digit.
fn digit_str(d: u64) -> (r: &'static str)
    requires
        d < 10,
    ensures
        r@ == seq![hex_digit(d as u8)],
{
    match d {
        0 => {
            proof {
                reveal_strlit("0");
            }
            "0"
        },
        1 => {
            proof {
                reveal_strlit("1");
            }
            "1"
        },
        2 => {
            proof {
                reveal_strlit("2");
            }
            "2"
        },
        3 => {
            proof {
                reveal_strlit("3");
            }
            "3"
        },
        4 => {
            proof {
                reveal_strlit("4");
            }
            "4"
        },
        5 => {
            proof {
                reveal_strlit("5");
            }
            "5"
        },
        6 => {
            proof {
                reveal_strlit("6");
            }
            "6"
        },
        7 => {
            proof {
                reveal_strlit("7");
            }
            "7"
        },
        8 => {
            proof {
                reveal_strlit("8");
            }
            "8"
        },
        _ => {
            proof {
                reveal_strlit("9");
            }
            "9"
        },
    }
}

fn decimal_string(n: u64) -> (r: String)
    ensures
        r@ == decimal_chars(n as nat),
    decreases n,
{
    if n < 10 {
        String::from_str(digit_str(n))
    } else {
        let mut s = decimal_string(n / 10);
        s.append(digit_str(n % 10));
        s
    }
}

fn append_two_digits(s: &mut String, n: u64)
    requires
        n < 100,
    ensures
        final(s)@ == old(s)@ + two_digits(n as int),
{
    s.append(digit_str(n / 10));
    s.append(digit_str(n % 10));
}

/// The text of a timestamp in seconds since the epoch.
pub fn format_timestamp(t: i64) -> (r: String)
    ensures
        r@ == timestamp_text(t as int),
{
    if t < 0 {
        let a = (0 - (t as i128)) as u64;
        let mut s = String::from_str("-");
        proof {
            reveal_strlit("-");
        }
        let d = decimal_string(a);
        s.append(d.as_str());
        s
    } else {
        decimal_string(t as u64)
    }
}

/// The text of an offset from UTC, given in seconds, as a commit records it.
pub fn format_timezone(offset: i32) -> (r: String)
    requires
        -86400 < offset < 86400,
    ensures
        r@ == timezone_text(offset as int),
{
    let a: u64 = if offset < 0 { (0 - offset) as u64 } else { offset as u64 };
    let mut s = if offset < 0 {
        proof {
            reveal_strlit("-");
        }
        String::from_str("-")
    } else {
        proof {
            reveal_strlit("+");
        }
        String::from_str("+")
    };
    let sec = a % 60;
    let min = (a / 60) % 60;
    let hour = (a / 60) / 60;
    append_two_digits(&mut s, hour);
    append_two_digits(&mut s, min);
    if sec != 0 {
        append_two_digits(&mut s, sec);
    }
    proof {
        if sec == 0 {
            assert(s@ =~= timezone_text(offset as int));
        }
    }
    s
}

/// Relies on chrono's Local::now, DateTime::timestamp and FixedOffset::local_minus_utc:
/// the seconds since the epoch and the local offset from UTC, which FixedOffset keeps
/// strictly within one day.
#[verifier::external_body]
fn local_now() -> (r: (i64, i32))
    ensures
        -86400 < r.1 < 86400,
{
    let now = chrono::Local::now();
    (now.timestamp(), now.offset().local_minus_utc())
}

fn append_bytes(v: &mut Vec<u8>, s: &[u8])
    ensures
        final(v)@ == old(v)@ + s@,
{
    let mut t = slice_to_vec(s);
    v.append(&mut t);
}

fn append_text(v: &mut Vec<u8>, s: &String)
    ensures
        final(v)@ == old(v)@ + encode_utf8(s@),
{
    append_bytes(v, s.as_str().as_bytes());
}

/// A snapshot's tree, its parent commits, who made it and when, and why.
pub struct Commit {
    tree: crate::hash::Hash,
    parents: Vec<crate::hash::Hash>,
    name: String,
    email: String,
    timestamp: String,
    timezone: String,
    message: String,
}

impl View for Commit {
    type V = CommitView;

    closed spec fn view(&self) -> CommitView {
        (
            self.tree@,
            self.parents@.map_values(|h: crate::hash::Hash| h@),
            self.name@,
            self.email@,
            self.timestamp@,
            self.timezone@,
            self.message@,
        )
    }
}

impl Commit {
    /// A commit by the fixed author "Name <name@example.com>".
    pub fn new(
        tree: crate::hash::Hash,
        parents: Vec<crate::hash::Hash>,
        timestamp: String,
        timezone: String,
        message: String,
    ) -> (r: Commit)
        ensures
            r@.0 == tree@,
            r@.1 == parents@.map_values(|h: crate::hash::Hash| h@),
            r@.2 == "Name"@,
            r@.3 == "name@example.com"@,
            r@.4 == timestamp@,
            r@.5 == timezone@,
            r@.6 == message@,
    {
        Commit {
            tree,
            parents,
            name: String::from_str("Name"),
            email: String::from_str("name@example.com"),
            timestamp,
            timezone,
            message,
        }
    }

    /// A commit made at `timestamp` seconds since the epoch, `offset` seconds east of UTC.
    pub fn new_at(
        tree: crate::hash::Hash,
        parents: Vec<crate::hash::Hash>,
        timestamp: i64,
        offset: i32,
        message: String,
    ) -> (r: Commit)
        requires
            -86400 < offset < 86400,
        ensures
            r@.0 == tree@,
            r@.1 == parents@.map_values(|h: crate::hash::Hash| h@),
            r@.2 == "Name"@,
            r@.3 == "name@example.com"@,
            r@.4 == timestamp_text(timestamp as int),
            r@.5 == timezone_text(offset as int),
            r@.6 == message@,
    {
        Commit::new(tree, parents, format_timestamp(timestamp), format_timezone(offset), message)
    }

    /// A commit made now, in the local time zone.
    pub fn new_current_time(
        tree: crate::hash::Hash,
        parents: Vec<crate::hash::Hash>,
        message: String,
    ) -> (r: Commit)
        ensures
            r@.0 == tree@,
            r@.1 == parents@.map_values(|h: crate::hash::Hash| h@),
            r@.2 == "Name"@,
            r@.3 == "name@example.com"@,
            exists|t: int, o: int|
                -86400 < o < 86400 && r@.4 == timestamp_text(t) && r@.5 == timezone_text(o),
            r@.6 == message@,
    {
        let (timestamp, offset) = local_now();
        Commit::new_at(tree, parents, timestamp, offset, message)
    }

    /// Commits are written, never read back: reading one is refused.
    pub fn parse(reader: &mut BytesReader) -> (r: Result<Commit, ObjectError>)
        ensures
            r == Err::<Commit, ObjectError>(ObjectError::UnsupportedType),
            *final(reader) == *old(reader),
    {
        Err(ObjectError::UnsupportedType)
    }

    /// The text of the commit after a "commit" header.
    pub fn serialize(&self) -> (r: Vec<u8>)
        ensures
            r@ == serialized_commit(self@),
    {
        let ghost c = self@;
        let mut p: Vec<u8> = Vec::new();
        append_bytes(&mut p, &[116u8, 114u8, 101u8, 101u8, 32u8]);
        append_text(&mut p, &self.tree.to_hex());
        p.push(10u8);
        let ghost head = p@;
        let mut i: usize = 0;
        while i < self.parents.len()
            invariant
                0 <= i <= self.parents@.len(),
                c == self@,
                p@ == head + parent_lines(c.1.take(i as int)),
            decreases self.parents@.len() - i,
        {
            append_bytes(&mut p, &[112u8, 97u8, 114u8, 101u8, 110u8, 116u8, 32u8]);
            append_text(&mut p, &self.parents[i].to_hex());
            p.push(10u8);
            proof {
                assert(c.1.take(i + 1).drop_last() =~= c.1.take(i as int));
                assert(c.1.take(i + 1).last() == self.parents@[i as int]@);
            }
            i = i + 1;
        }
        assert(c.1.take(i as int) =~= c.1);
        let mut sig: Vec<u8> = Vec::new();
        append_text(&mut sig, &self.name);
        append_bytes(&mut sig, &[32u8, 60u8]);
        append_text(&mut sig, &self.email);
        append_bytes(&mut sig, &[62u8, 32u8]);
        append_text(&mut sig, &self.timestamp);
        sig.push(32u8);
        append_text(&mut sig, &self.timezone);
        append_bytes(&mut p, &[97u8, 117u8, 116u8, 104u8, 111u8, 114u8, 32u8]);
        append_bytes(&mut p, sig.as_slice());
        p.push(10u8);
        append_bytes(&mut p, &[99u8, 111u8, 109u8, 109u8, 105u8, 116u8, 116u8, 101u8, 114u8, 32u8]);
        append_bytes(&mut p, sig.as_slice());
        append_bytes(&mut p, &[10u8, 10u8]);
        append_text(&mut p, &self.message);
        p.push(10u8);
        assert(sig@ =~= signature(c));
        assert(p@ =~= commit_payload(c));
        let mut bytes = Header::new(commit_kind(), p.len()).encode();
        bytes.append(&mut p);
        bytes
    }

    /// The hash of the serialized commit and its compressed bytes.
    pub fn encode(&self) -> (r: (crate::hash::Hash, Vec<u8>))
        ensures
            r.0@ == sha1_of(serialized_commit(self@)),
            r.1@ == zlib_fast(serialized_commit(self@)),
    {
        let bytes = self.serialize();
        let hash = crate::hash::Hash::hash(bytes.as_slice());
        let encoded = compress(bytes.as_slice());
        (hash, encoded)
    }
}

} // verus!
