use vstd::prelude::*;
use vstd::slice::{slice_subrange, slice_to_vec};

verus! {

/// A read position over a borrowed byte buffer; it only moves forward.
pub struct BytesReader<'a> {
    bytes: &'a [u8],
    pos: usize,
}

impl<'a> View for BytesReader<'a> {
    type V = Seq<u8>;

    /// The bytes not yet read.
    closed spec fn view(&self) -> Seq<u8> {
        self.bytes@.subrange(self.pos as int, self.bytes@.len() as int)
    }
}

impl<'a> BytesReader<'a> {
    pub closed spec fn wf(&self) -> bool {
        self.pos <= self.bytes@.len()
    }

    pub fn new(bytes: &'a [u8]) -> (r: Self)
        ensures
            r.wf(),
            r@ == bytes@,
    {
        let r = BytesReader { bytes, pos: 0 };
        assert(r@ =~= bytes@);
        r
    }

    pub fn len(&self) -> (r: usize)
        requires
            self.wf(),
        ensures
            r == self@.len(),
    {
        self.bytes.len() - self.pos
    }

    pub fn is_at_end(&self) -> (r: bool)
        requires
            self.wf(),
        ensures
            r == (self@.len() == 0),
    {
        self.len() == 0
    }

    /// Steps over one byte, most often a delimiter that `read_until` stopped at.
    pub fn skip(&mut self)
        requires
            old(self).wf(),
            old(self)@.len() > 0,
        ensures
            final(self).wf(),
            final(self)@ == old(self)@.drop_first(),
    {
        assert(old(self)@.len() == self.bytes@.len() - self.pos);
        if self.pos < self.bytes.len() {
            self.pos = self.pos + 1;
        }
        assert(self@ =~= old(self)@.drop_first());
    }

    /// The next byte, or `None` where nothing is left.
    pub fn read(&mut self) -> (r: Option<u8>)
        requires
            old(self).wf(),
        ensures
            final(self).wf(),
            old(self)@.len() == 0 ==> r is None && final(self)@ == old(self)@,
            old(self)@.len() > 0 ==> r == Some(old(self)@[0]) && final(self)@
                == old(self)@.drop_first(),
    {
        if self.pos < self.bytes.len() {
            let b = self.bytes[self.pos];
            self.skip();
            Some(b)
        } else {
            None
        }
    }

    /// The next `len` bytes, or `None` where fewer are left (nothing is consumed then).
    pub fn read_n(&mut self, len: usize) -> (r: Option<Vec<u8>>)
        requires
            old(self).wf(),
        ensures
            final(self).wf(),
            len > old(self)@.len() ==> r is None && final(self)@ == old(self)@,
            len <= old(self)@.len() ==> (r matches Some(v) && v@ == old(self)@.subrange(0, len as int))
                && final(self)@ == old(self)@.subrange(len as int, old(self)@.len() as int),
    {
        if len > self.bytes.len() - self.pos {
            return None;
        }
        let end = self.pos + len;
        let v = slice_to_vec(slice_subrange(self.bytes, self.pos, end));
        self.pos = end;
        assert(v@ =~= old(self)@.subrange(0, len as int));
        assert(self@ =~= old(self)@.subrange(len as int, old(self)@.len() as int));
        Some(v)
    }

    /// Everything that is left.
    pub fn read_all(&mut self) -> (r: Vec<u8>)
        requires
            old(self).wf(),
        ensures
            final(self).wf(),
            r@ == old(self)@,
            final(self)@.len() == 0,
    {
        let n = self.len();
        match self.read_n(n) {
            Some(v) => {
                assert(old(self)@.subrange(0, n as int) =~= old(self)@);
                v
            },
            None => Vec::new(),
        }
    }

    /// The bytes before the next `byte`, leaving the reader at that byte; `None`, with
    /// nothing consumed, where `byte` does not occur in what is left.
    pub fn read_until(&mut self, byte: u8) -> (r: Option<Vec<u8>>)
        requires
            old(self).wf(),
        ensures
            final(self).wf(),
            match r {
                Some(v) => v@.len() < old(self)@.len() && old(self)@[v@.len() as int] == byte
                    && !v@.contains(byte) && v@ == old(self)@.subrange(0, v@.len() as int)
                    && final(self)@ == old(self)@.subrange(v@.len() as int, old(self)@.len() as int),
                None => !old(self)@.contains(byte) && final(self)@ == old(self)@,
            },
    {
        let mut i: usize = self.pos;
        while i < self.bytes.len()
            invariant
                self.pos <= i <= self.bytes@.len(),
                *self == *old(self),
                forall|j: int| self.pos <= j < i ==> self.bytes@[j] != byte,
            decreases self.bytes@.len() - i,
        {
            if self.bytes[i] == byte {
                let v = slice_to_vec(slice_subrange(self.bytes, self.pos, i));
                let ghost before = self@;
                self.pos = i;
                assert(v@ =~= before.subrange(0, v@.len() as int));
                assert(self@ =~= before.subrange(v@.len() as int, before.len() as int));
                assert(!v@.contains(byte)) by {
                    if v@.contains(byte) {
                        let k = choose|k: int| 0 <= k < v@.len() && v@[k] == byte;
                        assert(self.bytes@[old(self).pos + k] == byte);
                    }
                }
                return Some(v);
            }
            i = i + 1;
        }
        assert(!old(self)@.contains(byte)) by {
            if old(self)@.contains(byte) {
                let k = choose|k: int| 0 <= k < old(self)@.len() && old(self)@[k] == byte;
                assert(self.bytes@[self.pos + k] == byte);
            }
        }
        None
    }
}

} // verus!
