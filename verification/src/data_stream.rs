use vstd::prelude::*;
use vstd::bytes::*;

verus! {

/// Why a read from a stream failed.
#[derive(Debug, Clone, Copy, PartialEq, Eq, Structural)]
pub enum WireError {
    /// Fewer unread bytes than the value needs.
    UnexpectedEof,
}

/// The compact-size prefix that a length gets when a byte vector is
/// streamed in: one byte below 0xFD, else a marker byte and the length in
/// two, four or eight little-endian bytes.
pub open spec fn compact_size(n: u64) -> Seq<u8> {
    if n < 0xFD {
        seq![n as u8]
    } else if n <= 0xFFFF {
        seq![0xFDu8] + spec_u16_to_le_bytes(n as u16)
    } else if n <= 0xFFFF_FFFF {
        seq![0xFEu8] + spec_u32_to_le_bytes(n as u32)
    } else {
        seq![0xFFu8] + spec_u64_to_le_bytes(n)
    }
}

/// A byte buffer with a read position. Bytes are appended at the end and
/// read from the position on; `size` counts every byte held, read or not.
#[derive(Debug, Clone)]
pub struct DataStream {
    pub data: Vec<u8>,
    pub cursor: usize,
}

impl DataStream {
    /// The read position lies within the data.
    pub open spec fn wf(&self) -> bool {
        self.cursor <= self.data@.len()
    }

    /// The bytes not read yet.
    pub open spec fn unread_spec(&self) -> Seq<u8> {
        self.data@.subrange(self.cursor as int, self.data@.len() as int)
    }

    /// An empty stream.
    pub fn new_empty() -> (s: Self)
        ensures
            s.wf(),
            s.data@ == Seq::<u8>::empty(),
            s.cursor == 0,
    {
        DataStream { data: Vec::new(), cursor: 0 }
    }

    /// A stream over the given bytes, read from the start.
    pub fn new(data: Vec<u8>) -> (s: Self)
        ensures
            s.wf(),
            s.data@ == data@,
            s.cursor == 0,
    {
        DataStream { data, cursor: 0 }
    }

    /// Number of bytes held, read or not.
    pub fn size(&self) -> (n: usize)
        ensures
            n == self.data@.len(),
    {
        self.data.len()
    }

    /// Whether the stream holds no byte.
    pub fn empty(&self) -> (b: bool)
        ensures
            b == (self.data@.len() == 0),
    {
        self.data.len() == 0
    }

    /// Index of the first unread byte.
    pub fn begin_index(&self) -> (i: usize)
        ensures
            i == self.cursor,
    {
        self.cursor
    }

    /// Index one past the last byte.
    pub fn end_index(&self) -> (i: usize)
        ensures
            i == self.data@.len(),
    {
        self.data.len()
    }

    /// Append raw bytes.
    pub fn write(&mut self, bytes: &[u8])
        requires
            old(self).wf(),
        ensures
            final(self).wf(),
            final(self).data@ == old(self).data@ + bytes@,
            final(self).cursor == old(self).cursor,
    {
        let mut i: usize = 0;
        while i < bytes.len()
            invariant
                i <= bytes@.len(),
                self.cursor == old(self).cursor,
                self.data@ == old(self).data@ + bytes@.subrange(0, i as int),
                self.wf(),
            decreases bytes@.len() - i,
        {
            self.data.push(bytes[i]);
            i = i + 1;
            assert(self.data@ =~= old(self).data@ + bytes@.subrange(0, i as int));
        }
        assert(bytes@.subrange(0, bytes@.len() as int) =~= bytes@);
    }
    /// The unread bytes.
    pub fn unread_str(&self) -> (u: &[u8])
        requires
            self.wf(),
        ensures
            u@ == self.unread_spec(),
    {
        vstd::slice::slice_subrange(self.data.as_slice(), self.cursor, self.data.len())
    }

    /// Append a byte vector as a value: its compact-size length, then the
    /// bytes.
    pub fn stream_in_bytes(&mut self, bytes: &[u8])
        requires
            old(self).wf(),
        ensures
            final(self).wf(),
            final(self).data@ == old(self).data@ + compact_size(bytes@.len() as u64) + bytes@,
            final(self).cursor == old(self).cursor,
    {
        let n: u64 = bytes.len() as u64;
        if n < 0xFD {
            let b: u8 = n as u8;
            self.data.push(b);
        } else if n <= 0xFFFF {
            self.data.push(0xFDu8);
            let le = u16_to_le_bytes(n as u16);
            self.write(le.as_slice());
        } else if n <= 0xFFFF_FFFF {
            self.data.push(0xFEu8);
            let le = u32_to_le_bytes(n as u32);
            self.write(le.as_slice());
        } else {
            self.data.push(0xFFu8);
            let le = u64_to_le_bytes(n);
            self.write(le.as_slice());
        }
        assert(self.data@ =~= old(self).data@ + compact_size(n));
        self.write(bytes);
    }

    /// Remove the bytes from `first` up to `last` (or to the end); a range
    /// that does not lie within the data leaves the stream as it is. The read
    /// position keeps pointing at the same unread byte, or at `first` where
    /// that byte was removed.
    pub fn erase(&mut self, first: usize, last: Option<usize>)
        requires
            old(self).wf(),
        ensures
            final(self).wf(),
            ({
                let len = old(self).data@.len();
                let l = match last {
                    Some(l) => l as int,
                    None => len as int,
                };
                let c = old(self).cursor as int;
                if first <= l <= len {
                    &&& final(self).data@ == old(self).data@.subrange(0, first as int)
                        + old(self).data@.subrange(l, len as int)
                    &&& final(self).cursor == if c <= first {
                        c
                    } else if c >= l {
                        c - (l - first)
                    } else {
                        first as int
                    }
                } else {
                    final(self).data@ == old(self).data@ && final(self).cursor == c
                }
            }),
    {
        let len = self.data.len();
        let l: usize = match last {
            Some(l) => l,
            None => len,
        };
        if first <= l && l <= len {
            let mut kept: Vec<u8> = Vec::new();
            let mut i: usize = 0;
            while i < first
                invariant
                    first <= l <= len,
                    len == self.data@.len(),
                    i <= first,
                    kept@ == self.data@.subrange(0, i as int),
                decreases first - i,
            {
                kept.push(self.data[i]);
                i = i + 1;
                assert(kept@ =~= self.data@.subrange(0, i as int));
            }
            let mut j: usize = l;
            while j < len
                invariant
                    first <= l <= j <= len,
                    len == self.data@.len(),
                    kept@ == self.data@.subrange(0, first as int) + self.data@.subrange(
                        l as int,
                        j as int,
                    ),
                decreases len - j,
            {
                kept.push(self.data[j]);
                j = j + 1;
                assert(kept@ =~= self.data@.subrange(0, first as int) + self.data@.subrange(
                    l as int,
                    j as int,
                ));
            }
            let c = self.cursor;
            let new_cursor: usize = if c <= first {
                c
            } else if c >= l {
                c - (l - first)
            } else {
                first
            };
            self.data = kept;
            self.cursor = new_cursor;
        }
    }

    /// Skip `n` unread bytes.
    pub fn ignore(&mut self, n: usize)
        requires
            old(self).wf(),
            n <= old(self).data@.len() - old(self).cursor,
        ensures
            final(self).wf(),
            final(self).data@ == old(self).data@,
            final(self).cursor == old(self).cursor + n,
    {
        proof {
            vstd::std_specs::vec::axiom_spec_len(&self.data);
        }
        self.cursor = self.cursor + n;
    }

    /// Drop the bytes already read.
    pub fn compact(&mut self)
        requires
            old(self).wf(),
        ensures
            final(self).wf(),
            final(self).data@ == old(self).unread_spec(),
            final(self).cursor == 0,
    {
        let c = self.cursor;
        let len = self.data.len();
        self.erase(0, Some(c));
        assert(self.data@ =~= old(self).unread_spec());
    }

    /// Read the next `n` bytes, or fail and read nothing where fewer are
    /// left.
    pub fn read_bytes(&mut self, n: usize) -> (r: Result<Vec<u8>, WireError>)
        requires
            old(self).wf(),
        ensures
            final(self).wf(),
            final(self).data@ == old(self).data@,
            n <= old(self).data@.len() - old(self).cursor ==> r is Ok && final(self).cursor
                == old(self).cursor + n && r->Ok_0@ == old(self).data@.subrange(
                old(self).cursor as int,
                old(self).cursor + n,
            ),
            n > old(self).data@.len() - old(self).cursor ==> r == Err::<Vec<u8>, WireError>(
                WireError::UnexpectedEof,
            ) && final(self).cursor == old(self).cursor,
    {
        if n > self.data.len() - self.cursor {
            return Err(WireError::UnexpectedEof);
        }
        let start = self.cursor;
        let mut out: Vec<u8> = Vec::new();
        let mut i: usize = 0;
        while i < n
            invariant
                self.wf(),
                start == self.cursor,
                n <= self.data@.len() - start,
                self.data@.len() <= usize::MAX,
                i <= n,
                out@ == self.data@.subrange(start as int, start + i),
            decreases n - i,
        {
            out.push(self.data[start + i]);
            i = i + 1;
            assert(out@ =~= self.data@.subrange(start as int, start + i));
        }
        self.cursor = start + n;
        Ok(out)
    }

    /// Read a little-endian `u32`.
    pub fn read_u32(&mut self) -> (r: Result<u32, WireError>)
        requires
            old(self).wf(),
        ensures
            final(self).wf(),
            final(self).data@ == old(self).data@,
            4 <= old(self).data@.len() - old(self).cursor ==> r is Ok && final(self).cursor
                == old(self).cursor + 4 && r->Ok_0 == spec_u32_from_le_bytes(
                old(self).data@.subrange(old(self).cursor as int, old(self).cursor + 4),
            ),
            4 > old(self).data@.len() - old(self).cursor ==> r == Err::<u32, WireError>(
                WireError::UnexpectedEof,
            ) && final(self).cursor == old(self).cursor,
    {
        match self.read_bytes(4) {
            Ok(b) => Ok(u32_from_le_bytes(b.as_slice())),
            Err(e) => Err(e),
        }
    }
}

} // verus!
