use vstd::prelude::*;
use vstd::bytes::*;
use vstd::string::StringSliceAdditionalSpecFns;

pub mod MESSAGE_HEADER_CONFIG;

use self::MESSAGE_HEADER_CONFIG::MESSAGE_START;
use crate::data_stream::{DataStream, WireError};
use vstd::utf8::{valid_utf8, partial_valid_utf8, partial_valid_utf8_extend_ascii_block, is_leading_byte_width_1};

verus! {

/// The magic bytes as a sequence.
pub open spec fn magic() -> Seq<u8> {
    seq![0xFFu8, 0xFFu8, 0xFFu8, 0xF1u8]
}

/// The command field that a command's bytes give: its first twelve bytes,
/// padded with zeros.
pub open spec fn command_field(cmd: Seq<u8>) -> Seq<u8> {
    Seq::new(12, |i: int| if i < cmd.len() { cmd[i] } else { 0u8 })
}

/// Index of the first zero byte of `c` at or after `i`, or the length of `c`
/// where there is none.
pub open spec fn zero_index_from(c: Seq<u8>, i: int) -> int
    decreases c.len() - i,
{
    if i >= c.len() {
        c.len() as int
    } else if c[i] == 0 {
        i
    } else {
        zero_index_from(c, i + 1)
    }
}

/// Length of the name held in a command field: the bytes before its first
/// zero.
pub open spec fn command_len(c: Seq<u8>) -> int {
    zero_index_from(c, 0)
}

/// A command field is well formed when every non-zero byte is printable
/// ASCII and no non-zero byte follows a zero byte.
pub open spec fn valid_command(c: Seq<u8>) -> bool {
    &&& forall|j: int| 0 <= j < c.len() && c[j] != 0 ==> 0x20 <= #[trigger] c[j] <= 0x7E
    &&& forall|j: int, k: int| 0 <= j < k < c.len() && #[trigger] c[j] == 0 ==> #[trigger] c[k] == 0
}

/// A header is valid when it opens with the magic bytes and its command
/// field is well formed.
pub open spec fn header_valid(h: MessageHeader) -> bool {
    h.message_start@ == magic() && valid_command(h.command@)
}

/// The twenty bytes of a header on the wire: magic, command, and the payload
/// size in little-endian order.
pub open spec fn header_bytes(h: MessageHeader) -> Seq<u8> {
    h.message_start@ + h.command@ + spec_u32_to_le_bytes(h.message_size)
}

/// All bytes from `i` on that lie before the first zero are non-zero, so the
/// first zero is found the same from `a` as from `i`.
pub proof fn lemma_zero_index_skip(c: Seq<u8>, a: int, i: int)
    requires
        0 <= a <= i <= c.len(),
        forall|j: int| a <= j < i ==> c[j] != 0,
    ensures
        zero_index_from(c, a) == zero_index_from(c, i),
    decreases i - a,
{
    if a < i {
        lemma_zero_index_skip(c, a + 1, i);
    }
}

/// Every byte is printable ASCII.
pub open spec fn printable(cmd: Seq<u8>) -> bool {
    forall|i: int| 0 <= i < cmd.len() ==> 0x20 <= #[trigger] cmd[i] <= 0x7E
}

/// ASCII bytes are valid UTF-8.
pub proof fn lemma_ascii_valid_utf8(b: Seq<u8>)
    requires
        forall|i: int| 0 <= i < b.len() ==> #[trigger] b[i] <= 0x7F,
    ensures
        valid_utf8(b),
{
    assert(b.subrange(0, 0) =~= Seq::<u8>::empty());
    assert(partial_valid_utf8(b, 0));
    assert forall|i: int| 0 <= 0 <= i < b.len() <= b.len() implies #[trigger] is_leading_byte_width_1(b[i]) by {}
    partial_valid_utf8_extend_ascii_block(b, 0, b.len() as int);
    assert(b.subrange(0, b.len() as int) =~= b);
}

/// A header made from a command of printable ASCII is valid; when the
/// command fits the field, the header gives it back as its command name.
pub proof fn law_printable_command_valid(cmd: Seq<u8>)
    requires
        printable(cmd),
    ensures
        valid_command(command_field(cmd)),
        cmd.len() <= 12 ==> command_len(command_field(cmd)) == cmd.len(),
        cmd.len() <= 12 ==> command_field(cmd).subrange(0, cmd.len() as int) == cmd,
        cmd.len() <= 12 ==> valid_utf8(cmd),
{
    let f = command_field(cmd);
    assert forall|j: int, k: int| 0 <= j < k < f.len() && #[trigger] f[j] == 0 implies #[trigger] f[k] == 0 by {
        if j < cmd.len() {
            assert(0x20 <= cmd[j]);
        }
    }
    if cmd.len() <= 12 {
        assert forall|j: int| 0 <= j < cmd.len() implies f[j] != 0 by {
            assert(0x20 <= cmd[j]);
        }
        lemma_zero_index_skip(f, 0, cmd.len() as int);
        assert(f.subrange(0, cmd.len() as int) =~= cmd);
        lemma_ascii_valid_utf8(cmd);
    }
}

/// The parts of a header's wire bytes.
pub proof fn lemma_header_bytes_parts(h: MessageHeader)
    ensures
        header_bytes(h).len() == 20,
        header_bytes(h).subrange(0, 4) == h.message_start@,
        header_bytes(h).subrange(4, 16) == h.command@,
        header_bytes(h).subrange(16, 20) == spec_u32_to_le_bytes(h.message_size),
        spec_u32_from_le_bytes(header_bytes(h).subrange(16, 20)) == h.message_size,
{
    lemma_auto_spec_u32_to_from_le_bytes();
    let b = header_bytes(h);
    assert(b.subrange(0, 4) =~= h.message_start@);
    assert(b.subrange(4, 16) =~= h.command@);
    assert(b.subrange(16, 20) =~= spec_u32_to_le_bytes(h.message_size));
}

/// A header's wire bytes determine it: the header that `unserialize` or
/// `from_bytes` reads from what `serialize` or `to_bytes` wrote is the header
/// that was written.
pub proof fn law_header_bytes_determine_header(h1: MessageHeader, h2: MessageHeader)
    requires
        header_bytes(h1) == header_bytes(h2),
    ensures
        h1 == h2,
{
    lemma_auto_spec_u32_to_from_le_bytes();
    let b1 = header_bytes(h1);
    let b2 = header_bytes(h2);
    assert(h1.message_start@ =~= b1.subrange(0, 4));
    assert(h2.message_start@ =~= b2.subrange(0, 4));
    assert(h1.command@ =~= b1.subrange(4, 16));
    assert(h2.command@ =~= b2.subrange(4, 16));
    assert(spec_u32_to_le_bytes(h1.message_size) =~= b1.subrange(16, 20));
    assert(spec_u32_to_le_bytes(h2.message_size) =~= b2.subrange(16, 20));
    lemma_auto_spec_u32_to_from_le_bytes();
    assert(h1.message_start =~= h2.message_start);
    assert(h1.command =~= h2.command);
}

/// `std::str::from_utf8`: the bytes as a string slice when they are valid
/// UTF-8, an error otherwise.
#[verifier::external_body]
fn str_from_utf8(v: &[u8]) -> (r: Result<&str, core::str::Utf8Error>)
    ensures
        r is Ok <==> valid_utf8(v@),
        r matches Ok(s) ==> s.spec_bytes() == v@,
{
    core::str::from_utf8(v)
}

#[verifier::external_type_specification]
#[verifier::external_body]
pub struct ExUtf8Error(core::str::Utf8Error);

#[derive(Debug, Clone, PartialEq, Eq)]
pub struct MessageHeader {
    pub message_start: [u8; 4],
    pub command: [u8; 12],
    pub message_size: u32,
}

impl MessageHeader {
    /// Make a header: the command is cut to twelve bytes and padded with
    /// zeros, a missing size is zero.
    pub fn new(command: Option<&str>, message_size: Option<u32>) -> (hdr: Self)
        ensures
            hdr.message_start@ == magic(),
            hdr.command@ == command_field(
                match command {
                    Some(c) => c.spec_bytes(),
                    None => Seq::empty(),
                },
            ),
            hdr.message_size == match message_size {
                Some(s) => s,
                None => 0u32,
            },
    {
        let mut command_array = [0u8; 12];
        let ghost cmd: Seq<u8> = match command {
            Some(c) => c.spec_bytes(),
            None => Seq::empty(),
        };
        if let Some(cmd_str) = command {
            let bytes = cmd_str.as_bytes();
            let len: usize = if bytes.len() < 12 { bytes.len() } else { 12 };
            let mut i: usize = 0;
            while i < len
                invariant
                    len <= 12,
                    len <= bytes@.len(),
                    bytes@ == cmd,
                    i <= len,
                    forall|j: int| 0 <= j < i ==> command_array@[j] == bytes@[j],
                    forall|j: int| i <= j < 12 ==> command_array@[j] == 0u8,
                decreases len - i,
            {
                command_array[i] = bytes[i];
                i = i + 1;
            }
        }
        assert(command_array@ =~= command_field(cmd));
        let hdr = MessageHeader {
            message_start: MESSAGE_START,
            command: command_array,
            message_size: match message_size {
                Some(s) => s,
                None => 0u32,
            },
        };
        assert(hdr.message_start@ =~= magic());
        hdr
    }

    /// The command name: the bytes of the command field before its first
    /// zero, as a string when they are valid UTF-8.
    pub fn command(&self) -> (r: Result<&str, core::str::Utf8Error>)
        ensures
            r is Ok <==> valid_utf8(self.command@.subrange(0, command_len(self.command@))),
            r matches Ok(s) ==> s.spec_bytes() == self.command@.subrange(
                0,
                command_len(self.command@),
            ),
    {
        let mut end: usize = 0;
        while end < 12 && self.command[end] != 0
            invariant
                end <= 12,
                forall|j: int| 0 <= j < end ==> self.command@[j] != 0,
            decreases 12 - end,
        {
            end = end + 1;
        }
        proof {
            lemma_zero_index_skip(self.command@, 0, end as int);
        }
        let slice = vstd::slice::slice_subrange(self.command.as_slice(), 0, end);
        str_from_utf8(slice)
    }

    /// Whether the header opens with the magic bytes and its command field
    /// holds printable ASCII followed only by zeros.
    pub fn is_valid(&self) -> (b: bool)
        ensures
            b == header_valid(*self),
    {
        let mut k: usize = 0;
        while k < 4
            invariant
                k <= 4,
                forall|j: int| 0 <= j < k ==> self.message_start@[j] == magic()[j],
            decreases 4 - k,
        {
            if self.message_start[k] != MESSAGE_START[k] {
                assert(self.message_start@[k as int] != magic()[k as int]);
                return false;
            }
            k = k + 1;
        }
        assert(self.message_start@ =~= magic());
        let ghost c = self.command@;
        let mut i: usize = 0;
        while i < 12
            invariant
                i <= 12,
                c == self.command@,
                self.message_start@ == magic(),
                forall|j: int| 0 <= j < i ==> c[j] != 0 && 0x20 <= c[j] <= 0x7E,
            decreases 12 - i,
        {
            let byte = self.command[i];
            if byte == 0 {
                let mut m: usize = i + 1;
                while m < 12
                    invariant
                        i < m <= 12,
                        c == self.command@,
                        self.message_start@ == magic(),
                        forall|j: int| 0 <= j < i ==> c[j] != 0 && 0x20 <= c[j] <= 0x7E,
                        c[i as int] == 0,
                        forall|j: int| i < j < m ==> c[j] == 0,
                    decreases 12 - m,
                {
                    if self.command[m] != 0 {
                        return false;
                    }
                    m = m + 1;
                }
                assert forall|j: int, k: int| 0 <= j < k < c.len() && #[trigger] c[j] == 0 implies #[trigger] c[k] == 0 by {
                    assert(j >= i);
                }
                assert forall|j: int| 0 <= j < c.len() && c[j] != 0 implies 0x20 <= #[trigger] c[j] <= 0x7E by {
                    assert(j < i);
                }
                assert(valid_command(c));
                return true;
            }
            if !(0x20 <= byte && byte <= 0x7E) {
                return false;
            }
            i = i + 1;
        }
        assert(valid_command(c));
        true
    }

    /// The size of the header's serialized form: magic, command and payload
    /// size.
    pub fn get_serialize_size(&self, _n_type: u32, _n_version: u32) -> (n: usize)
        ensures
            n == 20,
            n == header_bytes(*self).len(),
    {
        proof {
            lemma_header_bytes_parts(*self);
        }
        MESSAGE_HEADER_CONFIG::MESSAGE_HEADER_SIZE
    }

    /// The header's wire bytes.
    pub fn to_bytes(&self) -> (b: Vec<u8>)
        ensures
            b@ == header_bytes(*self),
            b@.len() == 20,
    {
        let mut b: Vec<u8> = Vec::new();
        let mut i: usize = 0;
        while i < 4
            invariant
                i <= 4,
                b@ == self.message_start@.subrange(0, i as int),
            decreases 4 - i,
        {
            b.push(self.message_start[i]);
            i = i + 1;
            assert(b@ =~= self.message_start@.subrange(0, i as int));
        }
        let mut j: usize = 0;
        while j < 12
            invariant
                j <= 12,
                b@ == self.message_start@ + self.command@.subrange(0, j as int),
            decreases 12 - j,
        {
            b.push(self.command[j]);
            j = j + 1;
            assert(b@ =~= self.message_start@ + self.command@.subrange(0, j as int));
        }
        let le = u32_to_le_bytes(self.message_size);
        let mut k: usize = 0;
        while k < 4
            invariant
                k <= 4,
                le@ == spec_u32_to_le_bytes(self.message_size),
                le@.len() == 4,
                b@ == self.message_start@ + self.command@ + le@.subrange(0, k as int),
            decreases 4 - k,
        {
            b.push(le[k]);
            k = k + 1;
            assert(b@ =~= self.message_start@ + self.command@ + le@.subrange(0, k as int));
        }
        assert(b@ =~= header_bytes(*self));
        b
    }

    /// The header that the first twenty bytes hold.
    pub fn from_bytes(b: &[u8]) -> (h: MessageHeader)
        requires
            b@.len() >= 20,
        ensures
            header_bytes(h) == b@.subrange(0, 20),
    {
        let mut start = [0u8; 4];
        let mut i: usize = 0;
        while i < 4
            invariant
                i <= 4,
                b@.len() >= 20,
                forall|j: int| 0 <= j < i ==> start@[j] == b@[j],
            decreases 4 - i,
        {
            start[i] = b[i];
            i = i + 1;
        }
        let mut command = [0u8; 12];
        let mut j: usize = 0;
        while j < 12
            invariant
                j <= 12,
                b@.len() >= 20,
                forall|m: int| 0 <= m < j ==> command@[m] == b@[4 + m],
            decreases 12 - j,
        {
            command[j] = b[4 + j];
            j = j + 1;
        }
        let size_bytes = vstd::slice::slice_subrange(b, 16, 20);
        let size = u32_from_le_bytes(size_bytes);
        let h = MessageHeader { message_start: start, command, message_size: size };
        proof {
            lemma_auto_spec_u32_to_from_le_bytes();
            assert(size_bytes@ =~= b@.subrange(16, 20));
            assert(header_bytes(h) =~= b@.subrange(0, 20));
        }
        h
    }

    /// Append the header's wire bytes to `buf`; this cannot fail.
    pub fn serialize(&self, buf: &mut Vec<u8>, _n_type: u32, _n_version: u32) -> (r: Result<
        (),
        WireError,
    >)
        ensures
            r is Ok,
            final(buf)@ == old(buf)@ + header_bytes(*self),
    {
        let b = self.to_bytes();
        let mut i: usize = 0;
        while i < b.len()
            invariant
                i <= b@.len(),
                buf@ == old(buf)@ + b@.subrange(0, i as int),
            decreases b@.len() - i,
        {
            buf.push(b[i]);
            i = i + 1;
            assert(buf@ =~= old(buf)@ + b@.subrange(0, i as int));
        }
        assert(b@.subrange(0, b@.len() as int) =~= b@);
        Ok(())
    }

    /// Append the header's wire bytes to a stream.
    pub fn stream_in(&self, s: &mut DataStream)
        requires
            old(s).wf(),
        ensures
            final(s).wf(),
            final(s).data@ == old(s).data@ + header_bytes(*self),
            final(s).cursor == old(s).cursor,
    {
        let b = self.to_bytes();
        s.write(b.as_slice());
    }

    /// Read a header from a stream's unread bytes; with fewer than twenty
    /// unread bytes nothing is read.
    pub fn stream_out(s: &mut DataStream) -> (r: Result<MessageHeader, WireError>)
        requires
            old(s).wf(),
        ensures
            final(s).wf(),
            final(s).data@ == old(s).data@,
            old(s).unread_spec().len() >= 20 ==> (r matches Ok(h) && final(s).cursor == old(
                s,
            ).cursor + 20 && header_bytes(h) == old(s).unread_spec().subrange(0, 20)),
            old(s).unread_spec().len() < 20 ==> r is Err && final(s).cursor == old(s).cursor,
    {
        let mut h = MessageHeader::default();
        match h.unserialize(s, 0, 0) {
            Ok(()) => Ok(h),
            Err(e) => Err(e),
        }
    }

    /// Read a header from the stream's unread bytes into `self`; with fewer
    /// than twenty unread bytes nothing is read and `self` is left as it is.
    pub fn unserialize(&mut self, s: &mut DataStream, _n_type: u32, _n_version: u32) -> (r:
        Result<(), WireError>)
        requires
            old(s).wf(),
        ensures
            final(s).wf(),
            final(s).data@ == old(s).data@,
            old(s).unread_spec().len() >= 20 ==> r is Ok && final(s).cursor == old(s).cursor + 20
                && header_bytes(*final(self)) == old(s).unread_spec().subrange(0, 20),
            old(s).unread_spec().len() < 20 ==> r == Err::<(), WireError>(
                WireError::UnexpectedEof,
            ) && final(s).cursor == old(s).cursor && *final(self) == *old(self),
    {
        match s.read_bytes(20) {
            Ok(b) => {
                *self = MessageHeader::from_bytes(b.as_slice());
                assert(b@ =~= old(s).unread_spec().subrange(0, 20));
                Ok(())
            },
            Err(e) => Err(e),
        }
    }
}

} // verus!

verus! {

impl Default for MessageHeader {
    /// The header with the magic bytes, an empty command and a zero size.
    fn default() -> (h: Self)
        ensures
            h.message_start@ == magic(),
            h.command@ == command_field(Seq::empty()),
            h.message_size == 0,
    {
        MessageHeader::new(None, None)
    }
}

} // verus!
