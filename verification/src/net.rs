use vstd::prelude::*;
use vstd::bytes::*;
use vstd::utf8::valid_utf8;
use vstd::string::{StringSliceAdditionalSpecFns, StrSliceExecFns, StringExecFns};

use crate::data_stream::DataStream;
use crate::net_msg_header::{
    command_field, command_len, header_bytes, header_valid, lemma_header_bytes_parts,
    law_printable_command_valid, magic, printable, valid_command, MessageHeader,
};
use crate::node::{frame_header, Node, NodeStats};
use crate::node::COMMANDS;
use crate::net_addr::{Address, SockAddr};
use crate::util::get_time;

verus! {

/// The magic bytes stand in `d` at index `k`.
pub open spec fn magic_at(d: Seq<u8>, k: int) -> bool {
    0 <= k && k + 4 <= d.len() && d.subrange(k, k + 4) == magic()
}

/// The first index at or after `k` where the magic bytes stand, if any.
pub open spec fn find_magic_from(d: Seq<u8>, k: int) -> Option<int>
    decreases d.len() - k,
{
    if k < 0 || k + 4 > d.len() {
        None
    } else if magic_at(d, k) {
        Some(k)
    } else {
        find_magic_from(d, k + 1)
    }
}

/// Where the next message starts in a buffer read up to `c`: the first
/// magic bytes at or after `c`, or the end of the buffer.
pub open spec fn frame_start(d: Seq<u8>, c: int) -> int {
    match find_magic_from(d, c) {
        Some(k) => k,
        None => d.len() as int,
    }
}

/// The buffer after the bytes between the read position and the next magic
/// bytes are dropped.
pub open spec fn drop_garbage(d: Seq<u8>, c: int) -> Seq<u8> {
    d.subrange(0, c) + d.subrange(frame_start(d, c), d.len() as int)
}

/// The buffer when too few bytes follow the next magic bytes for a header:
/// all but the last twenty bytes after the read position are dropped, where
/// there are more than twenty bytes and the read position lies before them.
pub open spec fn trim_short(d: Seq<u8>, c: int) -> Seq<u8> {
    if d.len() > 20 && c <= d.len() - 20 {
        d.subrange(0, c) + d.subrange(d.len() - 20, d.len() as int)
    } else {
        d
    }
}

/// The command bytes of a header's wire bytes are printable ASCII followed
/// only by zeros.
pub open spec fn wire_command_valid(hb: Seq<u8>) -> bool {
    valid_command(hb.subrange(4, 16))
}

/// The name in a header's wire bytes is valid UTF-8.
pub open spec fn wire_command_utf8(hb: Seq<u8>) -> bool {
    let c = hb.subrange(4, 16);
    valid_utf8(c.subrange(0, command_len(c)))
}

/// The payload size in a header's wire bytes.
pub open spec fn wire_size(hb: Seq<u8>) -> int {
    spec_u32_from_le_bytes(hb.subrange(16, 20)) as int
}

/// Whether a buffer holds the start of a frame with a whole header.
pub open spec fn has_header(d: Seq<u8>, c: int) -> bool {
    d.len() > 0 && d.len() - frame_start(d, c) >= 20
}

/// The header bytes of the next frame, once the garbage before it is gone.
pub open spec fn next_header_bytes(d: Seq<u8>, c: int) -> Seq<u8> {
    drop_garbage(d, c).subrange(c, c + 20)
}

/// A header that passes every check announces more payload than the bytes
/// after it, though no more than the whole buffer: taking its payload would
/// read past the end of the buffer.
pub open spec fn payload_overruns(d: Seq<u8>, c: int) -> bool {
    let d1 = drop_garbage(d, c);
    let hb = next_header_bytes(d, c);
    &&& has_header(d, c)
    &&& wire_command_valid(hb)
    &&& wire_command_utf8(hb)
    &&& wire_size(hb) <= d1.len()
    &&& wire_size(hb) > d1.len() - (c + 20)
}

/// What one look at a receive buffer found.
#[derive(Debug)]
pub enum ReceiveOutcome {
    /// The buffer is empty.
    Idle,
    /// No whole header follows the next magic bytes yet.
    NeedMoreData,
    /// The header's command field is malformed; the header was read past.
    InvalidHeader(MessageHeader),
    /// The header's command is not valid UTF-8; the header was read past.
    BadCommand(MessageHeader),
    /// The header announces more payload than the buffer holds; the header
    /// was read past.
    Incomplete(MessageHeader),
    /// A whole message was taken out of the buffer.
    Message(MessageHeader, Vec<u8>),
}


/// Where the magic bytes stand from index `k` on is decided by the bytes
/// from `k` on: an index without them passes the search on.
proof fn lemma_find_magic_skip(d: Seq<u8>, c: int, k: int)
    requires
        0 <= c <= k <= d.len(),
        forall|j: int| c <= j < k ==> !magic_at(d, j),
    ensures
        find_magic_from(d, c) == find_magic_from(d, k),
    decreases k - c,
{
    if c < k {
        lemma_find_magic_skip(d, c + 1, k);
    }
}

/// The search finds an index holding the magic bytes, within the buffer.
proof fn lemma_find_magic_found(d: Seq<u8>, c: int)
    requires
        0 <= c,
    ensures
        find_magic_from(d, c) matches Some(k) ==> c <= k && magic_at(d, k),
    decreases d.len() - c,
{
    if c + 4 <= d.len() && !magic_at(d, c) {
        lemma_find_magic_found(d, c + 1);
    }
}

/// Index of the next magic bytes at or after the read position, or the
/// buffer's length.
fn find_frame_start(s: &DataStream) -> (k: usize)
    requires
        s.wf(),
    ensures
        k == frame_start(s.data@, s.cursor as int),
        s.cursor <= k <= s.data@.len(),
{
    let ghost d = s.data@;
    let ghost c = s.cursor as int;
    let len = s.data.len();
    let mut k = s.cursor;
    while k < len && len - k >= 4
        invariant
            d == s.data@,
            c == s.cursor,
            len == d.len(),
            c <= k <= len,
            forall|j: int| c <= j < k ==> !magic_at(d, j),
        decreases len - k,
    {
        if s.data[k] == 0xFF && s.data[k + 1] == 0xFF && s.data[k + 2] == 0xFF && s.data[k + 3]
            == 0xF1 {
            proof {
                assert(d.subrange(k as int, k + 4) =~= magic());
                lemma_find_magic_skip(d, c, k as int);
            }
            return k;
        }
        proof {
            if magic_at(d, k as int) {
                assert(d.subrange(k as int, k + 4)[0] == d[k as int]);
                assert(d.subrange(k as int, k + 4)[1] == d[k + 1]);
                assert(d.subrange(k as int, k + 4)[2] == d[k + 2]);
                assert(d.subrange(k as int, k + 4)[3] == d[k + 3]);
            }
        }
        k = k + 1;
    }
    proof {
        lemma_find_magic_skip(d, c, k as int);
    }
    len
}

/// What taking the next message out of buffer `d` read up to `c` gives:
/// outcome `r`, and the buffer `d2` read up to `c2`.
pub open spec fn extract_outcome(d: Seq<u8>, c: int, r: ReceiveOutcome, d2: Seq<u8>, c2: int) -> bool {
    let d1 = drop_garbage(d, c);
    let hb = next_header_bytes(d, c);
    if d.len() == 0 {
        r is Idle && d2 == d && c2 == c
    } else if !has_header(d, c) {
        r is NeedMoreData && d2 == trim_short(d, c) && c2 == c
    } else if !wire_command_valid(hb) {
        r matches ReceiveOutcome::InvalidHeader(h) && header_bytes(h) == hb && d2 == d1 && c2 == c
            + 20
    } else if !wire_command_utf8(hb) {
        r matches ReceiveOutcome::BadCommand(h) && header_bytes(h) == hb && d2 == d1 && c2 == c
            + 20
    } else if wire_size(hb) > d1.len() {
        r matches ReceiveOutcome::Incomplete(h) && header_bytes(h) == hb && d2 == d1 && c2 == c
            + 20
    } else {
        r matches ReceiveOutcome::Message(h, p) && header_bytes(h) == hb && p@ == d1.subrange(
            c + 20,
            c + 20 + wire_size(hb),
        ) && d2 == d1.subrange(c + 20 + wire_size(hb), d1.len() as int) && c2 == 0
    }
}

/// Whether taking the next message out of the stream would read past its
/// end (see `payload_overruns`).
pub fn overruns(s: &DataStream) -> (b: bool)
    requires
        s.wf(),
    ensures
        b == payload_overruns(s.data@, s.cursor as int),
{
    let ghost d = s.data@;
    let ghost c = s.cursor as int;
    let len = s.data.len();
    if len == 0 {
        return false;
    }
    let start = find_frame_start(s);
    if len - start < 20 {
        return false;
    }
    proof {
        lemma_find_magic_found(d, c);
    }
    let tail = vstd::slice::slice_subrange(s.data.as_slice(), start, len);
    let hdr = MessageHeader::from_bytes(tail);
    proof {
        let d1 = drop_garbage(d, c);
        assert(d1.subrange(c, c + 20) =~= d.subrange(start as int, start + 20));
        assert(tail@.subrange(0, 20) =~= d.subrange(start as int, start + 20));
        lemma_header_bytes_parts(hdr);
        let hb = next_header_bytes(d, c);
        assert(hb.subrange(0, 4) =~= d.subrange(start as int, start + 4));
        assert(hb.subrange(4, 16) == hdr.command@);
        assert(header_valid(hdr) == wire_command_valid(hb));
    }
    if !hdr.is_valid() {
        return false;
    }
    match hdr.command() {
        Ok(_) => {},
        Err(_) => {
            return false;
        },
    }
    let size = hdr.message_size as usize;
    let len1 = len - (start - s.cursor);
    size <= len1 && size > len1 - (s.cursor + 20)
}

/// Take the next message out of a receive buffer. The buffer's bytes before
/// the next magic bytes are dropped; a whole header there is read past; when
/// its command is well formed and its payload is in the buffer, the payload
/// is taken too and every byte read is dropped.
pub fn extract_message(s: &mut DataStream) -> (r: ReceiveOutcome)
    requires
        old(s).wf(),
        !payload_overruns(old(s).data@, old(s).cursor as int),
    ensures
        final(s).wf(),
        extract_outcome(
            old(s).data@,
            old(s).cursor as int,
            r,
            final(s).data@,
            final(s).cursor as int,
        ),
{
    let ghost d = s.data@;
    let ghost c = s.cursor as int;
    let len = s.size();
    if len == 0 {
        return ReceiveOutcome::Idle;
    }
    let start = find_frame_start(s);
    if len - start < 20 {
        if len > 20 {
            let begin = s.begin_index();
            s.erase(begin, Some(len - 20));
        }
        proof {
            if d.len() > 20 && c <= d.len() - 20 {
                assert(s.data@ =~= trim_short(d, c));
            }
        }
        return ReceiveOutcome::NeedMoreData;
    }
    let begin = s.begin_index();
    if start > begin {
        s.erase(begin, Some(start));
    }
    proof {
        assert(s.data@ =~= drop_garbage(d, c));
        lemma_find_magic_found(d, c);
        assert(s.data@.subrange(c, c + 4) =~= d.subrange(start as int, start + 4));
    }
    let ghost d1 = s.data@;
    let mut hdr = MessageHeader::default();
    let _ = hdr.unserialize(s, 0, 0);
    proof {
        lemma_header_bytes_parts(hdr);
        assert(d1.subrange(c, c + 20) =~= s.data@.subrange(c, s.data@.len() as int).subrange(
            0,
            20,
        ));
        let hb = next_header_bytes(d, c);
        assert(hb.subrange(0, 4) =~= d1.subrange(c, c + 4));
        assert(hb.subrange(4, 16) == hdr.command@);
        assert(header_valid(hdr) == wire_command_valid(hb));
    }
    if !hdr.is_valid() {
        return ReceiveOutcome::InvalidHeader(hdr);
    }
    match hdr.command() {
        Ok(_) => {},
        Err(_) => {
            return ReceiveOutcome::BadCommand(hdr);
        },
    }
    let size = hdr.message_size as usize;
    if size > s.size() {
        return ReceiveOutcome::Incomplete(hdr);
    }
    let payload = match s.read_bytes(size) {
        Ok(p) => p,
        Err(_) => {
            return ReceiveOutcome::Incomplete(hdr);
        },
    };
    let ghost d2 = s.data@;
    s.compact();
    proof {
        assert(payload@ =~= d1.subrange(c + 20, c + 20 + size));
    }
    ReceiveOutcome::Message(hdr, payload)
}


/// A message that `Node::push_message` appends to a send queue (a header
/// with its command and its payload's length, then the payload), received
/// whole into an empty buffer, is what `extract_message` takes out:
/// a header with the same command name and the payload's length as its
/// size, then the same payload, with nothing left in the buffer.
pub proof fn law_framed_message_roundtrip(cmd: Seq<u8>, payload: Seq<u8>)
    requires
        printable(cmd),
        cmd.len() <= 12,
        payload.len() <= u32::MAX,
    ensures
        ({
            let d = frame_header(cmd, payload.len() as u32) + payload;
            let hb = next_header_bytes(d, 0);
            let name = hb.subrange(4, 16);
            &&& has_header(d, 0)
            &&& !payload_overruns(d, 0)
            &&& drop_garbage(d, 0) == d
            &&& hb == frame_header(cmd, payload.len() as u32)
            &&& wire_command_valid(hb)
            &&& wire_command_utf8(hb)
            &&& wire_size(hb) == payload.len()
            &&& wire_size(hb) <= d.len()
            &&& name.subrange(0, command_len(name)) == cmd
            &&& d.subrange(20, 20 + wire_size(hb)) == payload
            &&& d.subrange(20 + wire_size(hb), d.len() as int) == Seq::<u8>::empty()
        }),
{
    lemma_auto_spec_u32_to_from_le_bytes();
    let len = payload.len() as u32;
    let d = frame_header(cmd, len) + payload;
    assert(d.subrange(0, 4) =~= magic());
    assert(magic_at(d, 0));
    assert(frame_start(d, 0) == 0);
    assert(drop_garbage(d, 0) =~= d);
    let hb = next_header_bytes(d, 0);
    assert(hb =~= frame_header(cmd, len));
    assert(hb.subrange(4, 16) =~= command_field(cmd));
    assert(hb.subrange(16, 20) =~= spec_u32_to_le_bytes(len));
    law_printable_command_valid(cmd);
    assert(d.subrange(20, 20 + payload.len() as int) =~= payload);
    assert(d.subrange(20 + payload.len() as int, d.len() as int) =~= Seq::<u8>::empty());
}


/// The view of an address: its socket address, services and last failure
/// time.
pub type AddrView = ((u8, Seq<char>), u32, u64);

/// Index of the first node at or after `k` whose address is `a`, or -1.
pub open spec fn index_of_addr(nodes: Seq<Node>, a: AddrView, k: int) -> int
    decreases nodes.len() - k,
{
    if k < 0 || k >= nodes.len() {
        -1
    } else if nodes[k].peer_addr()@ == a {
        k
    } else {
        index_of_addr(nodes, a, k + 1)
    }
}

/// Some known address has this socket address.
pub open spec fn knows_sock(addrs: Seq<Address>, s: (u8, Seq<char>)) -> bool {
    exists|k: int| 0 <= k < addrs.len() && #[trigger] addrs[k].address@ == s
}

/// A node for a peer that reached us first, holding the bytes of its first
/// message as received.
pub open spec fn fresh_inbound(n: Node, a: AddrView, data: Seq<u8>, now: u64) -> bool {
    &&& n.peer_addr()@ == a
    &&& n.peer_version() == 0
    &&& n.recv_stream().data@ == data
    &&& n.recv_stream().cursor == 0
    &&& n.push_pos() == -1
    &&& n.is_inbound_spec()
    &&& n.sent_hashes() == Seq::<[u8; 32]>::empty()
    &&& n.send_queue_view() == Seq::<u8>::empty()
    &&& n.node_stats() == (NodeStats {
        last_time_send: 0,
        last_time_recv: now,
        total_bytes_send: 0,
        total_bytes_recv: 0,
        last_ping_time: 0,
    })
}

proof fn lemma_index_of_addr_skip(nodes: Seq<Node>, a: AddrView, c: int, k: int)
    requires
        0 <= c <= k <= nodes.len(),
        forall|j: int| c <= j < k ==> nodes[j].peer_addr()@ != a,
    ensures
        index_of_addr(nodes, a, c) == index_of_addr(nodes, a, k),
    decreases k - c,
{
    if c < k {
        lemma_index_of_addr_skip(nodes, a, c + 1, k);
    }
}

/// Whether two strings are the same string.
pub fn str_eq(a: &str, b: &str) -> (r: bool)
    ensures
        r == (a@ == b@),
{
    let x = a.as_bytes();
    let y = b.as_bytes();
    proof {
        vstd::utf8::encode_utf8_decode_utf8(a@);
        vstd::utf8::encode_utf8_decode_utf8(b@);
    }
    if x.len() != y.len() {
        return false;
    }
    let mut i: usize = 0;
    while i < x.len()
        invariant
            x@.len() == y@.len(),
            x@ == a.spec_bytes(),
            y@ == b.spec_bytes(),
            i <= x@.len(),
            forall|j: int| 0 <= j < i ==> x@[j] == y@[j],
        decreases x@.len() - i,
    {
        if x[i] != y[i] {
            proof {
                vstd::utf8::encode_utf8_decode_utf8(a@);
                vstd::utf8::encode_utf8_decode_utf8(b@);
                assert(x@ != y@);
            }
            return false;
        }
        i = i + 1;
    }
    assert(x@ =~= y@);
    true
}

/// The views of a sequence of addresses.
pub open spec fn addr_views(addrs: Seq<Address>) -> Seq<AddrView> {
    addrs.map_values(|a: Address| a@)
}

/// The addresses whose hash is not among `sent`, in order; `hashes[j]` is
/// the hash of `addrs[j]`.
pub open spec fn unsent_addrs(addrs: Seq<AddrView>, hashes: Seq<[u8; 32]>, sent: Seq<[u8; 32]>) -> Seq<
    AddrView,
>
    decreases addrs.len(),
{
    if addrs.len() == 0 {
        Seq::empty()
    } else {
        let prev = unsent_addrs(addrs.drop_last(), hashes.drop_last(), sent);
        if sent.contains(hashes.last()) {
            prev
        } else {
            prev.push(addrs.last())
        }
    }
}

/// The hashes not among `sent`, in order.
pub open spec fn unsent_hashes(hashes: Seq<[u8; 32]>, sent: Seq<[u8; 32]>) -> Seq<[u8; 32]>
    decreases hashes.len(),
{
    if hashes.len() == 0 {
        Seq::empty()
    } else {
        let prev = unsent_hashes(hashes.drop_last(), sent);
        if sent.contains(hashes.last()) {
            prev
        } else {
            prev.push(hashes.last())
        }
    }
}

/// `acc` with each of `items` appended, in order, unless already there.
pub open spec fn append_unique(acc: Seq<[u8; 32]>, items: Seq<[u8; 32]>) -> Seq<[u8; 32]>
    decreases items.len(),
{
    if items.len() == 0 {
        acc
    } else {
        let prev = append_unique(acc, items.drop_last());
        if prev.contains(items.last()) {
            prev
        } else {
            prev.push(items.last())
        }
    }
}

/// The address book after addresses received from a peer are merged in:
/// each, in order, is added unless it is our own address or an address with
/// its socket address is already there.
pub open spec fn merge_received(
    book: Seq<AddrView>,
    local: Option<(u8, Seq<char>)>,
    incoming: Seq<AddrView>,
) -> Seq<AddrView>
    decreases incoming.len(),
{
    if incoming.len() == 0 {
        book
    } else {
        let prev = merge_received(book, local, incoming.drop_last());
        let a = incoming.last();
        if local == Some(a.0) || exists|k: int| 0 <= k < prev.len() && #[trigger] prev[k].0 == a.0 {
            prev
        } else {
            prev.push(a)
        }
    }
}

/// What handling a message changed beyond the node it came from.
pub struct MessageOutcome {
    /// Whether the message was well formed and acted on.
    pub accepted: bool,
    /// An address learned from the peer's handshake, to keep for later runs.
    pub persist: Option<Address>,
    /// Addresses to send back to the peer in a GETADDR message.
    pub reply_addresses: Option<Vec<Address>>,
}

/// Whether two hashes are equal.
fn hash_eq(a: &[u8; 32], b: &[u8; 32]) -> (r: bool)
    ensures
        r == (*a == *b),
{
    let mut k: usize = 0;
    while k < 32
        invariant
            k <= 32,
            forall|j: int| 0 <= j < k ==> a@[j] == b@[j],
        decreases 32 - k,
    {
        if a[k] != b[k] {
            return false;
        }
        k = k + 1;
    }
    assert(*a =~= *b);
    true
}

/// Whether `h` is among `v`.
fn contains_hash(v: &Vec<[u8; 32]>, h: &[u8; 32]) -> (r: bool)
    ensures
        r == v@.contains(*h),
{
    let mut k: usize = 0;
    while k < v.len()
        invariant
            k <= v@.len(),
            forall|j: int| 0 <= j < k ==> v@[j] != *h,
        decreases v@.len() - k,
    {
        if hash_eq(&v[k], h) {
            return true;
        }
        k = k + 1;
    }
    false
}

/// The view of an optional socket address.
pub open spec fn local_view(o: Option<SockAddr>) -> Option<(u8, Seq<char>)> {
    match o {
        Some(l) => Some(l@),
        None => None,
    }
}

/// The addresses kept and their hashes are as many.
proof fn lemma_unsent_same_len(addrs: Seq<AddrView>, hashes: Seq<[u8; 32]>, sent: Seq<[u8; 32]>)
    requires
        addrs.len() == hashes.len(),
    ensures
        unsent_addrs(addrs, hashes, sent).len() == unsent_hashes(hashes, sent).len(),
    decreases addrs.len(),
{
    if addrs.len() > 0 {
        lemma_unsent_same_len(addrs.drop_last(), hashes.drop_last(), sent);
    }
}

/// The addresses whose hash was not sent yet, with their hashes.
fn select_unsent(addrs: &Vec<Address>, hashes: &Vec<[u8; 32]>, sent: &Vec<[u8; 32]>) -> (r: (
    Vec<Address>,
    Vec<[u8; 32]>,
))
    requires
        addrs@.len() == hashes@.len(),
    ensures
        addr_views(r.0@) == unsent_addrs(addr_views(addrs@), hashes@, sent@),
        r.1@ == unsent_hashes(hashes@, sent@),
{
    let mut out: Vec<Address> = Vec::new();
    let mut out_hashes: Vec<[u8; 32]> = Vec::new();
    let mut j: usize = 0;
    while j < addrs.len()
        invariant
            j <= addrs@.len(),
            addrs@.len() == hashes@.len(),
            addr_views(out@) == unsent_addrs(
                addr_views(addrs@).take(j as int),
                hashes@.take(j as int),
                sent@,
            ),
            out_hashes@ == unsent_hashes(hashes@.take(j as int), sent@),
        decreases addrs@.len() - j,
    {
        let ghost prev = out@;
        proof {
            assert(addr_views(addrs@).take(j + 1).drop_last() =~= addr_views(addrs@).take(
                j as int,
            ));
            assert(hashes@.take(j + 1).drop_last() =~= hashes@.take(j as int));
        }
        if !contains_hash(sent, &hashes[j]) {
            out.push(addrs[j].clone_addr());
            out_hashes.push(hashes[j]);
            assert(addr_views(out@) =~= addr_views(prev).push(addrs@[j as int]@));
        }
        j = j + 1;
    }
    assert(addr_views(addrs@).take(addrs@.len() as int) =~= addr_views(addrs@));
    assert(hashes@.take(addrs@.len() as int) =~= hashes@);
    (out, out_hashes)
}

/// Append each hash, in order, unless already there.
fn append_unique_hashes(acc: &mut Vec<[u8; 32]>, items: &Vec<[u8; 32]>)
    ensures
        final(acc)@ == append_unique(old(acc)@, items@),
{
    let mut j: usize = 0;
    while j < items.len()
        invariant
            j <= items@.len(),
            acc@ == append_unique(old(acc)@, items@.take(j as int)),
        decreases items@.len() - j,
    {
        proof {
            assert(items@.take(j + 1).drop_last() =~= items@.take(j as int));
        }
        if !contains_hash(acc, &items[j]) {
            acc.push(items[j]);
        }
        j = j + 1;
    }
    assert(items@.take(items@.len() as int) =~= items@);
}

/// A copy of a list of hashes.
fn copy_hashes(v: &Vec<[u8; 32]>) -> (r: Vec<[u8; 32]>)
    ensures
        r@ == v@,
{
    let mut r: Vec<[u8; 32]> = Vec::new();
    let mut j: usize = 0;
    while j < v.len()
        invariant
            j <= v@.len(),
            r@ == v@.take(j as int),
        decreases v@.len() - j,
    {
        r.push(v[j]);
        j = j + 1;
        assert(r@ =~= v@.take(j as int));
    }
    assert(v@.take(v@.len() as int) =~= v@);
    r
}

/// `b` is `a` with a message of the given command and an empty payload
/// queued.
pub open spec fn empty_message_queued(a: Node, b: Node, cmd: Seq<u8>) -> bool {
    &&& b.send_queue_view() == a.send_queue_view() + frame_header(cmd, 0)
    &&& b.push_pos() == -1
    &&& Node::same_but_send(b, a)
}

/// The effect of handling a message with command `cmd` from node `n`: the
/// node becomes `n2`, the address book `book` becomes `book2`, `read` bytes
/// of the message's unread bytes `unread` are read, and `out` is returned.
/// `hashes` are the hashes of the book's addresses; `received` the addresses
/// that a GETADDR message carried, when they could be read; `reply` the
/// encoded addresses that answer an ADDR message.
pub open spec fn message_effect(
    n: Node,
    n2: Node,
    book: Seq<Address>,
    book2: Seq<Address>,
    local: Option<(u8, Seq<char>)>,
    cmd: Seq<char>,
    unread: Seq<u8>,
    read: int,
    hashes: Seq<[u8; 32]>,
    received: Option<Seq<AddrView>>,
    reply: Seq<u8>,
    out: MessageOutcome,
) -> bool {
    if cmd == COMMANDS::VERSION@ {
        if n.peer_version() != 0 {
            !out.accepted && out.persist is None && out.reply_addresses is None && n2 == n && book2
                == book && read == 0
        } else if unread.len() < 4 {
            !out.accepted && out.persist is None && out.reply_addresses is None && n2 == n && book2
                == book && read == 0
        } else if spec_u32_from_le_bytes(unread.subrange(0, 4)) != 1 {
            !out.accepted && out.persist is None && out.reply_addresses is None && n2 == n && book2
                == book && read == 4
        } else {
            let a: AddrView = (n.peer_addr().address@, n.peer_addr().services, 0u64);
            &&& out.accepted
            &&& out.reply_addresses is None
            &&& read == 4
            &&& n2.peer_version() == 1
            &&& n2.send_queue_view() == n.send_queue_view() + frame_header(
                COMMANDS::VERACK.spec_bytes(),
                0,
            )
            &&& n2.push_pos() == -1
            &&& n2.peer_addr() == n.peer_addr()
            &&& n2.recv_stream() == n.recv_stream()
            &&& n2.is_inbound_spec() == n.is_inbound_spec()
            &&& n2.sent_hashes() == n.sent_hashes()
            &&& n2.node_stats() == n.node_stats()
            &&& if n.peer_addr().is_individual_spec() && !knows_sock(book, a.0) {
                out.persist matches Some(p) && p@ == a && addr_views(book2) == addr_views(
                    book,
                ).push(a)
            } else {
                out.persist is None && book2 == book
            }
        }
    } else if cmd == COMMANDS::VERACK@ {
        &&& out.accepted
        &&& out.persist is None
        &&& out.reply_addresses is None
        &&& n2.peer_version() == 1
        &&& n2.send_queue_view() == n.send_queue_view() + frame_header(
            COMMANDS::ADDR.spec_bytes(),
            0,
        )
        &&& n2.push_pos() == -1
        &&& n2.peer_addr() == n.peer_addr()
        &&& n2.recv_stream() == n.recv_stream()
        &&& n2.is_inbound_spec() == n.is_inbound_spec()
        &&& n2.sent_hashes() == n.sent_hashes()
        &&& n2.node_stats() == n.node_stats()
        &&& book2 == book
        &&& read == 0
    } else if cmd == COMMANDS::ADDR@ {
        &&& out.accepted
        &&& out.persist is None
        &&& out.reply_addresses matches Some(r) && addr_views(r@) == unsent_addrs(
            addr_views(book),
            hashes,
            n.sent_hashes(),
        )
        &&& n2.sent_hashes() == append_unique(
            n.sent_hashes(),
            unsent_hashes(hashes, n.sent_hashes()),
        )
        &&& n2.peer_version() == n.peer_version()
        &&& n2.peer_addr() == n.peer_addr()
        &&& n2.recv_stream() == n.recv_stream()
        &&& if n.send_queue_view().len() + 20 + reply.len() <= i32::MAX {
            &&& n2.send_queue_view() == n.send_queue_view() + frame_header(
                COMMANDS::GETADDR.spec_bytes(),
                reply.len() as u32,
            ) + reply
            &&& n2.push_pos() == -1
        } else {
            &&& n2.send_queue_view() == n.send_queue_view()
            &&& n2.push_pos() == n.push_pos()
        }
        &&& n2.is_inbound_spec() == n.is_inbound_spec()
        &&& n2.node_stats() == n.node_stats()
        &&& book2 == book
        &&& read == 0
    } else if cmd == COMMANDS::GETADDR@ {
        &&& out.persist is None
        &&& out.reply_addresses is None
        &&& n2 == n
        &&& read == 0
        &&& match received {
            None => !out.accepted && book2 == book,
            Some(inc) => out.accepted && addr_views(book2) == merge_received(
                addr_views(book),
                local,
                inc,
            ),
        }
    } else if cmd == COMMANDS::PING@ {
        out.accepted && out.persist is None && out.reply_addresses is None && empty_message_queued(
            n,
            n2,
            COMMANDS::PONG.spec_bytes(),
        ) && book2 == book && read == 0
    } else if cmd == COMMANDS::PONG@ {
        out.accepted && out.persist is None && out.reply_addresses is None && n2 == n && book2
            == book && read == 0
    } else {
        !out.accepted && out.persist is None && out.reply_addresses is None && n2 == n && book2
            == book && read == 0
    }
}

/// `reply` is what `encode` gave for a copy of the addresses that answer an
/// ADDR message.
pub open spec fn encoded_reply<F: Fn(Vec<Address>) -> Vec<u8>>(
    encode: F,
    out: MessageOutcome,
    reply: Seq<u8>,
) -> bool {
    out.reply_addresses matches Some(r) && exists|c: Vec<Address>, bytes: Vec<u8>|
        addr_views(c@) == addr_views(r@) && #[trigger] call_ensures(encode, (c,), bytes) && bytes@
            == reply
}

/// The views of the addresses a GETADDR message carried, if any.
pub open spec fn received_view(o: Option<Vec<Address>>) -> Option<Seq<AddrView>> {
    match o {
        Some(r) => Some(addr_views(r@)),
        None => None,
    }
}

/// A copy of a list of addresses.
fn copy_addresses(v: &Vec<Address>) -> (r: Vec<Address>)
    ensures
        addr_views(r@) == addr_views(v@),
{
    let mut r: Vec<Address> = Vec::new();
    let mut j: usize = 0;
    while j < v.len()
        invariant
            j <= v@.len(),
            addr_views(r@) == addr_views(v@.take(j as int)),
        decreases v@.len() - j,
    {
        let ghost prev = r@;
        r.push(v[j].clone_addr());
        assert(v@.take(j + 1) =~= v@.take(j as int).push(v@[j as int]));
        assert(addr_views(r@) =~= addr_views(prev).push(v@[j as int]@));
        assert(addr_views(v@.take(j + 1)) =~= addr_views(v@.take(j as int)).push(v@[j as int]@));
        j = j + 1;
    }
    assert(v@.take(v@.len() as int) =~= v@);
    r
}

/// The addresses of a sequence of nodes.
pub open spec fn node_views(nodes: Seq<Node>) -> Seq<AddrView> {
    nodes.map_values(|n: Node| n.peer_addr()@)
}

/// Seconds from `t` to `now` on the clock's 64-bit counter, wrapping
/// around where `t` lies after `now`.
pub open spec fn elapsed(now: u64, t: u64) -> int {
    if t <= now {
        now - t
    } else {
        now - t + 0x1_0000_0000_0000_0000
    }
}

/// We try a connection to `a` when no peer has that address, it is not our
/// own, and its last failure, if any, is at least 300 seconds before `now`.
pub open spec fn worth_connecting(
    known: Seq<AddrView>,
    local: Option<(u8, Seq<char>)>,
    a: AddrView,
    now: u64,
) -> bool {
    &&& !known.contains(a)
    &&& local != Some(a.0)
    &&& !(a.2 != 0 && elapsed(now, a.2) < 300)
}

/// The addresses that a round of connecting opens peers for, in order: each
/// known address worth connecting to, given the peers before it.
pub open spec fn connect_plan(
    existing: Seq<AddrView>,
    local: Option<(u8, Seq<char>)>,
    addrs: Seq<AddrView>,
    now: u64,
) -> Seq<AddrView>
    decreases addrs.len(),
{
    if addrs.len() == 0 {
        Seq::empty()
    } else {
        let prev = connect_plan(existing, local, addrs.drop_last(), now);
        if worth_connecting(existing + prev, local, addrs.last(), now) {
            prev.push(addrs.last())
        } else {
            prev
        }
    }
}

/// A node for a peer we connect to, with our VERSION message queued.
pub open spec fn fresh_outbound(n: Node, a: AddrView, now: u64) -> bool {
    &&& n.peer_addr()@ == a
    &&& n.peer_version() == 0
    &&& n.recv_stream().data@ == Seq::<u8>::empty()
    &&& n.recv_stream().cursor == 0
    &&& n.push_pos() == -1
    &&& !n.is_inbound_spec()
    &&& n.sent_hashes() == Seq::<[u8; 32]>::empty()
    &&& n.send_queue_view() == frame_header(COMMANDS::VERSION.spec_bytes(), 4)
        + spec_u32_to_le_bytes(1)
    &&& n.node_stats() == (NodeStats {
        last_time_send: 0,
        last_time_recv: now,
        total_bytes_send: 0,
        total_bytes_recv: 0,
        last_ping_time: 0,
    })
}

/// The peers `after` one round of connecting at time `now` leaves, from the
/// peers `before`: unchanged with ten peers or more, else followed by a
/// fresh outbound peer for each address of the round's plan.
pub open spec fn connect_round(
    before: Seq<Node>,
    local: Option<(u8, Seq<char>)>,
    book: Seq<Address>,
    now: u64,
    after: Seq<Node>,
) -> bool {
    if before.len() >= max_peers() {
        after == before
    } else {
        let plan = connect_plan(node_views(before), local, addr_views(book), now);
        &&& after.len() == before.len() + plan.len()
        &&& after.subrange(0, before.len() as int) == before
        &&& forall|k: int|
            0 <= k < plan.len() ==> fresh_outbound(#[trigger] after[before.len() + k], plan[k], now)
    }
}

/// Peers are only sought while fewer than this many are connected.
pub open spec fn max_peers() -> int {
    10
}

/// The peers `after` bytes `data` arrived at time `now` from address `a`,
/// given the peers `before`: the first peer with that address gets them
/// appended to its receive buffer; without one, a new inbound peer holding
/// them is added.
pub open spec fn receive_effect(
    before: Seq<Node>,
    a: AddrView,
    data: Seq<u8>,
    now: u64,
    after: Seq<Node>,
) -> bool {
    let i = index_of_addr(before, a, 0);
    if i >= 0 {
        &&& after.len() == before.len()
        &&& forall|j: int| 0 <= j < before.len() && j != i ==> after[j] == before[j]
        &&& after[i].recv_stream().data@ == before[i].recv_stream().data@ + data
        &&& after[i].recv_stream().cursor == before[i].recv_stream().cursor
        &&& after[i].node_stats() == (NodeStats { last_time_recv: now, ..before[i].node_stats() })
        &&& after[i].peer_addr() == before[i].peer_addr()
        &&& after[i].peer_version() == before[i].peer_version()
        &&& after[i].send_queue_view() == before[i].send_queue_view()
        &&& after[i].push_pos() == before[i].push_pos()
        &&& after[i].is_inbound_spec() == before[i].is_inbound_spec()
        &&& after[i].sent_hashes() == before[i].sent_hashes()
    } else {
        &&& after.len() == before.len() + 1
        &&& after.subrange(0, before.len() as int) == before
        &&& fresh_inbound(after.last(), a, data, now)
    }
}

/// Peers `states[k]` before the `k`-th of `msgs` arrived at time
/// `times[k]`, and `states[k + 1]` after: each message has its
/// `receive_effect`.
pub open spec fn receive_chain(
    msgs: Seq<(SockAddr, Vec<u8>)>,
    times: Seq<u64>,
    states: Seq<Seq<Node>>,
) -> bool {
    &&& times.len() == msgs.len()
    &&& states.len() == msgs.len() + 1
    &&& forall|k: int|
        0 <= k < msgs.len() ==> receive_effect(
            #[trigger] states[k],
            message_view(msgs[k]).0,
            message_view(msgs[k]).1,
            times[k],
            states[k + 1],
        )
}

/// `n` arrival times, all `now`.
pub open spec fn same_time(n: nat, now: u64) -> Seq<u64> {
    Seq::new(n, |k: int| now)
}

/// A chain of receipts extended by one more message.
proof fn lemma_chain_step(
    msgs: Seq<(SockAddr, Vec<u8>)>,
    m: (SockAddr, Vec<u8>),
    times: Seq<u64>,
    t: u64,
    states: Seq<Seq<Node>>,
    next: Seq<Node>,
)
    requires
        receive_chain(msgs, times, states),
        receive_effect(states.last(), message_view(m).0, message_view(m).1, t, next),
    ensures
        receive_chain(msgs.push(m), times.push(t), states.push(next)),
{
    let msgs2 = msgs.push(m);
    let times2 = times.push(t);
    let states2 = states.push(next);
    assert forall|k: int| 0 <= k < msgs2.len() implies receive_effect(
        #[trigger] states2[k],
        message_view(msgs2[k]).0,
        message_view(msgs2[k]).1,
        times2[k],
        states2[k + 1],
    ) by {
        if k < msgs.len() {
            assert(states2[k] == states[k]);
            assert(states2[k + 1] == states[k + 1]);
            assert(msgs2[k] == msgs[k]);
            assert(times2[k] == times[k]);
        }
    }
}

/// The view of a received message: the address it came from, as an address
/// with no services, and its bytes.
pub open spec fn message_view(m: (SockAddr, Vec<u8>)) -> (AddrView, Seq<u8>) {
    (Address { address: m.0, services: 0, last_failed_time: 0 }@, m.1@)
}

/// The node's state: its peers, the addresses it knows, and its own address.
#[derive(Debug)]
pub struct Network {
    pub nodes: Vec<Node>,
    pub addresses: Vec<Address>,
    pub local_addr: Option<SockAddr>,
}

impl Network {
    /// No peers, no known addresses, no address of our own yet.
    pub fn new() -> (n: Network)
        ensures
            n.nodes@ == Seq::<Node>::empty(),
            n.addresses@ == Seq::<Address>::empty(),
            n.local_addr is None,
    {
        Network { nodes: Vec::new(), addresses: Vec::new(), local_addr: None }
    }

    /// Index of the first peer with exactly this address.
    pub fn find_node(&self, addr: &Address) -> (r: Option<usize>)
        ensures
            r matches Some(i) ==> i == index_of_addr(self.nodes@, addr@, 0),
            r is None ==> index_of_addr(self.nodes@, addr@, 0) == -1,
            r matches Some(i) ==> i < self.nodes@.len() && self.nodes@[i as int].peer_addr()@
                == addr@,
            r is None ==> forall|j: int|
                0 <= j < self.nodes@.len() ==> self.nodes@[j].peer_addr()@ != addr@,
    {
        let mut k: usize = 0;
        while k < self.nodes.len()
            invariant
                k <= self.nodes@.len(),
                forall|j: int| 0 <= j < k ==> self.nodes@[j].peer_addr()@ != addr@,
            decreases self.nodes@.len() - k,
        {
            if self.nodes[k].addr().same_as(addr) {
                proof {
                    lemma_index_of_addr_skip(self.nodes@, addr@, 0, k as int);
                }
                return Some(k);
            }
            k = k + 1;
        }
        proof {
            lemma_index_of_addr_skip(self.nodes@, addr@, 0, k as int);
        }
        None
    }

    /// Whether some known address has this socket address.
    pub fn knows_address(&self, addr: &SockAddr) -> (b: bool)
        ensures
            b == knows_sock(self.addresses@, addr@),
    {
        let mut k: usize = 0;
        while k < self.addresses.len()
            invariant
                k <= self.addresses@.len(),
                forall|j: int| 0 <= j < k ==> self.addresses@[j].address@ != addr@,
            decreases self.addresses@.len() - k,
        {
            if self.addresses[k].address.same_as(addr) {
                return true;
            }
            k = k + 1;
        }
        false
    }

    /// Add a peer address unless one with the same socket address is known;
    /// `true` when it was added, so that it can be kept for later runs.
    pub fn add_peer_address(&mut self, addr: Address) -> (added: bool)
        ensures
            added == !knows_sock(old(self).addresses@, addr.address@),
            added ==> final(self).addresses@ == old(self).addresses@.push(addr),
            !added ==> final(self).addresses@ == old(self).addresses@,
            final(self).nodes@ == old(self).nodes@,
            final(self).local_addr == old(self).local_addr,
    {
        if self.knows_address(&addr.address) {
            false
        } else {
            self.addresses.push(addr);
            true
        }
    }

    /// Messages arrived at time `now`: each, in order, is handed to its
    /// peer as `handle_message_at` does.
    pub fn handle_messages_at(&mut self, messages: Vec<(SockAddr, Vec<u8>)>, now: u64)
        ensures
            final(self).addresses@ == old(self).addresses@,
            final(self).local_addr == old(self).local_addr,
            exists|states: Seq<Seq<Node>>|
                #[trigger] receive_chain(messages@, same_time(messages@.len(), now), states)
                    && states[0] == old(self).nodes@ && states.last() == final(self).nodes@,
    {
        let ghost mut states: Seq<Seq<Node>> = seq![self.nodes@];
        let mut k: usize = 0;
        while k < messages.len()
            invariant
                k <= messages@.len(),
                self.addresses@ == old(self).addresses@,
                self.local_addr == old(self).local_addr,
                receive_chain(messages@.subrange(0, k as int), same_time(k as nat, now), states),
                states[0] == old(self).nodes@,
                states.last() == self.nodes@,
            decreases messages@.len() - k,
        {
            let from = messages[k].0.clone_addr();
            let ghost before = states;
            self.handle_message_at(from, messages[k].1.as_slice(), now);
            proof {
                states = states.push(self.nodes@);
                lemma_chain_step(
                    messages@.subrange(0, k as int),
                    messages@[k as int],
                    same_time(k as nat, now),
                    now,
                    before,
                    self.nodes@,
                );
                assert(messages@.subrange(0, k + 1) == messages@.subrange(0, k as int).push(
                    messages@[k as int],
                ));
                assert(same_time((k + 1) as nat, now) == same_time(k as nat, now).push(now));
            }
            k = k + 1;
        }
        assert(messages@.subrange(0, k as int) == messages@);
    }

    /// Messages arrived: each, in order, is handed to its peer as
    /// `handle_message` does, stamped with the clock as it is handled.
    pub fn handle_messages(&mut self, messages: Vec<(SockAddr, Vec<u8>)>)
        ensures
            final(self).addresses@ == old(self).addresses@,
            final(self).local_addr == old(self).local_addr,
            exists|times: Seq<u64>, states: Seq<Seq<Node>>|
                #[trigger] receive_chain(messages@, times, states) && states[0] == old(
                    self,
                ).nodes@ && states.last() == final(self).nodes@,
    {
        let ghost mut states: Seq<Seq<Node>> = seq![self.nodes@];
        let ghost mut times: Seq<u64> = Seq::empty();
        let mut k: usize = 0;
        while k < messages.len()
            invariant
                k <= messages@.len(),
                self.addresses@ == old(self).addresses@,
                self.local_addr == old(self).local_addr,
                receive_chain(messages@.subrange(0, k as int), times, states),
                states[0] == old(self).nodes@,
                states.last() == self.nodes@,
            decreases messages@.len() - k,
        {
            let from = messages[k].0.clone_addr();
            let ghost before = states;
            let ghost prior = self.nodes@;
            self.handle_message(from, messages[k].1.as_slice());
            proof {
                let m = messages@[k as int];
                let t = choose|t: u64|
                    receive_effect(prior, message_view(m).0, message_view(m).1, t, self.nodes@);
                states = states.push(self.nodes@);
                lemma_chain_step(messages@.subrange(0, k as int), m, times, t, before, self.nodes@);
                times = times.push(t);
                assert(messages@.subrange(0, k + 1) == messages@.subrange(0, k as int).push(m));
            }
            k = k + 1;
        }
        assert(messages@.subrange(0, k as int) == messages@);
    }

    /// Bytes arrived from `from`, stamped with the current time (see
    /// `handle_message_at`).
    pub fn handle_message(&mut self, from: SockAddr, data: &[u8])
        ensures
            final(self).addresses@ == old(self).addresses@,
            final(self).local_addr == old(self).local_addr,
            exists|now: u64|
                receive_effect(
                    old(self).nodes@,
                    Address { address: from, services: 0, last_failed_time: 0 }@,
                    data@,
                    now,
                    final(self).nodes@,
                ),
    {
        let now = get_time();
        self.handle_message_at(from, data, now);
    }

    /// Bytes arrived from `from` at time `now`: a known peer gets them
    /// appended to its receive buffer; otherwise a new inbound peer is added
    /// holding them.
    pub fn handle_message_at(&mut self, from: SockAddr, data: &[u8], now: u64)
        ensures
            final(self).addresses@ == old(self).addresses@,
            final(self).local_addr == old(self).local_addr,
            receive_effect(
                old(self).nodes@,
                Address { address: from, services: 0, last_failed_time: 0 }@,
                data@,
                now,
                final(self).nodes@,
            ),
    {
        let ghost a = Address { address: from, services: 0, last_failed_time: 0 }@;
        let addr = Address::new(from, 0);
        assert(addr@ == a);
        match self.find_node(&addr) {
            Some(i) => {
                let ghost before = self.nodes@;
                let mut node = self.nodes.remove(i);
                node.receive(data, now);
                self.nodes.insert(i, node);
                assert(self.nodes@ =~= before.update(i as int, node));
                assert(index_of_addr(old(self).nodes@, a, 0) == i);
            },
            None => {
                let mut node = Node::new_at(addr, None, now);
                node.receive(data, now);
                self.nodes.push(node);
                assert(self.nodes@.subrange(0, old(self).nodes@.len() as int) =~= old(self).nodes@);
            },
        }
    }

    /// Merge addresses received from a peer into the address book: each, in
    /// order, is added unless it is our own address or its socket address
    /// is already known.
    pub fn merge_received_addresses(&mut self, incoming: Vec<Address>)
        ensures
            addr_views(final(self).addresses@) == merge_received(
                addr_views(old(self).addresses@),
                local_view(old(self).local_addr),
                addr_views(incoming@),
            ),
            final(self).nodes@ == old(self).nodes@,
            final(self).local_addr == old(self).local_addr,
    {
        let mut j: usize = 0;
        while j < incoming.len()
            invariant
                j <= incoming@.len(),
                self.nodes@ == old(self).nodes@,
                self.local_addr == old(self).local_addr,
                addr_views(self.addresses@) == merge_received(
                    addr_views(old(self).addresses@),
                    local_view(old(self).local_addr),
                    addr_views(incoming@).take(j as int),
                ),
            decreases incoming@.len() - j,
        {
            let ghost prev = self.addresses@;
            proof {
                assert(addr_views(incoming@).take(j + 1).drop_last() =~= addr_views(incoming@).take(
                    j as int,
                ));
            }
            let a = &incoming[j];
            let is_local = match &self.local_addr {
                Some(l) => a.address.same_as(l),
                None => false,
            };
            if !is_local {
                let known = self.knows_address(&a.address);
                proof {
                    let pv = addr_views(prev);
                    if known {
                        let k = choose|k: int| 0 <= k < prev.len() && #[trigger] prev[k].address@
                            == a.address@;
                        assert(pv[k].0 == a@.0);
                    } else {
                        assert forall|k: int| 0 <= k < pv.len() implies #[trigger] pv[k].0 != a@.0 by {
                            assert(prev[k].address@ == pv[k].0);
                        }
                    }
                }
                if !known {
                    self.addresses.push(a.clone_addr());
                    assert(addr_views(self.addresses@) =~= addr_views(prev).push(a@));
                }
            }
            j = j + 1;
        }
        assert(addr_views(incoming@).take(incoming@.len() as int) =~= addr_views(incoming@));
    }

    /// Handle a message with command `command` and payload `msg` from peer
    /// `i`. `peer_hashes` are the hashes of the known addresses (read for an
    /// ADDR message); `received` the addresses a GETADDR message carried,
    /// when its payload could be read as such; `encode` turns the addresses
    /// that answer an ADDR message into the payload of the GETADDR reply.
    pub fn process_message<F: Fn(Vec<Address>) -> Vec<u8>>(
        &mut self,
        i: usize,
        command: &str,
        msg: &mut DataStream,
        peer_hashes: &Vec<[u8; 32]>,
        received: Option<Vec<Address>>,
        encode: F,
    ) -> (out: MessageOutcome)
        requires
            forall|v: Vec<Address>| encode.requires((v,)),
            i < old(self).nodes@.len(),
            old(msg).wf(),
            old(self).nodes@[i as int].send_queue_view().len() + 20 <= i32::MAX,
            command@ == COMMANDS::ADDR@ ==> peer_hashes@.len() == old(self).addresses@.len(),
        ensures
            final(msg).wf(),
            final(msg).data@ == old(msg).data@,
            final(self).local_addr == old(self).local_addr,
            final(self).nodes@.len() == old(self).nodes@.len(),
            forall|j: int|
                0 <= j < old(self).nodes@.len() && j != i ==> final(self).nodes@[j]
                    == old(self).nodes@[j],
            exists|reply: Seq<u8>|
                {
                    &&& #[trigger] message_effect(
                        old(self).nodes@[i as int],
                        final(self).nodes@[i as int],
                        old(self).addresses@,
                        final(self).addresses@,
                        local_view(old(self).local_addr),
                        command@,
                        old(msg).unread_spec(),
                        final(msg).cursor - old(msg).cursor,
                        peer_hashes@,
                        received_view(received),
                        reply,
                        out,
                    )
                    &&& out.reply_addresses is Some ==> encoded_reply(encode, out, reply)
                },
            unique_socks(addr_views(old(self).addresses@)) ==> {
                &&& unique_socks(addr_views(final(self).addresses@))
                &&& old(self).addresses@.len() <= final(self).addresses@.len()
                &&& addr_views(final(self).addresses@).subrange(
                    0,
                    old(self).addresses@.len() as int,
                ) == addr_views(old(self).addresses@)
            },
    {
        let ghost mut reply: Seq<u8> = Seq::empty();
        let ghost rv = received_view(received);
        let ghost nodes0 = self.nodes@;
        let mut node = self.nodes.remove(i);
        let ghost n0 = node;
        let out = if str_eq(command, COMMANDS::VERSION) {
            if node.version() != 0 {
                MessageOutcome { accepted: false, persist: None, reply_addresses: None }
            } else {
                match msg.read_u32() {
                    Err(_) => MessageOutcome { accepted: false, persist: None, reply_addresses: None },
                    Ok(version) => {
                        proof {
                            assert(old(msg).unread_spec().subrange(0, 4) =~= old(msg).data@.subrange(
                                old(msg).cursor as int,
                                old(msg).cursor + 4,
                            ));
                        }
                        if version == 1 {
                            node.set_version(version);
                            node.push_message(COMMANDS::VERACK, &[]);
                            proof {
                                assert(n0.send_queue_view().len() + 0 == n0.send_queue_view().len());
                            }
                            let mut persist: Option<Address> = None;
                            if node.is_individual() {
                                let a = Address {
                                    address: node.addr().address.clone_addr(),
                                    services: node.addr().services,
                                    last_failed_time: 0,
                                };
                                let ghost book0 = self.addresses@;
                                let keep = a.clone_addr();
                                if self.add_peer_address(a) {
                                    persist = Some(keep);
                                    assert(addr_views(self.addresses@) =~= addr_views(book0).push(keep@));
                                }
                            }
                            MessageOutcome { accepted: true, persist, reply_addresses: None }
                        } else {
                            MessageOutcome { accepted: false, persist: None, reply_addresses: None }
                        }
                    },
                }
            }
        } else if str_eq(command, COMMANDS::VERACK) {
            node.set_version(1);
            node.push_message(COMMANDS::ADDR, &[]);
            MessageOutcome { accepted: true, persist: None, reply_addresses: None }
        } else if str_eq(command, COMMANDS::ADDR) {
            let sent = copy_hashes(node.already_send_addrs());
            let (new_addrs, new_hashes) = select_unsent(&self.addresses, peer_hashes, &sent);
            if new_addrs.len() > 0 {
                let mut already = copy_hashes(node.already_send_addrs());
                append_unique_hashes(&mut already, &new_hashes);
                node.set_already_send_addrs(already);
            } else {
                proof {
                    assert(new_hashes@.len() == 0) by {
                        lemma_unsent_same_len(addr_views(self.addresses@), peer_hashes@, sent@);
                    }
                    assert(append_unique(sent@, new_hashes@) == sent@);
                }
            }
            let copy = copy_addresses(&new_addrs);
            let ghost copy_ghost = copy;
            let bytes = encode(copy);
            proof {
                reply = bytes@;
                assert(call_ensures(encode, (copy_ghost,), bytes));
            }
            let room: usize = (i32::MAX as usize) - 20 - node.send_queue().len();
            if bytes.len() <= room {
                node.push_message(COMMANDS::GETADDR, bytes.as_slice());
            }
            let out = MessageOutcome {
                accepted: true,
                persist: None,
                reply_addresses: Some(new_addrs),
            };
            proof {
                assert(encoded_reply(encode, out, reply));
            }
            out
        } else if str_eq(command, COMMANDS::GETADDR) {
            match received {
                None => MessageOutcome { accepted: false, persist: None, reply_addresses: None },
                Some(incoming) => {
                    self.merge_received_addresses(incoming);
                    MessageOutcome { accepted: true, persist: None, reply_addresses: None }
                },
            }
        } else if str_eq(command, COMMANDS::PING) {
            node.push_message(COMMANDS::PONG, &[]);
            MessageOutcome { accepted: true, persist: None, reply_addresses: None }
        } else if str_eq(command, COMMANDS::PONG) {
            MessageOutcome { accepted: true, persist: None, reply_addresses: None }
        } else {
            MessageOutcome { accepted: false, persist: None, reply_addresses: None }
        };
        self.nodes.insert(i, node);
        assert(self.nodes@ =~= nodes0.update(i as int, node));
        assert(message_effect(
            old(self).nodes@[i as int],
            self.nodes@[i as int],
            old(self).addresses@,
            self.addresses@,
            local_view(old(self).local_addr),
            command@,
            old(msg).unread_spec(),
            msg.cursor - old(msg).cursor,
            peer_hashes@,
            rv,
            reply,
            out,
        ));
        proof {
            if unique_socks(addr_views(old(self).addresses@)) {
                law_message_keeps_book_unique(
                    old(self).nodes@[i as int],
                    self.nodes@[i as int],
                    old(self).addresses@,
                    self.addresses@,
                    local_view(old(self).local_addr),
                    command@,
                    old(msg).unread_spec(),
                    msg.cursor - old(msg).cursor,
                    peer_hashes@,
                    rv,
                    reply,
                    out,
                );
            }
        }
        out
    }

    /// One round of seeking peers at time `now`: with fewer than ten peers,
    /// open an outbound peer, with its VERSION message queued, for each known
    /// address worth connecting to.
    pub fn open_connections_at(&mut self, now: u64)
        ensures
            final(self).addresses@ == old(self).addresses@,
            final(self).local_addr == old(self).local_addr,
            connect_round(
                old(self).nodes@,
                local_view(old(self).local_addr),
                old(self).addresses@,
                now,
                final(self).nodes@,
            ),
    {
        if self.nodes.len() >= 10 {
            return;
        }
        let ghost n0 = self.nodes@;
        let ghost existing = node_views(n0);
        let ghost local = local_view(self.local_addr);
        let ghost av = addr_views(self.addresses@);
        let mut j: usize = 0;
        while j < self.addresses.len()
            invariant
                j <= self.addresses@.len(),
                self.addresses@ == old(self).addresses@,
                self.local_addr == old(self).local_addr,
                av == addr_views(self.addresses@),
                local == local_view(self.local_addr),
                ({
                    let plan = connect_plan(existing, local, av.take(j as int), now);
                    &&& self.nodes@.len() == n0.len() + plan.len()
                    &&& self.nodes@.subrange(0, n0.len() as int) == n0
                    &&& node_views(self.nodes@) == existing + plan
                    &&& forall|k: int|
                        0 <= k < plan.len() ==> fresh_outbound(
                            #[trigger] self.nodes@[n0.len() + k],
                            plan[k],
                            now,
                        )
                }),
            decreases self.addresses@.len() - j,
        {
            let ghost before = self.nodes@;
            let ghost prev = connect_plan(existing, local, av.take(j as int), now);
            proof {
                assert(av.take(j + 1).drop_last() =~= av.take(j as int));
            }
            let addr = self.addresses[j].clone_addr();
            let connected = match self.find_node(&addr) {
                Some(_) => true,
                None => false,
            };
            let is_local = match &self.local_addr {
                Some(l) => addr.address.same_as(l),
                None => false,
            };
            let recently_failed = addr.last_failed_time != 0 && now.wrapping_sub(
                addr.last_failed_time,
            ) < 300;
            proof {
                let nv = node_views(before);
                assert(av[j as int] == addr@);
                if connected {
                    let i = choose|i: int| 0 <= i < before.len() && before[i].peer_addr()@ == addr@;
                    assert(nv[i] == addr@);
                } else {
                    assert forall|i: int| 0 <= i < nv.len() implies nv[i] != addr@ by {
                        assert(nv[i] == before[i].peer_addr()@);
                    }
                }
                assert(connected == nv.contains(addr@));
            }
            if !connected && !is_local && !recently_failed {
                let node = Node::new_at(addr, Some(true), now);
                self.nodes.push(node);
                proof {
                    assert(node_views(self.nodes@) =~= node_views(before).push(node.peer_addr()@));
                    assert(self.nodes@.subrange(0, n0.len() as int) =~= before.subrange(
                        0,
                        n0.len() as int,
                    ));
                }
            }
            j = j + 1;
        }
        proof {
            assert(av.take(self.addresses@.len() as int) =~= av);
        }
    }

    /// One round of seeking peers, with the clock's reading as the time.
    pub fn open_connections(&mut self)
        ensures
            final(self).addresses@ == old(self).addresses@,
            final(self).local_addr == old(self).local_addr,
            exists|now: u64|
                #[trigger] connect_round(
                    old(self).nodes@,
                    local_view(old(self).local_addr),
                    old(self).addresses@,
                    now,
                    final(self).nodes@,
                ),
    {
        let now = get_time();
        self.open_connections_at(now);
    }

    /// One round of asking peers for addresses: with fewer than ten peers,
    /// queue an ADDR message for each peer that finished the handshake.
    pub fn request_peer_addresses(&mut self)
        requires
            forall|i: int|
                0 <= i < old(self).nodes@.len() ==> #[trigger] old(self).nodes@[i].send_queue_view().len()
                    + 20 <= i32::MAX,
        ensures
            final(self).addresses@ == old(self).addresses@,
            final(self).local_addr == old(self).local_addr,
            final(self).nodes@.len() == old(self).nodes@.len(),
            old(self).nodes@.len() >= max_peers() ==> final(self).nodes@ == old(self).nodes@,
            old(self).nodes@.len() < max_peers() ==> forall|i: int|
                0 <= i < old(self).nodes@.len() ==> if old(self).nodes@[i].peer_version() == 0 {
                    #[trigger] final(self).nodes@[i] == old(self).nodes@[i]
                } else {
                    empty_message_queued(
                        old(self).nodes@[i],
                        final(self).nodes@[i],
                        COMMANDS::ADDR.spec_bytes(),
                    )
                },
    {
        let n = self.nodes.len();
        if n >= 10 {
            return;
        }
        let mut i: usize = 0;
        while i < n
            invariant
                i <= n,
                n == old(self).nodes@.len(),
                self.nodes@.len() == n,
                self.addresses@ == old(self).addresses@,
                self.local_addr == old(self).local_addr,
                forall|j: int| i <= j < n ==> #[trigger] self.nodes@[j] == old(self).nodes@[j],
                forall|j: int|
                    0 <= j < n ==> #[trigger] old(self).nodes@[j].send_queue_view().len() + 20
                        <= i32::MAX,
                forall|j: int|
                    0 <= j < i ==> if old(self).nodes@[j].peer_version() == 0 {
                        #[trigger] self.nodes@[j] == old(self).nodes@[j]
                    } else {
                        empty_message_queued(
                            old(self).nodes@[j],
                            self.nodes@[j],
                            COMMANDS::ADDR.spec_bytes(),
                        )
                    },
            decreases n - i,
        {
            let ghost before = self.nodes@;
            if self.nodes[i].version() != 0 {
                let mut node = self.nodes.remove(i);
                node.push_message(COMMANDS::ADDR, &[]);
                self.nodes.insert(i, node);
                assert(self.nodes@ =~= before.update(i as int, node));
            }
            i = i + 1;
        }
    }

    /// Take the next message out of peer `i`'s receive buffer (see
    /// `extract_message`).
    pub fn receive_next(&mut self, i: usize) -> (r: ReceiveOutcome)
        requires
            i < old(self).nodes@.len(),
            !payload_overruns(
                old(self).nodes@[i as int].recv_stream().data@,
                old(self).nodes@[i as int].recv_stream().cursor as int,
            ),
        ensures
            final(self).addresses@ == old(self).addresses@,
            final(self).local_addr == old(self).local_addr,
            final(self).nodes@.len() == old(self).nodes@.len(),
            forall|j: int|
                0 <= j < old(self).nodes@.len() && j != i ==> final(self).nodes@[j]
                    == old(self).nodes@[j],
            extract_outcome(
                old(self).nodes@[i as int].recv_stream().data@,
                old(self).nodes@[i as int].recv_stream().cursor as int,
                r,
                final(self).nodes@[i as int].recv_stream().data@,
                final(self).nodes@[i as int].recv_stream().cursor as int,
            ),
            ({
                let a = old(self).nodes@[i as int];
                let b = final(self).nodes@[i as int];
                &&& b.peer_version() == a.peer_version()
                &&& b.peer_addr() == a.peer_addr()
                &&& b.send_queue_view() == a.send_queue_view()
                &&& b.push_pos() == a.push_pos()
                &&& b.is_inbound_spec() == a.is_inbound_spec()
                &&& b.sent_hashes() == a.sent_hashes()
                &&& b.node_stats() == a.node_stats()
            }),
    {
        let ghost before = self.nodes@;
        let mut node = self.nodes.remove(i);
        let r = node.take_message();
        self.nodes.insert(i, node);
        assert(self.nodes@ =~= before.update(i as int, node));
        r
    }

    /// Replace the known addresses, as when they are loaded at start.
    pub fn set_addresses(&mut self, addrs: Vec<Address>)
        ensures
            final(self).addresses@ == addrs@,
            final(self).nodes@ == old(self).nodes@,
            final(self).local_addr == old(self).local_addr,
    {
        self.addresses = addrs;
    }

    /// Forget every peer and every known address, as when the node stops.
    pub fn clear(&mut self)
        ensures
            final(self).nodes@ == Seq::<Node>::empty(),
            final(self).addresses@ == Seq::<Address>::empty(),
            final(self).local_addr == old(self).local_addr,
    {
        self.nodes = Vec::new();
        self.addresses = Vec::new();
    }
}


/// A Unicode `White_Space` character, the whitespace that `str::trim`
/// removes.
pub open spec fn is_ws(c: char) -> bool {
    let u = c as u32;
    (0x09 <= u <= 0x0D) || u == 0x20 || u == 0x85 || u == 0xA0 || u == 0x1680 || (0x2000 <= u
        <= 0x200A) || u == 0x2028 || u == 0x2029 || u == 0x202F || u == 0x205F || u == 0x3000
}

/// Whether a character is Unicode whitespace.
pub fn is_whitespace(c: char) -> (b: bool)
    ensures
        b == is_ws(c),
{
    let u = c as u32;
    (0x09 <= u && u <= 0x0D) || u == 0x20 || u == 0x85 || u == 0xA0 || u == 0x1680 || (0x2000
        <= u && u <= 0x200A) || u == 0x2028 || u == 0x2029 || u == 0x202F || u == 0x205F || u
        == 0x3000
}

/// The characters with leading whitespace removed.
pub open spec fn trim_start(s: Seq<char>) -> Seq<char>
    decreases s.len(),
{
    if s.len() > 0 && is_ws(s[0]) {
        trim_start(s.drop_first())
    } else {
        s
    }
}

/// The characters with trailing whitespace removed.
pub open spec fn trim_end(s: Seq<char>) -> Seq<char>
    decreases s.len(),
{
    if s.len() > 0 && is_ws(s.last()) {
        trim_end(s.drop_last())
    } else {
        s
    }
}

/// The characters with leading and trailing whitespace removed.
pub open spec fn trim(s: Seq<char>) -> Seq<char> {
    trim_end(trim_start(s))
}

/// Splitting at line feeds: the finished lines and the line being read.
pub open spec fn split_acc(cs: Seq<char>) -> (Seq<Seq<char>>, Seq<char>)
    decreases cs.len(),
{
    if cs.len() == 0 {
        (Seq::empty(), Seq::empty())
    } else {
        let (done, cur) = split_acc(cs.drop_last());
        if cs.last() == '\n' {
            (done.push(cur), Seq::empty())
        } else {
            (done, cur.push(cs.last()))
        }
    }
}

/// The pieces of `cs` between line feeds.
pub open spec fn split_lines(cs: Seq<char>) -> Seq<Seq<char>> {
    split_acc(cs).0.push(split_acc(cs).1)
}

/// The trimmed lines that are not empty, in order.
pub open spec fn nonempty_trimmed(lines: Seq<Seq<char>>) -> Seq<Seq<char>>
    decreases lines.len(),
{
    if lines.len() == 0 {
        Seq::empty()
    } else {
        let prev = nonempty_trimmed(lines.drop_last());
        if trim(lines.last()).len() == 0 {
            prev
        } else {
            prev.push(trim(lines.last()))
        }
    }
}

/// The address lines of an address file: every line, trimmed, that is not
/// empty.
pub open spec fn address_lines(cs: Seq<char>) -> Seq<Seq<char>> {
    nonempty_trimmed(split_lines(cs))
}

proof fn lemma_trim_start_skip(s: Seq<char>, a: int)
    requires
        0 <= a <= s.len(),
        forall|j: int| 0 <= j < a ==> is_ws(s[j]),
    ensures
        trim_start(s) == trim_start(s.subrange(a, s.len() as int)),
    decreases a,
{
    if a > 0 {
        assert(s.drop_first().subrange(a - 1, s.drop_first().len() as int) =~= s.subrange(
            a,
            s.len() as int,
        ));
        lemma_trim_start_skip(s.drop_first(), a - 1);
    } else {
        assert(s.subrange(0, s.len() as int) =~= s);
    }
}

proof fn lemma_trim_end_skip(s: Seq<char>, b: int)
    requires
        0 <= b <= s.len(),
        forall|j: int| b <= j < s.len() ==> is_ws(s[j]),
    ensures
        trim_end(s) == trim_end(s.subrange(0, b)),
    decreases s.len() - b,
{
    if b < s.len() {
        assert(s.drop_last().subrange(0, b) =~= s.subrange(0, b));
        lemma_trim_end_skip(s.drop_last(), b);
    } else {
        assert(s.subrange(0, b) =~= s);
    }
}

/// The string with leading and trailing whitespace removed.
pub fn trim_str(s: &str) -> (r: &str)
    ensures
        r@ == trim(s@),
{
    let n = s.unicode_len();
    let mut a: usize = 0;
    while a < n && is_whitespace(s.get_char(a))
        invariant
            n == s@.len(),
            a <= n,
            forall|j: int| 0 <= j < a ==> is_ws(s@[j]),
        decreases n - a,
    {
        a = a + 1;
    }
    let mut b: usize = n;
    while b > a && is_whitespace(s.get_char(b - 1))
        invariant
            n == s@.len(),
            a <= b <= n,
            forall|j: int| b <= j < n ==> is_ws(s@[j]),
        decreases b - a,
    {
        b = b - 1;
    }
    let r = s.substring_char(a, b);
    proof {
        let t = s@.subrange(a as int, n as int);
        lemma_trim_start_skip(s@, a as int);
        assert(trim_start(t) == t) by {
            if a < n {
                assert(!is_ws(t[0]));
            }
        }
        assert forall|j: int| (b - a) <= j < t.len() implies is_ws(t[j]) by {
            assert(t[j] == s@[a + j]);
        }
        lemma_trim_end_skip(t, (b - a) as int);
        let u = t.subrange(0, (b - a) as int);
        assert(u =~= s@.subrange(a as int, b as int));
        assert(trim_end(u) == u) by {
            if b > a {
                assert(u.last() == s@[b - 1]);
            }
        }
    }
    r
}

/// The lines of an address file's text: each line with surrounding
/// whitespace removed, empty lines left out.
pub fn parse_address_lines(contents: &str) -> (lines: Vec<String>)
    ensures
        lines@.map_values(|l: String| l@) == address_lines(contents@),
{
    let n = contents.unicode_len();
    let mut out: Vec<String> = Vec::new();
    let mut start: usize = 0;
    let mut i: usize = 0;
    while i < n
        invariant
            n == contents@.len(),
            start <= i <= n,
            split_acc(contents@.take(i as int)).1 == contents@.subrange(start as int, i as int),
            out@.map_values(|l: String| l@) == nonempty_trimmed(
                split_acc(contents@.take(i as int)).0,
            ),
        decreases n - i,
    {
        let c = contents.get_char(i);
        let ghost cs = contents@.take(i + 1);
        proof {
            assert(cs.drop_last() =~= contents@.take(i as int));
            assert(cs.last() == c);
        }
        let ghost done0 = split_acc(contents@.take(i as int)).0;
        let ghost cur0 = split_acc(contents@.take(i as int)).1;
        if c == '\n' {
            let line = contents.substring_char(start, i);
            let t = trim_str(line);
            let ghost prev = out@;
            proof {
                assert(split_acc(cs).0 == done0.push(cur0));
                assert(done0.push(cur0).drop_last() =~= done0);
                assert(line@ == cur0);
            }
            if t.unicode_len() > 0 {
                out.push(String::from_str(t));
                assert(out@.map_values(|l: String| l@) =~= prev.map_values(|l: String| l@).push(
                    t@,
                ));
            }
            start = i + 1;
            assert(contents@.subrange(start as int, i + 1) =~= Seq::<char>::empty());
        } else {
            assert(contents@.subrange(start as int, i + 1) =~= contents@.subrange(
                start as int,
                i as int,
            ).push(c));
        }
        i = i + 1;
    }
    let line = contents.substring_char(start, n);
    let t = trim_str(line);
    let ghost prev = out@;
    proof {
        assert(contents@.take(n as int) =~= contents@);
        let done0 = split_acc(contents@).0;
        let cur0 = split_acc(contents@).1;
        assert(done0.push(cur0).drop_last() =~= done0);
        assert(line@ == cur0);
    }
    if t.unicode_len() > 0 {
        out.push(String::from_str(t));
        assert(out@.map_values(|l: String| l@) =~= prev.map_values(|l: String| l@).push(t@));
    }
    out
}


/// No two addresses share a socket address.
pub open spec fn unique_socks(book: Seq<AddrView>) -> bool {
    forall|j: int, k: int| 0 <= j < k < book.len() ==> #[trigger] book[j].0 != #[trigger] book[k].0
}

/// A handshake is accepted once: after a VERSION message was accepted from
/// a peer, another VERSION message from it is refused and changes nothing.
pub proof fn law_version_accepted_once(
    n: Node,
    n2: Node,
    n3: Node,
    book: Seq<Address>,
    book2: Seq<Address>,
    book3: Seq<Address>,
    local: Option<(u8, Seq<char>)>,
    unread: Seq<u8>,
    unread2: Seq<u8>,
    read: int,
    read2: int,
    hashes: Seq<[u8; 32]>,
    received: Option<Seq<AddrView>>,
    reply: Seq<u8>,
    reply2: Seq<u8>,
    out: MessageOutcome,
    out2: MessageOutcome,
)
    requires
        message_effect(n, n2, book, book2, local, COMMANDS::VERSION@, unread, read, hashes, received, reply, out),
        out.accepted,
        message_effect(n2, n3, book2, book3, local, COMMANDS::VERSION@, unread2, read2, hashes, received, reply2, out2),
    ensures
        n2.peer_version() == 1,
        !out2.accepted,
        n3 == n2,
        book3 == book2,
{
}

proof fn lemma_append_unique_contains(acc: Seq<[u8; 32]>, items: Seq<[u8; 32]>, h: [u8; 32])
    requires
        acc.contains(h) || items.contains(h),
    ensures
        append_unique(acc, items).contains(h),
    decreases items.len(),
{
    if items.len() > 0 {
        let prev = append_unique(acc, items.drop_last());
        if acc.contains(h) || items.drop_last().contains(h) {
            lemma_append_unique_contains(acc, items.drop_last(), h);
        } else {
            assert(items.last() == h) by {
                let k = choose|k: int| 0 <= k < items.len() && items[k] == h;
                if k < items.len() - 1 {
                    assert(items.drop_last()[k] == h);
                }
            }
        }
        if !prev.contains(items.last()) {
            assert(prev.push(items.last())[prev.len() as int] == items.last());
            if prev.contains(h) {
                let k = choose|k: int| 0 <= k < prev.len() && prev[k] == h;
                assert(prev.push(items.last())[k] == h);
            }
        }
    }
}

proof fn lemma_unsent_all_sent(addrs: Seq<AddrView>, hashes: Seq<[u8; 32]>, sent: Seq<[u8; 32]>)
    requires
        addrs.len() == hashes.len(),
        forall|k: int| 0 <= k < hashes.len() ==> sent.contains(#[trigger] hashes[k]),
    ensures
        unsent_addrs(addrs, hashes, sent) == Seq::<AddrView>::empty(),
    decreases addrs.len(),
{
    if addrs.len() > 0 {
        assert(sent.contains(hashes[hashes.len() - 1]));
        assert forall|k: int| 0 <= k < hashes.drop_last().len() implies sent.contains(
            #[trigger] hashes.drop_last()[k],
        ) by {
            assert(hashes.drop_last()[k] == hashes[k]);
        }
        lemma_unsent_all_sent(addrs.drop_last(), hashes.drop_last(), sent);
    }
}

/// An address is sent to a peer once: after an ADDR message from a peer was
/// answered, another ADDR message from it, with the same addresses known,
/// is answered with none.
pub proof fn law_addresses_sent_once(
    n: Node,
    n2: Node,
    n3: Node,
    book: Seq<Address>,
    book2: Seq<Address>,
    book3: Seq<Address>,
    local: Option<(u8, Seq<char>)>,
    unread: Seq<u8>,
    unread2: Seq<u8>,
    read: int,
    read2: int,
    hashes: Seq<[u8; 32]>,
    received: Option<Seq<AddrView>>,
    reply: Seq<u8>,
    reply2: Seq<u8>,
    out: MessageOutcome,
    out2: MessageOutcome,
)
    requires
        hashes.len() == book.len(),
        message_effect(n, n2, book, book2, local, COMMANDS::ADDR@, unread, read, hashes, received, reply, out),
        message_effect(n2, n3, book2, book3, local, COMMANDS::ADDR@, unread2, read2, hashes, received, reply2, out2),
    ensures
        out2.reply_addresses matches Some(r) && r@.len() == 0,
{
    reveal_strlit("VERSION");
    reveal_strlit("VERACK");
    reveal_strlit("ADDR");
    assert(COMMANDS::ADDR@ == "ADDR"@);
    assert(COMMANDS::VERSION@ == "VERSION"@);
    assert(COMMANDS::VERACK@ == "VERACK"@);
    assert("ADDR"@.len() == 4);
    assert(COMMANDS::ADDR@ != COMMANDS::VERSION@);
    assert(COMMANDS::ADDR@ != COMMANDS::VERACK@);
    let sent = n.sent_hashes();
    let new_hashes = unsent_hashes(hashes, sent);
    assert forall|k: int| 0 <= k < hashes.len() implies n2.sent_hashes().contains(
        #[trigger] hashes[k],
    ) by {
        let h = hashes[k];
        if !sent.contains(h) {
            lemma_unsent_hashes_complete(hashes, sent, k);
        }
        lemma_append_unique_contains(sent, new_hashes, h);
    }
    lemma_unsent_all_sent(addr_views(book2), hashes, n2.sent_hashes());
    let r = out2.reply_addresses->Some_0;
    assert(addr_views(r@).len() == 0);
}

proof fn lemma_unsent_hashes_complete(hashes: Seq<[u8; 32]>, sent: Seq<[u8; 32]>, k: int)
    requires
        0 <= k < hashes.len(),
        !sent.contains(hashes[k]),
    ensures
        unsent_hashes(hashes, sent).contains(hashes[k]),
    decreases hashes.len(),
{
    let prev = unsent_hashes(hashes.drop_last(), sent);
    if k < hashes.len() - 1 {
        assert(hashes.drop_last()[k] == hashes[k]);
        lemma_unsent_hashes_complete(hashes.drop_last(), sent, k);
        if !sent.contains(hashes.last()) {
            let j = choose|j: int| 0 <= j < prev.len() && prev[j] == hashes[k];
            assert(prev.push(hashes.last())[j] == hashes[k]);
        }
    } else {
        assert(prev.push(hashes.last())[prev.len() as int] == hashes[k]);
    }
}

/// Merging received addresses keeps the book free of repeated socket
/// addresses, only appends to it, and adds no address of our own.
pub proof fn law_merge_keeps_book_unique(
    book: Seq<AddrView>,
    local: Option<(u8, Seq<char>)>,
    incoming: Seq<AddrView>,
)
    requires
        unique_socks(book),
    ensures
        unique_socks(merge_received(book, local, incoming)),
        (forall|k: int| 0 <= k < book.len() ==> local != Some(#[trigger] book[k].0)) ==> forall|
            k: int,
        |
            0 <= k < merge_received(book, local, incoming).len() ==> local != Some(
                #[trigger] merge_received(book, local, incoming)[k].0,
            ),
        book.len() <= merge_received(book, local, incoming).len(),
        merge_received(book, local, incoming).subrange(0, book.len() as int) == book,
    decreases incoming.len(),
{
    if incoming.len() == 0 {
        assert(book.subrange(0, book.len() as int) =~= book);
    } else {
        law_merge_keeps_book_unique(book, local, incoming.drop_last());
        let prev = merge_received(book, local, incoming.drop_last());
        let a = incoming.last();
        if !(local == Some(a.0) || exists|k: int| 0 <= k < prev.len() && #[trigger] prev[k].0 == a.0) {
            let m = prev.push(a);
            assert forall|j: int, k: int| 0 <= j < k < m.len() implies #[trigger] m[j].0 != #[trigger] m[k].0 by {
                if k == prev.len() {
                    assert(m[j] == prev[j]);
                }
            }
            assert(m.subrange(0, book.len() as int) =~= prev.subrange(0, book.len() as int));
        }
    }
}

/// Handling any message keeps the address book free of repeated socket
/// addresses, and only ever appends to it.
pub proof fn law_message_keeps_book_unique(
    n: Node,
    n2: Node,
    book: Seq<Address>,
    book2: Seq<Address>,
    local: Option<(u8, Seq<char>)>,
    cmd: Seq<char>,
    unread: Seq<u8>,
    read: int,
    hashes: Seq<[u8; 32]>,
    received: Option<Seq<AddrView>>,
    reply: Seq<u8>,
    out: MessageOutcome,
)
    requires
        message_effect(n, n2, book, book2, local, cmd, unread, read, hashes, received, reply, out),
        unique_socks(addr_views(book)),
    ensures
        unique_socks(addr_views(book2)),
        book.len() <= book2.len(),
        addr_views(book2).subrange(0, book.len() as int) == addr_views(book),
{
    let v = addr_views(book);
    let v2 = addr_views(book2);
    if book2 == book {
        assert(v.subrange(0, book.len() as int) =~= v);
    } else if cmd == COMMANDS::VERSION@ {
        let a: AddrView = (n.peer_addr().address@, n.peer_addr().services, 0u64);
        assert(v2 == v.push(a));
        assert forall|j: int, k: int| 0 <= j < k < v2.len() implies #[trigger] v2[j].0
            != #[trigger] v2[k].0 by {
            if k == v.len() {
                assert(v2[j] == v[j]);
                assert(v[j] == book[j]@);
            }
        }
        assert(v2.subrange(0, book.len() as int) =~= v);
    } else {
        match received {
            Some(inc) => {
                law_merge_keeps_book_unique(v, local, inc);
            },
            None => {},
        }
    }
}

/// A round of connecting opens no peer for our own address, none for an
/// address already connected, and none twice.
pub proof fn law_connect_plan_fresh(
    existing: Seq<AddrView>,
    local: Option<(u8, Seq<char>)>,
    addrs: Seq<AddrView>,
    now: u64,
)
    ensures
        ({
            let plan = connect_plan(existing, local, addrs, now);
            &&& forall|k: int| 0 <= k < plan.len() ==> local != Some(#[trigger] plan[k].0)
            &&& forall|k: int| 0 <= k < plan.len() ==> !existing.contains(#[trigger] plan[k])
            &&& forall|j: int, k: int| 0 <= j < k < plan.len() ==> #[trigger] plan[j] != #[trigger] plan[k]
            &&& forall|k: int| 0 <= k < plan.len() ==> addrs.contains(#[trigger] plan[k])
        }),
    decreases addrs.len(),
{
    if addrs.len() > 0 {
        law_connect_plan_fresh(existing, local, addrs.drop_last(), now);
        let prev = connect_plan(existing, local, addrs.drop_last(), now);
        let a = addrs.last();
        assert forall|k: int| 0 <= k < prev.len() implies addrs.contains(#[trigger] prev[k]) by {
            let i = choose|i: int| 0 <= i < addrs.drop_last().len() && addrs.drop_last()[i] == prev[k];
            assert(addrs[i] == prev[k]);
        }
        if worth_connecting(existing + prev, local, a, now) {
            let plan = prev.push(a);
            assert(addrs[addrs.len() - 1] == a);
            assert forall|k: int| 0 <= k < plan.len() implies !existing.contains(#[trigger] plan[k]) by {
                if k == prev.len() {
                    if existing.contains(a) {
                        let i = choose|i: int| 0 <= i < existing.len() && existing[i] == a;
                        assert((existing + prev)[i] == a);
                    }
                } else {
                    assert(plan[k] == prev[k]);
                }
            }
            assert forall|j: int, k: int| 0 <= j < k < plan.len() implies #[trigger] plan[j] != #[trigger] plan[k] by {
                if k == prev.len() {
                    assert((existing + prev)[existing.len() + j] == prev[j]);
                }
            }
            assert forall|k: int| 0 <= k < plan.len() implies addrs.contains(#[trigger] plan[k]) by {
                if k < prev.len() {
                    assert(plan[k] == prev[k]);
                }
            }
        }
    }
}


/// The address lines of a file are never empty and carry no surrounding
/// whitespace.
pub proof fn law_address_lines_trimmed(cs: Seq<char>)
    ensures
        forall|k: int|
            0 <= k < address_lines(cs).len() ==> {
                let l = #[trigger] address_lines(cs)[k];
                &&& l.len() > 0
                &&& !is_ws(l[0])
                &&& !is_ws(l.last())
            },
{
    lemma_nonempty_trimmed_trimmed(split_lines(cs));
}

proof fn lemma_trim_start_front(s: Seq<char>)
    ensures
        trim_start(s).len() > 0 ==> !is_ws(trim_start(s)[0]),
        trim_start(s).len() <= s.len(),
        trim_start(s) == s.subrange(s.len() - trim_start(s).len(), s.len() as int),
    decreases s.len(),
{
    if s.len() > 0 && is_ws(s[0]) {
        lemma_trim_start_front(s.drop_first());
        let t = trim_start(s.drop_first());
        assert(s.drop_first().subrange(s.drop_first().len() - t.len(), s.drop_first().len() as int)
            =~= s.subrange(s.len() - t.len(), s.len() as int));
    } else {
        assert(s.subrange(0, s.len() as int) =~= s);
    }
}

proof fn lemma_trim_end_back(s: Seq<char>)
    ensures
        trim_end(s).len() > 0 ==> !is_ws(trim_end(s).last()),
        trim_end(s) == s.subrange(0, trim_end(s).len() as int),
        trim_end(s).len() <= s.len(),
    decreases s.len(),
{
    if s.len() > 0 && is_ws(s.last()) {
        lemma_trim_end_back(s.drop_last());
        let t = trim_end(s.drop_last());
        assert(s.drop_last().subrange(0, t.len() as int) =~= s.subrange(0, t.len() as int));
    } else {
        assert(s.subrange(0, s.len() as int) =~= s);
    }
}

/// A trimmed string that is not empty starts and ends with a character that
/// is not whitespace.
pub proof fn lemma_trim_ends(s: Seq<char>)
    ensures
        trim(s).len() > 0 ==> !is_ws(trim(s)[0]) && !is_ws(trim(s).last()),
{
    lemma_trim_start_front(s);
    lemma_trim_end_back(trim_start(s));
    let t = trim_start(s);
    if trim(s).len() > 0 {
        assert(trim(s)[0] == t[0]);
    }
}

proof fn lemma_nonempty_trimmed_trimmed(lines: Seq<Seq<char>>)
    ensures
        forall|k: int|
            0 <= k < nonempty_trimmed(lines).len() ==> {
                let l = #[trigger] nonempty_trimmed(lines)[k];
                &&& l.len() > 0
                &&& !is_ws(l[0])
                &&& !is_ws(l.last())
            },
    decreases lines.len(),
{
    if lines.len() > 0 {
        lemma_nonempty_trimmed_trimmed(lines.drop_last());
        lemma_trim_ends(lines.last());
        let prev = nonempty_trimmed(lines.drop_last());
        if trim(lines.last()).len() != 0 {
            assert forall|k: int| 0 <= k < prev.len() implies prev.push(trim(lines.last()))[k]
                == prev[k] by {}
        }
    }
}


proof fn lemma_connect_plan_grows(
    existing: Seq<AddrView>,
    local: Option<(u8, Seq<char>)>,
    addrs: Seq<AddrView>,
    now: u64,
    n: int,
)
    requires
        0 <= n <= addrs.len(),
    ensures
        connect_plan(existing, local, addrs.take(n), now).len() <= connect_plan(
            existing,
            local,
            addrs,
            now,
        ).len(),
        connect_plan(existing, local, addrs, now).subrange(
            0,
            connect_plan(existing, local, addrs.take(n), now).len() as int,
        ) == connect_plan(existing, local, addrs.take(n), now),
    decreases addrs.len() - n,
{
    if n == addrs.len() {
        assert(addrs.take(n) =~= addrs);
        let p = connect_plan(existing, local, addrs, now);
        assert(p.subrange(0, p.len() as int) =~= p);
    } else {
        lemma_connect_plan_grows(existing, local, addrs, now, n + 1);
        let t = addrs.take(n + 1);
        assert(t.drop_last() =~= addrs.take(n));
        let small = connect_plan(existing, local, addrs.take(n), now);
        let mid = connect_plan(existing, local, t, now);
        let big = connect_plan(existing, local, addrs, now);
        assert(mid.subrange(0, small.len() as int) =~= small);
        assert(big.subrange(0, small.len() as int) =~= mid.subrange(0, small.len() as int));
    }
}

/// A known address that is not ours, has no peer and never failed gets a
/// peer in the next round of connecting.
pub proof fn law_known_address_gets_connected(
    existing: Seq<AddrView>,
    local: Option<(u8, Seq<char>)>,
    addrs: Seq<AddrView>,
    now: u64,
    k: int,
)
    requires
        0 <= k < addrs.len(),
        local != Some(addrs[k].0),
        !existing.contains(addrs[k]),
        addrs[k].2 == 0,
    ensures
        connect_plan(existing, local, addrs, now).contains(addrs[k]),
{
    let a = addrs[k];
    let t = addrs.take(k + 1);
    assert(t.drop_last() =~= addrs.take(k));
    assert(t.last() == a);
    let prev = connect_plan(existing, local, addrs.take(k), now);
    let mid = connect_plan(existing, local, t, now);
    if !(existing + prev).contains(a) {
        assert(mid == prev.push(a));
        assert(mid[prev.len() as int] == a);
    } else {
        let i = choose|i: int| 0 <= i < (existing + prev).len() && (existing + prev)[i] == a;
        if i < existing.len() {
            assert(existing[i] == a);
        } else {
            assert(prev[i - existing.len()] == a);
            assert(mid == prev);
        }
    }
    assert(mid.contains(a));
    lemma_connect_plan_grows(existing, local, addrs, now, k + 1);
    let big = connect_plan(existing, local, addrs, now);
    let j = choose|j: int| 0 <= j < mid.len() && mid[j] == a;
    assert(big.subrange(0, mid.len() as int)[j] == a);
    assert(big[j] == a);
}

/// Some address in the book has this socket address.
pub open spec fn has_sock(book: Seq<AddrView>, s: (u8, Seq<char>)) -> bool {
    exists|i: int| 0 <= i < book.len() && #[trigger] book[i].0 == s
}

proof fn lemma_merge_grows(
    book: Seq<AddrView>,
    local: Option<(u8, Seq<char>)>,
    incoming: Seq<AddrView>,
    n: int,
)
    requires
        0 <= n <= incoming.len(),
    ensures
        forall|s: (u8, Seq<char>)|
            #[trigger] has_sock(merge_received(book, local, incoming.take(n)), s) ==> has_sock(
                merge_received(book, local, incoming),
                s,
            ),
    decreases incoming.len() - n,
{
    if n == incoming.len() {
        assert(incoming.take(n) =~= incoming);
    } else {
        lemma_merge_grows(book, local, incoming, n + 1);
        let t = incoming.take(n + 1);
        assert(t.drop_last() =~= incoming.take(n));
        let small = merge_received(book, local, incoming.take(n));
        let mid = merge_received(book, local, t);
        assert forall|s: (u8, Seq<char>)| #[trigger] has_sock(small, s) implies has_sock(mid, s) by {
            let i = choose|i: int| 0 <= i < small.len() && small[i].0 == s;
            if mid != small {
                assert(mid == small.push(t.last()));
                assert(mid[i] == small[i]);
            }
        }
    }
}

/// An address received from a peer that is not ours ends up in the address
/// book: it is added, or an address with its socket address was already
/// there.
pub proof fn law_received_address_learned(
    book: Seq<AddrView>,
    local: Option<(u8, Seq<char>)>,
    incoming: Seq<AddrView>,
    k: int,
)
    requires
        0 <= k < incoming.len(),
        local != Some(incoming[k].0),
    ensures
        has_sock(merge_received(book, local, incoming), incoming[k].0),
{
    let a = incoming[k];
    let t = incoming.take(k + 1);
    assert(t.drop_last() =~= incoming.take(k));
    assert(t.last() == a);
    let prev = merge_received(book, local, incoming.take(k));
    let mid = merge_received(book, local, t);
    if !(exists|i: int| 0 <= i < prev.len() && #[trigger] prev[i].0 == a.0) {
        assert(mid == prev.push(a));
        assert(mid[prev.len() as int].0 == a.0);
    } else {
        let i = choose|i: int| 0 <= i < prev.len() && #[trigger] prev[i].0 == a.0;
        assert(mid == prev);
        assert(mid[i].0 == a.0);
    }
    assert(has_sock(mid, a.0));
    lemma_merge_grows(book, local, incoming, k + 1);
}

} // verus!

verus! {

/// A peer whose address is not an individual nym address (an anonymous
/// sender tag, or none) never enters the address book through its own
/// messages: whatever command it sends, other than GETADDR, which carries
/// addresses of other nodes, the book is unchanged and nothing is handed
/// out to be kept.
pub proof fn law_only_individual_peers_learned(
    n: Node,
    n2: Node,
    book: Seq<Address>,
    book2: Seq<Address>,
    local: Option<(u8, Seq<char>)>,
    cmd: Seq<char>,
    unread: Seq<u8>,
    read: int,
    hashes: Seq<[u8; 32]>,
    received: Option<Seq<AddrView>>,
    reply: Seq<u8>,
    out: MessageOutcome,
)
    requires
        message_effect(n, n2, book, book2, local, cmd, unread, read, hashes, received, reply, out),
        !n.peer_addr().is_individual_spec(),
        cmd != COMMANDS::GETADDR@,
    ensures
        book2 == book,
        out.persist is None,
{
}

/// The next frame is found at any distance from the read position: where
/// the magic bytes stand at some index `k` at or after `c`, the frame start
/// is at or before `k`, the magic bytes stand there, and none stand between
/// `c` and it; where they stand nowhere from `c` on, it is the buffer's end.
pub proof fn law_frame_start_finds_magic(d: Seq<u8>, c: int)
    requires
        0 <= c <= d.len(),
    ensures
        forall|k: int| c <= k && #[trigger] magic_at(d, k) ==> frame_start(d, c) <= k,
        (exists|k: int| c <= k && #[trigger] magic_at(d, k)) ==> magic_at(d, frame_start(d, c)),
        forall|j: int| c <= j < frame_start(d, c) ==> !#[trigger] magic_at(d, j),
        (forall|k: int| c <= k ==> !#[trigger] magic_at(d, k)) ==> frame_start(d, c) == d.len(),
        c <= frame_start(d, c) <= d.len(),
{
    lemma_find_magic_found(d, c);
    lemma_find_magic_first(d, c);
    assert forall|k: int| c <= k && #[trigger] magic_at(d, k) implies frame_start(d, c) <= k by {
        lemma_find_magic_reaches(d, c, k);
    }
    if exists|k: int| c <= k && #[trigger] magic_at(d, k) {
        let k = choose|k: int| c <= k && #[trigger] magic_at(d, k);
        lemma_find_magic_reaches(d, c, k);
    }
}

/// The search from `c` finds the magic bytes at `k`, or before it.
proof fn lemma_find_magic_reaches(d: Seq<u8>, c: int, k: int)
    requires
        0 <= c <= k,
        magic_at(d, k),
    ensures
        find_magic_from(d, c) matches Some(m) && m <= k,
    decreases k - c,
{
    if c < k && !magic_at(d, c) {
        lemma_find_magic_reaches(d, c + 1, k);
    }
}

/// No magic bytes stand before what the search from `c` finds, nor
/// anywhere from `c` on where it finds nothing.
proof fn lemma_find_magic_first(d: Seq<u8>, c: int)
    requires
        0 <= c,
    ensures
        forall|j: int|
            c <= j < (match find_magic_from(d, c) {
                Some(m) => m,
                None => d.len() as int,
            }) ==> !#[trigger] magic_at(d, j),
        find_magic_from(d, c) is None ==> forall|j: int| c <= j ==> !#[trigger] magic_at(d, j),
    decreases d.len() - c,
{
    if c + 4 <= d.len() && !magic_at(d, c) {
        lemma_find_magic_first(d, c + 1);
    }
}

/// An address file keeps every line: its address lines are its lines, each
/// trimmed, with the lines that trim to nothing left out, in order.
pub proof fn law_address_lines_keep_every_line(cs: Seq<char>)
    ensures
        address_lines(cs) == split_lines(cs).map_values(|l: Seq<char>| trim(l)).filter(
            |t: Seq<char>| t.len() > 0,
        ),
{
    lemma_nonempty_trimmed_filter(split_lines(cs));
}

proof fn lemma_nonempty_trimmed_filter(lines: Seq<Seq<char>>)
    ensures
        nonempty_trimmed(lines) == lines.map_values(|l: Seq<char>| trim(l)).filter(
            |t: Seq<char>| t.len() > 0,
        ),
    decreases lines.len(),
{
    let f = |l: Seq<char>| trim(l);
    let p = |t: Seq<char>| t.len() > 0;
    if lines.len() == 0 {
        reveal_with_fuel(Seq::filter, 1);
        assert(lines.map_values(f) =~= Seq::<Seq<char>>::empty());
    } else {
        lemma_nonempty_trimmed_filter(lines.drop_last());
        let m = lines.map_values(f);
        assert(m.drop_last() =~= lines.drop_last().map_values(f));
        assert(m.last() == trim(lines.last()));
        reveal_with_fuel(Seq::filter, 1);
        assert(m.filter(p) == if p(m.last()) {
            m.drop_last().filter(p).push(m.last())
        } else {
            m.drop_last().filter(p)
        });
    }
}

/// A line with no line feed in it, followed by a line feed, is read as the
/// one address it holds, trimmed, however long it is.
pub proof fn law_single_line_file(l: Seq<char>)
    requires
        !l.contains('\n'),
        trim(l).len() > 0,
    ensures
        address_lines(l.push('\n')) == seq![trim(l)],
{
    lemma_split_acc_no_feed(l);
    let cs = l.push('\n');
    assert(cs.drop_last() =~= l);
    assert(split_lines(cs) =~= seq![l, Seq::<char>::empty()]);
    let lines = split_lines(cs);
    assert(lines.drop_last() =~= seq![l]);
    assert(lines.drop_last().drop_last() =~= Seq::<Seq<char>>::empty());
    assert(trim_start(Seq::<char>::empty()) == Seq::<char>::empty());
    assert(trim(Seq::<char>::empty()) == Seq::<char>::empty());
    assert(seq![l].drop_last() =~= Seq::<Seq<char>>::empty());
    assert(seq![l].last() == l);
    assert(nonempty_trimmed(Seq::<Seq<char>>::empty()) == Seq::<Seq<char>>::empty());
    assert(nonempty_trimmed(seq![l]) == Seq::<Seq<char>>::empty().push(trim(l)));
    assert(nonempty_trimmed(lines) == nonempty_trimmed(seq![l]));
    assert(Seq::<Seq<char>>::empty().push(trim(l)) =~= seq![trim(l)]);
}

/// Without line feeds, nothing is finished and everything is the line
/// being read.
proof fn lemma_split_acc_no_feed(l: Seq<char>)
    requires
        !l.contains('\n'),
    ensures
        split_acc(l) == (Seq::<Seq<char>>::empty(), l),
    decreases l.len(),
{
    if l.len() > 0 {
        assert(!l.drop_last().contains('\n')) by {
            if l.drop_last().contains('\n') {
                let j = choose|j: int| 0 <= j < l.drop_last().len() && l.drop_last()[j] == '\n';
                assert(l[j] == '\n');
            }
        }
        lemma_split_acc_no_feed(l.drop_last());
        assert(l[l.len() - 1] != '\n');
        assert(l.drop_last().push(l.last()) =~= l);
    }
}

} // verus!
