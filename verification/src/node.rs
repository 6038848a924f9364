use vstd::prelude::*;
use vstd::bytes::*;
use vstd::string::StringSliceAdditionalSpecFns;

pub mod COMMANDS;

use crate::data_stream::DataStream;
use crate::net_addr::Address;
use crate::net_msg_header::{command_field, header_bytes, magic, MessageHeader};
use crate::util::get_time;
use crate::net::{extract_message, payload_overruns, ReceiveOutcome};

verus! {

/// The wire bytes of a header with the given command bytes and payload size.
pub open spec fn frame_header(cmd: Seq<u8>, size: u32) -> Seq<u8> {
    magic() + command_field(cmd) + spec_u32_to_le_bytes(size)
}

/// Counters of a peer's network activity.
#[derive(Debug, Clone, Copy, PartialEq, Eq, Structural)]
pub struct NodeStats {
    pub last_time_send: u64,
    pub last_time_recv: u64,
    pub total_bytes_send: u64,
    pub total_bytes_recv: u64,
    pub last_ping_time: u64,
}

impl Default for NodeStats {
    /// All counters at zero.
    fn default() -> (s: Self)
        ensures
            s == (NodeStats {
                last_time_send: 0,
                last_time_recv: 0,
                total_bytes_send: 0,
                total_bytes_recv: 0,
                last_ping_time: 0,
            }),
    {
        NodeStats {
            last_time_send: 0,
            last_time_recv: 0,
            total_bytes_send: 0,
            total_bytes_recv: 0,
            last_ping_time: 0,
        }
    }
}

/// A connected peer: its address, the protocol version it announced, the
/// bytes received from it and not yet processed, the messages queued for
/// it, and the hashes of the addresses already sent to it.
#[derive(Debug)]
pub struct Node {
    pub(crate) addr: Address,
    pub(crate) version: u32,
    pub(crate) data_recv: DataStream,
    pub(crate) data_send: Vec<u8>,
    pub(crate) push_position: i32,
    pub(crate) inbound: bool,
    pub(crate) already_send_addrs: Vec<[u8; 32]>,
    pub(crate) stats: NodeStats,
}

impl Node {
    /// The receive stream is well formed, the send queue fits the 32-bit
    /// positions, and a message being written has its header in the queue.
    #[verifier::type_invariant]
    spec fn inv(&self) -> bool {
        &&& self.data_recv.wf()
        &&& self.data_send@.len() <= i32::MAX
        &&& (self.push_position == -1 || (0 <= self.push_position && self.push_position + 20
            <= self.data_send@.len()))
    }

    pub closed spec fn peer_addr(&self) -> Address {
        self.addr
    }

    pub closed spec fn peer_version(&self) -> u32 {
        self.version
    }

    pub closed spec fn recv_stream(&self) -> DataStream {
        self.data_recv
    }

    pub closed spec fn send_queue_view(&self) -> Seq<u8> {
        self.data_send@
    }

    pub closed spec fn push_pos(&self) -> i32 {
        self.push_position
    }

    pub closed spec fn is_inbound_spec(&self) -> bool {
        self.inbound
    }

    pub closed spec fn sent_hashes(&self) -> Seq<[u8; 32]> {
        self.already_send_addrs@
    }

    pub closed spec fn node_stats(&self) -> NodeStats {
        self.stats
    }

    /// Everything but the send queue and the write position agrees.
    pub open spec fn same_but_send(a: Node, b: Node) -> bool {
        &&& a.peer_addr() == b.peer_addr()
        &&& a.peer_version() == b.peer_version()
        &&& a.recv_stream() == b.recv_stream()
        &&& a.is_inbound_spec() == b.is_inbound_spec()
        &&& a.sent_hashes() == b.sent_hashes()
        &&& a.node_stats() == b.node_stats()
    }

    /// Start a message: remember where it begins and queue its header with a
    /// zero size. Nothing happens when `ignore` is set.
    pub fn begin_message(&mut self, command: &str, ignore: bool)
        requires
            ignore || old(self).send_queue_view().len() + 20 <= i32::MAX,
        ensures
            ignore ==> *final(self) == *old(self),
            !ignore ==> {
                &&& final(self).send_queue_view() == old(self).send_queue_view() + frame_header(
                    command.spec_bytes(),
                    0,
                )
                &&& final(self).push_pos() == old(self).send_queue_view().len()
                &&& Node::same_but_send(*final(self), *old(self))
            },
    {
        if ignore {
            return;
        }
        proof {
            use_type_invariant(&*self);
        }
        let start = self.data_send.len();
        let header = MessageHeader::new(Some(command), Some(0));
        let bytes = header.to_bytes();
        self.push_position = -1;
        let mut buf: Vec<u8> = Vec::new();
        core::mem::swap(&mut buf, &mut self.data_send);
        let mut i: usize = 0;
        while i < bytes.len()
            invariant
                bytes@ == header_bytes(header),
                bytes@.len() == 20,
                i <= 20,
                start == old(self).data_send@.len(),
                start + 20 <= i32::MAX,
                buf@ == old(self).data_send@ + bytes@.subrange(0, i as int),
            decreases 20 - i,
        {
            buf.push(bytes[i]);
            i = i + 1;
            assert(buf@ =~= old(self).data_send@ + bytes@.subrange(0, i as int));
        }
        self.data_send = buf;
        self.push_position = start as i32;
        assert(bytes@.subrange(0, 20) =~= bytes@);
        assert(header_bytes(header) =~= frame_header(command.spec_bytes(), 0));
    }

    /// Finish the message being written: patch the size field of its header
    /// with its payload's length, the bytes queued after its header. Nothing
    /// happens when no message is being written.
    pub fn end_message(&mut self)
        ensures
            old(self).push_pos() == -1 ==> *final(self) == *old(self),
            old(self).push_pos() != -1 ==> {
                let p = old(self).push_pos() as int;
                let q = old(self).send_queue_view();
                &&& final(self).send_queue_view() == q.subrange(0, p + 16)
                    + spec_u32_to_le_bytes((q.len() - p - 20) as u32) + q.subrange(p + 20, q.len() as int)
                &&& final(self).push_pos() == -1
                &&& Node::same_but_send(*final(self), *old(self))
            },
    {
        proof {
            use_type_invariant(&*self);
        }
        if self.push_position == -1 {
            return;
        }
        let len = self.data_send.len();
        let n_size: u32 = ((len as i32) - self.push_position - 20i32) as u32;
        let offset: usize = (self.push_position + 16) as usize;
        self.push_position = -1;
        let mut buf: Vec<u8> = Vec::new();
        core::mem::swap(&mut buf, &mut self.data_send);
        let le = u32_to_le_bytes(n_size);
        let ghost q = old(self).data_send@;
        let mut k: usize = 0;
        while k < 4
            invariant
                k <= 4,
                le@ == spec_u32_to_le_bytes(n_size),
                le@.len() == 4,
                offset + 4 <= len,
                len == q.len(),
                buf@.len() == len,
                forall|j: int| 0 <= j < offset ==> buf@[j] == q[j],
                forall|j: int| offset + 4 <= j < len ==> buf@[j] == q[j],
                forall|j: int| offset <= j < offset + k ==> buf@[j] == le@[j - offset],
                forall|j: int| offset + k <= j < offset + 4 ==> buf@[j] == q[j],
            decreases 4 - k,
        {
            buf.set(offset + k, le[k]);
            k = k + 1;
        }
        assert(buf@ =~= q.subrange(0, offset as int) + spec_u32_to_le_bytes(n_size) + q.subrange(
            offset + 4,
            len as int,
        ));
        self.data_send = buf;
    }

    /// Queue a whole message: a header with the command and the payload's
    /// length, then the payload.
    pub fn push_message(&mut self, command: &str, payload: &[u8])
        requires
            old(self).send_queue_view().len() + 20 + payload@.len() <= i32::MAX,
        ensures
            final(self).send_queue_view() == old(self).send_queue_view() + frame_header(
                command.spec_bytes(),
                payload@.len() as u32,
            ) + payload@,
            final(self).push_pos() == -1,
            Node::same_but_send(*final(self), *old(self)),
    {
        let ghost q0 = self.data_send@;
        self.begin_message(command, false);
        proof {
            use_type_invariant(&*self);
            lemma_auto_spec_u32_to_from_le_bytes();
            assert(frame_header(command.spec_bytes(), 0).len() == 20);
        }
        let p = self.push_position;
        self.push_position = -1;
        let mut buf: Vec<u8> = Vec::new();
        core::mem::swap(&mut buf, &mut self.data_send);
        let ghost q1 = buf@;
        let mut i: usize = 0;
        while i < payload.len()
            invariant
                i <= payload@.len(),
                buf@ == q1 + payload@.subrange(0, i as int),
                q1.len() + payload@.len() <= i32::MAX,
            decreases payload@.len() - i,
        {
            buf.push(payload[i]);
            i = i + 1;
            assert(buf@ =~= q1 + payload@.subrange(0, i as int));
        }
        assert(payload@.subrange(0, payload@.len() as int) =~= payload@);
        self.data_send = buf;
        self.push_position = p;
        let ghost q2 = self.data_send@;
        self.end_message();
        proof {
            let p_ = p as int;
            assert(p_ == q0.len());
            assert(q1 == q0 + frame_header(command.spec_bytes(), 0));
            lemma_auto_spec_u32_to_from_le_bytes();
            assert(q2.subrange(0, p_ + 16) =~= q0 + magic() + command_field(command.spec_bytes()));
            assert(q2.subrange(p_ + 20, q2.len() as int) =~= payload@);
            assert(q2.len() - p_ - 20 == payload@.len());
            assert(self.data_send@ =~= q0 + frame_header(
                command.spec_bytes(),
                payload@.len() as u32,
            ) + payload@);
        }
    }

    /// A node for a peer whose bytes arrive at time `now`. It is outbound
    /// when `push_version` is `Some(true)`, and then a VERSION message with
    /// protocol version 1 is queued for it.
    pub fn new_at(addr: Address, push_version: Option<bool>, now: u64) -> (node: Node)
        ensures
            node.peer_addr() == addr,
            node.peer_version() == 0,
            node.recv_stream().data@ == Seq::<u8>::empty(),
            node.recv_stream().cursor == 0,
            node.push_pos() == -1,
            node.is_inbound_spec() == (push_version != Some(true)),
            node.sent_hashes() == Seq::<[u8; 32]>::empty(),
            node.node_stats() == (NodeStats {
                last_time_send: 0,
                last_time_recv: now,
                total_bytes_send: 0,
                total_bytes_recv: 0,
                last_ping_time: 0,
            }),
            node.is_inbound_spec() ==> node.send_queue_view() == Seq::<u8>::empty(),
            !node.is_inbound_spec() ==> node.send_queue_view() == frame_header(
                COMMANDS::VERSION.spec_bytes(),
                4,
            ) + spec_u32_to_le_bytes(1),
    {
        let inbound = match push_version {
            Some(b) => !b,
            None => true,
        };
        let mut stats = NodeStats::default();
        stats.last_time_recv = now;
        let mut node = Node {
            addr,
            version: 0,
            data_recv: DataStream::new_empty(),
            data_send: Vec::new(),
            push_position: -1,
            inbound,
            already_send_addrs: Vec::new(),
            stats,
        };
        if !inbound {
            let version = u32_to_le_bytes(1u32);
            proof {
                lemma_auto_spec_u32_to_from_le_bytes();
            }
            node.push_message(COMMANDS::VERSION, version.as_slice());
            assert(node.send_queue_view() =~= frame_header(COMMANDS::VERSION.spec_bytes(), 4)
                + spec_u32_to_le_bytes(1));
        }
        node
    }

    /// A node for a peer, stamped with the current time: its time of last
    /// receipt is the clock's reading, its other counters are zero.
    pub fn new(addr: Address, push_version: Option<bool>) -> (node: Node)
        ensures
            node.peer_addr() == addr,
            node.peer_version() == 0,
            node.recv_stream().data@ == Seq::<u8>::empty(),
            node.recv_stream().cursor == 0,
            node.push_pos() == -1,
            node.is_inbound_spec() == (push_version != Some(true)),
            node.sent_hashes() == Seq::<[u8; 32]>::empty(),
            node.node_stats().last_time_send == 0,
            node.node_stats().total_bytes_send == 0,
            node.node_stats().total_bytes_recv == 0,
            node.node_stats().last_ping_time == 0,
            node.is_inbound_spec() ==> node.send_queue_view() == Seq::<u8>::empty(),
            !node.is_inbound_spec() ==> node.send_queue_view() == frame_header(
                COMMANDS::VERSION.spec_bytes(),
                4,
            ) + spec_u32_to_le_bytes(1),
    {
        let now = get_time();
        Node::new_at(addr, push_version, now)
    }

    /// Whether the peer's address is an anonymous sender tag.
    pub fn is_anonymous(&self) -> (b: bool)
        ensures
            b == self.peer_addr().is_anonymous_spec(),
    {
        self.addr.is_anonymous()
    }

    /// Whether the peer's address is an individual nym address.
    pub fn is_individual(&self) -> (b: bool)
        ensures
            b == self.peer_addr().is_individual_spec(),
    {
        self.addr.is_individual()
    }

    /// The peer's address.
    pub fn addr(&self) -> (a: &Address)
        ensures
            *a == self.peer_addr(),
    {
        &self.addr
    }

    /// The protocol version the peer announced, zero before the handshake.
    pub fn version(&self) -> (v: u32)
        ensures
            v == self.peer_version(),
    {
        self.version
    }

    /// Whether the peer connected to us.
    pub fn is_inbound(&self) -> (b: bool)
        ensures
            b == self.is_inbound_spec(),
    {
        self.inbound
    }

    /// Where the message being written begins, or -1.
    pub fn push_position(&self) -> (p: i32)
        ensures
            p == self.push_pos(),
    {
        self.push_position
    }

    /// The activity counters.
    pub fn stats(&self) -> (s: NodeStats)
        ensures
            s == self.node_stats(),
    {
        self.stats
    }

    /// The hashes of the addresses already sent to the peer.
    pub fn already_send_addrs(&self) -> (h: &Vec<[u8; 32]>)
        ensures
            h@ == self.sent_hashes(),
    {
        &self.already_send_addrs
    }

    /// The bytes received from the peer and not yet processed.
    pub fn data_recv(&self) -> (s: &DataStream)
        ensures
            *s == self.recv_stream(),
            s.wf(),
    {
        proof {
            use_type_invariant(self);
        }
        &self.data_recv
    }

    /// The bytes queued for the peer.
    pub fn send_queue(&self) -> (q: &[u8])
        ensures
            q@ == self.send_queue_view(),
    {
        self.data_send.as_slice()
    }

    /// Whether nothing is queued for the peer.
    pub fn send_queue_empty(&self) -> (b: bool)
        ensures
            b == (self.send_queue_view().len() == 0),
    {
        self.data_send.len() == 0
    }

    /// Drop the queued bytes once they were sent.
    pub fn clear_send_queue(&mut self)
        requires
            old(self).push_pos() == -1,
        ensures
            final(self).send_queue_view() == Seq::<u8>::empty(),
            final(self).push_pos() == -1,
            Node::same_but_send(*final(self), *old(self)),
    {
        proof {
            use_type_invariant(&*self);
        }
        self.data_send = Vec::new();
    }

    /// Append bytes received from the peer at time `now`.
    pub fn receive(&mut self, data: &[u8], now: u64)
        ensures
            final(self).recv_stream().data@ == old(self).recv_stream().data@ + data@,
            final(self).recv_stream().cursor == old(self).recv_stream().cursor,
            final(self).node_stats() == (NodeStats {
                last_time_recv: now,
                ..old(self).node_stats()
            }),
            final(self).peer_addr() == old(self).peer_addr(),
            final(self).peer_version() == old(self).peer_version(),
            final(self).send_queue_view() == old(self).send_queue_view(),
            final(self).push_pos() == old(self).push_pos(),
            final(self).is_inbound_spec() == old(self).is_inbound_spec(),
            final(self).sent_hashes() == old(self).sent_hashes(),
    {
        proof {
            use_type_invariant(&*self);
        }
        let mut s = DataStream::new_empty();
        core::mem::swap(&mut s, &mut self.data_recv);
        s.write(data);
        self.data_recv = s;
        self.stats.last_time_recv = now;
    }

    /// Record the protocol version the peer announced.
    pub fn set_version(&mut self, version: u32)
        ensures
            final(self).peer_version() == version,
            final(self).peer_addr() == old(self).peer_addr(),
            final(self).recv_stream() == old(self).recv_stream(),
            final(self).send_queue_view() == old(self).send_queue_view(),
            final(self).push_pos() == old(self).push_pos(),
            final(self).is_inbound_spec() == old(self).is_inbound_spec(),
            final(self).sent_hashes() == old(self).sent_hashes(),
            final(self).node_stats() == old(self).node_stats(),
    {
        proof {
            use_type_invariant(&*self);
        }
        self.version = version;
    }

    /// Replace the hashes of the addresses already sent to the peer.
    pub fn set_already_send_addrs(&mut self, hashes: Vec<[u8; 32]>)
        ensures
            final(self).sent_hashes() == hashes@,
            final(self).peer_version() == old(self).peer_version(),
            final(self).peer_addr() == old(self).peer_addr(),
            final(self).recv_stream() == old(self).recv_stream(),
            final(self).send_queue_view() == old(self).send_queue_view(),
            final(self).push_pos() == old(self).push_pos(),
            final(self).is_inbound_spec() == old(self).is_inbound_spec(),
            final(self).node_stats() == old(self).node_stats(),
    {
        proof {
            use_type_invariant(&*self);
        }
        self.already_send_addrs = hashes;
    }

    /// Whether taking the next message out of the receive buffer would read
    /// past its end.
    pub fn recv_would_overrun(&self) -> (b: bool)
        ensures
            b == payload_overruns(self.recv_stream().data@, self.recv_stream().cursor as int),
    {
        proof {
            use_type_invariant(self);
        }
        crate::net::overruns(&self.data_recv)
    }

    /// Take the next message out of the receive buffer (see
    /// `extract_message`).
    pub fn take_message(&mut self) -> (r: ReceiveOutcome)
        requires
            !payload_overruns(
                old(self).recv_stream().data@,
                old(self).recv_stream().cursor as int,
            ),
        ensures
            crate::net::extract_outcome(
                old(self).recv_stream().data@,
                old(self).recv_stream().cursor as int,
                r,
                final(self).recv_stream().data@,
                final(self).recv_stream().cursor as int,
            ),
            final(self).recv_stream().wf(),
            final(self).peer_version() == old(self).peer_version(),
            final(self).peer_addr() == old(self).peer_addr(),
            final(self).send_queue_view() == old(self).send_queue_view(),
            final(self).push_pos() == old(self).push_pos(),
            final(self).is_inbound_spec() == old(self).is_inbound_spec(),
            final(self).sent_hashes() == old(self).sent_hashes(),
            final(self).node_stats() == old(self).node_stats(),
    {
        proof {
            use_type_invariant(&*self);
        }
        let mut s = DataStream::new_empty();
        core::mem::swap(&mut s, &mut self.data_recv);
        let r = extract_message(&mut s);
        self.data_recv = s;
        r
    }
}

} // verus!
