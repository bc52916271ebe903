//! The messages that MPC parties exchange, their wire format, and what a party takes from a
//! message it receives.
use vstd::prelude::*;
use crate::prc::commitment::{ristretto_valid, Commitment};
use crate::simd_array::bit_array::{bits_fit, BitArray};
use crate::simd_array::bit_spec::ceil8;
use crate::simd_array::d2_bit_array::D2BitArray;

verus! {

/// Commands of the MPC protocol.
pub enum Cmd<'a> {
    Handshake { peer_id: u8 },
    BeaverExchange { sender_id: u8, beaver_bit_size: u32, beaver_data_a: &'a [u8], beaver_data_b: &'a [u8] },
    DabitExchange { sender_id: u8, dabit_bit_size: u32, dabit_bool_data: &'a [u8] },
    AggCommit { sender_id: u8, commit: Commitment },
}

/// A command as plain values.
pub enum CmdView {
    Handshake { peer_id: u8 },
    BeaverExchange { sender_id: u8, bit_size: u32, a: Seq<u8>, b: Seq<u8> },
    DabitExchange { sender_id: u8, bit_size: u32, data: Seq<u8> },
    AggCommit { sender_id: u8, commit: Seq<u8> },
}

impl<'a> View for Cmd<'a> {
    type V = CmdView;

    open spec fn view(&self) -> CmdView {
        match self {
            Cmd::Handshake { peer_id } => CmdView::Handshake { peer_id: *peer_id },
            Cmd::BeaverExchange { sender_id, beaver_bit_size, beaver_data_a, beaver_data_b } => CmdView::BeaverExchange {
                sender_id: *sender_id,
                bit_size: *beaver_bit_size,
                a: beaver_data_a@,
                b: beaver_data_b@,
            },
            Cmd::DabitExchange { sender_id, dabit_bit_size, dabit_bool_data } => CmdView::DabitExchange {
                sender_id: *sender_id,
                bit_size: *dabit_bit_size,
                data: dabit_bool_data@,
            },
            Cmd::AggCommit { sender_id, commit } => CmdView::AggCommit { sender_id: *sender_id, commit: commit.point() },
        }
    }
}

/// The little-endian encoding of `v` in 4 bytes.
pub open spec fn le32_bytes(v: u32) -> Seq<u8> {
    seq![(v & 0xff) as u8, ((v >> 8) & 0xff) as u8, ((v >> 16) & 0xff) as u8, ((v >> 24) & 0xff) as u8]
}

/// The `u32` whose little-endian encoding is the 4 bytes from `i` on.
pub open spec fn le32_at(s: Seq<u8>, i: int) -> u32 {
    (s[i] as u32) | ((s[i + 1] as u32) << 8u32) | ((s[i + 2] as u32) << 16u32) | ((s[i + 3] as u32) << 24u32)
}

/// The wire format: a type byte (0 Beaver shares, 1 handshake, 2 daBit shares, 3
/// commitment), the sender, then for shares the bit size in 4 little-endian bytes and the
/// bytes of the arrays, for a commitment its 32 bytes.
pub open spec fn cmd_wire(v: CmdView) -> Seq<u8> {
    match v {
        CmdView::BeaverExchange { sender_id, bit_size, a, b } => seq![0u8, sender_id] + le32_bytes(bit_size) + a + b,
        CmdView::Handshake { peer_id } => seq![1u8, peer_id],
        CmdView::DabitExchange { sender_id, bit_size, data } => seq![2u8, sender_id] + le32_bytes(bit_size) + data,
        CmdView::AggCommit { sender_id, commit } => seq![3u8, sender_id] + commit,
    }
}

/// The arrays of a command hold exactly the bytes of their bit size, and a commitment is
/// the 32-byte encoding of a point.
pub open spec fn cmd_consistent(v: CmdView) -> bool {
    match v {
        CmdView::BeaverExchange { sender_id, bit_size, a, b } => a.len() == ceil8(bit_size as nat) && b.len() == ceil8(
            bit_size as nat,
        ),
        CmdView::Handshake { peer_id } => true,
        CmdView::DabitExchange { sender_id, bit_size, data } => data.len() == ceil8(bit_size as nat),
        CmdView::AggCommit { sender_id, commit } => commit.len() == 32 && ristretto_valid(commit),
    }
}

/// The bytes start with the encoding of a command.
pub open spec fn wire_ok(d: Seq<u8>) -> bool {
    &&& d.len() >= 2
    &&& d[0] < 4
    &&& (d[0] == 0u8 || d[0] == 2u8) ==> d.len() >= 6
    &&& d[0] == 0u8 ==> d.len() >= 6 + 2 * ceil8(le32_at(d, 2) as nat)
    &&& d[0] == 2u8 ==> d.len() >= 6 + ceil8(le32_at(d, 2) as nat)
    &&& d[0] == 3u8 ==> d.len() >= 34 && ristretto_valid(d.subrange(2, 34))
}

/// The command whose encoding starts the bytes.
pub open spec fn cmd_parse(d: Seq<u8>) -> CmdView {
    let n = ceil8(le32_at(d, 2) as nat) as int;
    if d[0] == 0u8 {
        CmdView::BeaverExchange {
            sender_id: d[1],
            bit_size: le32_at(d, 2),
            a: d.subrange(6, 6 + n),
            b: d.subrange(6 + n, 6 + 2 * n),
        }
    } else if d[0] == 1u8 {
        CmdView::Handshake { peer_id: d[1] }
    } else if d[0] == 2u8 {
        CmdView::DabitExchange { sender_id: d[1], bit_size: le32_at(d, 2), data: d.subrange(6, 6 + n) }
    } else {
        CmdView::AggCommit { sender_id: d[1], commit: d.subrange(2, 34) }
    }
}

proof fn lemma_le32(v: u32)
    ensures
        le32_at(le32_bytes(v), 0) == v,
{
    let b0 = (v & 0xff) as u8;
    let b1 = ((v >> 8) & 0xff) as u8;
    let b2 = ((v >> 16) & 0xff) as u8;
    let b3 = ((v >> 24) & 0xff) as u8;
    assert((b0 as u32) | ((b1 as u32) << 8u32) | ((b2 as u32) << 16u32) | ((b3 as u32) << 24u32) == v) by (bit_vector)
        requires
            b0 == (v & 0xff) as u8,
            b1 == ((v >> 8) & 0xff) as u8,
            b2 == ((v >> 16) & 0xff) as u8,
            b3 == ((v >> 24) & 0xff) as u8,
    ;
}

/// Decoding the encoding of a consistent command gives the command back.
pub proof fn lemma_cmd_round_trip(v: CmdView)
    requires
        cmd_consistent(v),
    ensures
        wire_ok(cmd_wire(v)),
        cmd_parse(cmd_wire(v)) == v,
{
    let w = cmd_wire(v);
    match v {
        CmdView::BeaverExchange { sender_id, bit_size, a, b } => {
            lemma_le32(bit_size);
            assert(w.subrange(2, 6) =~= le32_bytes(bit_size));
            assert(le32_at(w, 2) == le32_at(le32_bytes(bit_size), 0));
            let n = ceil8(bit_size as nat) as int;
            assert(w.subrange(6, 6 + n) =~= a);
            assert(w.subrange(6 + n, 6 + 2 * n) =~= b);
        },
        CmdView::Handshake { peer_id } => {},
        CmdView::DabitExchange { sender_id, bit_size, data } => {
            lemma_le32(bit_size);
            assert(le32_at(w, 2) == le32_at(le32_bytes(bit_size), 0));
            let n = ceil8(bit_size as nat) as int;
            assert(w.subrange(6, 6 + n) =~= data);
        },
        CmdView::AggCommit { sender_id, commit } => {
            assert(w.subrange(2, 34) =~= commit);
        },
    }
}

/// Appends the 4 little-endian bytes of `v`.
fn push_le32(buffer: &mut Vec<u8>, v: u32)
    ensures
        final(buffer)@ == old(buffer)@ + le32_bytes(v),
{
    buffer.push((v & 0xff) as u8);
    buffer.push(((v >> 8) & 0xff) as u8);
    buffer.push(((v >> 16) & 0xff) as u8);
    buffer.push(((v >> 24) & 0xff) as u8);
}

/// Appends the bytes of `s`.
fn push_bytes(buffer: &mut Vec<u8>, s: &[u8])
    ensures
        final(buffer)@ == old(buffer)@ + s@,
{
    let mut i: usize = 0;
    while i < s.len()
        invariant
            i <= s@.len(),
            buffer@ == old(buffer)@ + s@.take(i as int),
        decreases s@.len() - i,
    {
        buffer.push(s[i]);
        i += 1;
        assert(buffer@ =~= old(buffer)@ + s@.take(i as int));
    }
    assert(s@.take(s@.len() as int) =~= s@);
}

impl<'a> Cmd<'a> {
    /// The wire encoding of the command.
    pub fn serialize(&self) -> (r: Vec<u8>)
        ensures
            r@ == cmd_wire(self@),
    {
        let mut buffer: Vec<u8> = Vec::new();
        match self {
            Cmd::BeaverExchange { sender_id, beaver_bit_size, beaver_data_a, beaver_data_b } => {
                buffer.push(0u8);
                buffer.push(*sender_id);
                push_le32(&mut buffer, *beaver_bit_size);
                push_bytes(&mut buffer, beaver_data_a);
                push_bytes(&mut buffer, beaver_data_b);
            },
            Cmd::Handshake { peer_id } => {
                buffer.push(1u8);
                buffer.push(*peer_id);
            },
            Cmd::DabitExchange { sender_id, dabit_bit_size, dabit_bool_data } => {
                buffer.push(2u8);
                buffer.push(*sender_id);
                push_le32(&mut buffer, *dabit_bit_size);
                push_bytes(&mut buffer, dabit_bool_data);
            },
            Cmd::AggCommit { sender_id, commit } => {
                buffer.push(3u8);
                buffer.push(*sender_id);
                let c = commit.serialize();
                push_bytes(&mut buffer, &c);
            },
        }
        assert(buffer@ =~= cmd_wire(self@));
        buffer
    }

    /// The command whose encoding starts `data`, which must start with the encoding of a
    /// command; its arrays borrow from `data`.
    pub fn deserialize(data: &'a [u8]) -> (r: Cmd<'a>)
        requires
            wire_ok(data@),
        ensures
            r@ == cmd_parse(data@),
    {
        Self::try_deserialize(data).unwrap()
    }

    /// The command whose encoding starts `data`; its arrays borrow from `data`. `None` when
    /// `data` starts with no encoding of a command: too short, an unknown type, or a
    /// commitment that encodes no point.
    pub fn try_deserialize(data: &'a [u8]) -> (r: Option<Cmd<'a>>)
        ensures
            r is Some <==> wire_ok(data@),
            r matches Some(c) ==> c@ == cmd_parse(data@),
    {
        if data.len() < 2 || data[0] >= 4 {
            return None;
        }
        let cmd_type = data[0];
        let sender_id = data[1];
        if cmd_type == 1 {
            return Some(Cmd::Handshake { peer_id: sender_id });
        }
        if cmd_type == 3 {
            if data.len() < 34 {
                return None;
            }
            let part = vstd::slice::slice_subrange(data, 2, 34);
            return match Commitment::try_deserialize(part) {
                Some(commit) => {
                    assert(part@.take(32) =~= data@.subrange(2, 34));
                    Some(Cmd::AggCommit { sender_id, commit })
                },
                None => {
                    assert(part@.take(32) =~= data@.subrange(2, 34));
                    None
                },
            };
        }
        if data.len() < 6 {
            return None;
        }
        let bit_size: u32 = (data[2] as u32) | ((data[3] as u32) << 8u32) | ((data[4] as u32) << 16u32) | ((
        data[5] as u32) << 24u32);
        assert(bit_size == le32_at(data@, 2));
        let array_size: usize = (bit_size / 8) as usize + if bit_size % 8 != 0 {
            1
        } else {
            0
        };
        assert(array_size == ceil8(bit_size as nat));
        let rest = data.len() - 6;
        if cmd_type == 0 {
            if rest / 2 < array_size {
                return None;
            }
            let a = vstd::slice::slice_subrange(data, 6, 6 + array_size);
            let b = vstd::slice::slice_subrange(data, 6 + array_size, 6 + 2 * array_size);
            Some(Cmd::BeaverExchange { sender_id, beaver_bit_size: bit_size, beaver_data_a: a, beaver_data_b: b })
        } else {
            if rest < array_size {
                return None;
            }
            let d = vstd::slice::slice_subrange(data, 6, 6 + array_size);
            Some(Cmd::DabitExchange { sender_id, dabit_bit_size: bit_size, dabit_bool_data: d })
        }
    }
}

/// What a party keeps of a message from another party.
pub enum Received {
    /// The blinded shares (u, v) of a layer's AND gates.
    Beaver(D2BitArray),
    /// The blinded bits of a conversion.
    Dabit(BitArray),
    /// A commitment to aggregate.
    Commit(Commitment),
}

/// What party `owner_id` keeps of a command from another party: its arrays of the given bit
/// size, or its commitment. `None` where the protocol stops: a command from the party
/// itself, a handshake after the connections are set up, or arrays shorter than their bit
/// size.
pub fn decode_cmd(cmd: Cmd, owner_id: u8) -> (r: Option<Received>)
    requires
        cmd matches Cmd::AggCommit { sender_id, commit } ==> commit.wf(),
    ensures
        r is Some <==> match cmd@ {
            CmdView::Handshake { peer_id } => false,
            CmdView::BeaverExchange { sender_id, bit_size, a, b } => sender_id != owner_id && a.len() >= ceil8(
                bit_size as nat,
            ) && b.len() >= ceil8(bit_size as nat) && bits_fit(bit_size as nat),
            CmdView::DabitExchange { sender_id, bit_size, data } => sender_id != owner_id && data.len() >= ceil8(
                bit_size as nat,
            ) && bits_fit(bit_size as nat),
            CmdView::AggCommit { sender_id, commit } => sender_id != owner_id,
        },
        r matches Some(Received::Beaver(d)) ==> cmd@ matches CmdView::BeaverExchange { sender_id, bit_size, a, b }
            && d.wf() && d@.len() == 2 && d@[0].nbits() == bit_size && d@[1].nbits() == bit_size && d@[0].bytes()
            == a.take(ceil8(bit_size as nat) as int) && d@[1].bytes() == b.take(ceil8(bit_size as nat) as int)
            && d@[0].zero_padded() && d@[1].zero_padded(),
        r matches Some(Received::Dabit(e)) ==> cmd@ matches CmdView::DabitExchange { sender_id, bit_size, data }
            && e.wf() && e.nbits() == bit_size && e.bytes() == data.take(ceil8(bit_size as nat) as int) && e.zero_padded(),
        r matches Some(Received::Commit(m)) ==> cmd matches Cmd::AggCommit { sender_id, commit } && m == commit,
{
    match cmd {
        Cmd::Handshake { peer_id } => None,
        Cmd::BeaverExchange { sender_id, beaver_bit_size, beaver_data_a, beaver_data_b } => {
            let n = beaver_bit_size as usize;
            if sender_id == owner_id || !BitArray::size_fits(n) {
                return None;
            }
            let bytes = n / 8 + if n % 8 != 0 {
                1
            } else {
                0
            };
            if beaver_data_a.len() < bytes || beaver_data_b.len() < bytes {
                return None;
            }
            let a = BitArray::from_byte_slice(beaver_data_a, n);
            let b = BitArray::from_byte_slice(beaver_data_b, n);
            Some(Received::Beaver(D2BitArray::new(vec![a, b])))
        },
        Cmd::DabitExchange { sender_id, dabit_bit_size, dabit_bool_data } => {
            let n = dabit_bit_size as usize;
            if sender_id == owner_id || !BitArray::size_fits(n) {
                return None;
            }
            let bytes = n / 8 + if n % 8 != 0 {
                1
            } else {
                0
            };
            if dabit_bool_data.len() < bytes {
                return None;
            }
            Some(Received::Dabit(BitArray::from_byte_slice(dabit_bool_data, n)))
        },
        Cmd::AggCommit { sender_id, commit } => {
            if sender_id == owner_id {
                None
            } else {
                Some(Received::Commit(commit))
            }
        },
    }
}

/// Bytes sent and received.
#[derive(Clone, Copy, Debug)]
pub struct NetStat {
    sent: u32,
    received: u32,
}

impl NetStat {
    /// Bytes sent.
    pub closed spec fn sent_bytes(&self) -> nat {
        self.sent as nat
    }

    /// Bytes received.
    pub closed spec fn received_bytes(&self) -> nat {
        self.received as nat
    }

    /// The statistics of `sent` bytes sent and `received` bytes received.
    pub fn new(sent: u32, received: u32) -> (r: Self)
        ensures
            r.sent_bytes() == sent,
            r.received_bytes() == received,
    {
        NetStat { sent, received }
    }

    /// The statistics of both: sent and received bytes add up.
    pub fn add(self, other: Self) -> (r: Self)
        requires
            self.sent_bytes() + other.sent_bytes() <= u32::MAX,
            self.received_bytes() + other.received_bytes() <= u32::MAX,
        ensures
            r.sent_bytes() == self.sent_bytes() + other.sent_bytes(),
            r.received_bytes() == self.received_bytes() + other.received_bytes(),
    {
        NetStat { sent: self.sent + other.sent, received: self.received + other.received }
    }

    /// The total number of bytes sent.
    pub fn get_sent(&self) -> (r: u32)
        ensures
            r == self.sent_bytes(),
    {
        self.sent
    }

    /// The total number of bytes received.
    pub fn get_received(&self) -> (r: u32)
        ensures
            r == self.received_bytes(),
    {
        self.received
    }
}

} // verus!
