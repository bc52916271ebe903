//! A layer of AND gates of a GMW computation: tickets reserve gate positions, operations
//! feed inputs into them, and Beaver triplets evaluate them.
use vstd::prelude::*;
use crate::cor_rnd::beaver::{beaver_relation, reconstructed_row, triplet_shaped, BeaverProvider};
use crate::simd_array::bit_array::{all_sized, bits_fit, xor_fold_arrays, zeros, BitArray};
use crate::simd_array::bit_spec::{
    align32, byte_bit, bytes_and, bytes_xor, ceil8, fold_xor, lemma_byte_ops, lemma_ceil8, lemma_fold_xor_bit,
    lemma_fold_xor_single, lemma_fold_xor_xor, lemma_xor_laws, seq_bit, xor_bools,
};
use crate::simd_array::d2_bit_array::{column, D2BitArray};
use vstd::arithmetic::div_mod::{lemma_div_pos_is_pos, lemma_multiply_divide_lt};

verus! {

/// The phases of a layer, in order.
#[derive(Debug, Clone, Copy, PartialEq, Eq, Structural)]
pub enum LayerState {
    Ticketing,
    DataInitialized,
    OperationsExecuted,
    SendingBeaverShares,
    BeaverSharesReceived,
    Finished,
}

/// A reservation of AND gates `[st_bit, end_bit)` in a layer; `st_bit` is byte aligned.
#[derive(Debug, Clone, Copy, PartialEq, Eq)]
pub struct Ticket {
    layer_num: usize,
    st_bit: usize,
    end_bit: usize,
}

impl Ticket {
    /// The layer of the ticket.
    pub closed spec fn layer(&self) -> nat {
        self.layer_num as nat
    }

    /// First gate.
    pub closed spec fn st(&self) -> nat {
        self.st_bit as nat
    }

    /// One past the last gate.
    pub closed spec fn end(&self) -> nat {
        self.end_bit as nat
    }

    /// A ticket is its layer, its first gate and its end.
    pub proof fn lemma_ticket_eq(a: Ticket, b: Ticket)
        requires
            a.layer() == b.layer(),
            a.st() == b.st(),
            a.end() == b.end(),
        ensures
            a == b,
    {
    }

    /// The start is byte aligned and not past the end.
    pub open spec fn wf(&self) -> bool {
        self.st() % 8 == 0 && self.st() <= self.end()
    }

    /// Whether the start is byte aligned and not past the end.
    pub fn is_wf(&self) -> (r: bool)
        ensures
            r == self.wf(),
    {
        self.st_bit % 8 == 0 && self.st_bit <= self.end_bit
    }

    /// The byte of the first gate.
    pub fn st_byte(&self) -> (r: usize)
        requires
            self.st() % 8 == 0,
        ensures
            r == self.st() / 8,
    {
        self.st_bit / 8
    }

    /// One past the byte of the last gate.
    pub fn end_byte(&self) -> (r: usize)
        ensures
            r == ceil8(self.end()),
    {
        self.end_bit / 8 + if self.end_bit % 8 != 0 {
            1
        } else {
            0
        }
    }
}

/// Input of an operation: a plaintext array, or the output of a ticket of the previous
/// layer.
pub enum LayerSource {
    Input(BitArray),
    TakeZ(Ticket),
}

/// Where an operation writes: stream 0 (X) or 1 (Y) of a ticket's gates, or nowhere.
pub enum LayerDest {
    Relay { ticket: Ticket, stream: u8 },
    Nowhere(),
}

/// Operations that move data into the input streams of the gates.
pub enum MpcOperation {
    /// Copies the input to the destination.
    Copy { inp: LayerSource, out: LayerDest },
    /// Writes the input `n` times in a row: [inp, inp, ..., inp].
    Replicate { n: usize, inp: LayerSource, out: LayerDest },
    /// Writes each bit of the input `n` times: [inp[0]] * n + [inp[1]] * n + ...
    BitExpand { n: usize, inp: LayerSource, out: LayerDest },
}

/// A layer of AND gates of one party.
pub struct Layer {
    party_const: bool,
    layer_num: usize,
    current_size: usize,
    state: LayerState,
    and_data: Option<D2BitArray>,
    beaver_data: Option<D2BitArray>,
    operations: Vec<MpcOperation>,
}

impl Layer {
    /// Whether this party adds the public constants.
    pub closed spec fn is_const(&self) -> bool {
        self.party_const
    }

    /// The position of the layer.
    pub closed spec fn num(&self) -> nat {
        self.layer_num as nat
    }

    /// Bytes of gates reserved.
    pub closed spec fn size(&self) -> nat {
        self.current_size as nat
    }

    /// The phase.
    pub closed spec fn phase(&self) -> LayerState {
        self.state
    }

    /// The X, Y and Z streams of the gates.
    pub closed spec fn and_rows(&self) -> Seq<BitArray> {
        match self.and_data {
            Some(d) => d@,
            None => Seq::empty(),
        }
    }

    /// The Beaver triplet rows of the gates.
    pub closed spec fn beaver_rows(&self) -> Seq<BitArray> {
        match self.beaver_data {
            Some(d) => d@,
            None => Seq::empty(),
        }
    }

    /// Operations added and not yet executed.
    pub closed spec fn ops(&self) -> Seq<MpcOperation> {
        self.operations@
    }

    /// Outside ticketing, both data sets are three well formed rows of `8 * size` bits.
    pub closed spec fn wf(&self) -> bool {
        &&& bits_fit(self.current_size as nat * 8)
        &&& self.state == LayerState::Ticketing <==> self.and_data is None
        &&& self.state == LayerState::Ticketing <==> self.beaver_data is None
        &&& self.and_data matches Some(d) ==> d.wf() && d@.len() == 3 && all_sized(d@, self.current_size as nat * 8)
        &&& self.beaver_data matches Some(d) ==> d.wf() && d@.len() == 3 && all_sized(d@, self.current_size as nat * 8)
    }

    pub proof fn lemma_wf(&self)
        requires
            self.wf(),
        ensures
            bits_fit(self.size() * 8),
            self.phase() == LayerState::Ticketing ==> self.and_rows().len() == 0 && self.beaver_rows().len() == 0,
            self.phase() != LayerState::Ticketing ==> self.and_rows().len() == 3 && self.beaver_rows().len() == 3
                && all_sized(self.and_rows(), self.size() * 8) && all_sized(self.beaver_rows(), self.size() * 8),
    {
    }

    /// Whether the ticket can be used on this layer now: data is initialized, the ticket is
    /// of this layer and within the reserved gates.
    pub open spec fn ticket_ok(&self, ticket: Ticket) -> bool {
        &&& (self.phase() == LayerState::DataInitialized || self.phase() == LayerState::Finished)
        &&& ticket_fits(self.num(), self.size(), ticket)
    }

    /// Whether the layer is finished: its outputs can be read.
    pub fn phase_is_finished(&self) -> (r: bool)
        ensures
            r == (self.phase() == LayerState::Finished),
    {
        self.state == LayerState::Finished
    }

    /// A new layer in the ticketing phase, with no gates.
    pub fn new(party_const: bool, layer_num: usize) -> (r: Self)
        ensures
            r.wf(),
            r.is_const() == party_const,
            r.num() == layer_num,
            r.size() == 0,
            r.phase() == LayerState::Ticketing,
            r.ops() == Seq::<MpcOperation>::empty(),
    {
        Layer {
            party_const,
            layer_num,
            current_size: 0,
            state: LayerState::Ticketing,
            and_data: None,
            beaver_data: None,
            operations: Vec::new(),
        }
    }

    /// Reserves `bit_size` gates from the next whole byte on.
    pub fn request_ticket(&mut self, bit_size: usize) -> (r: Ticket)
        requires
            old(self).wf(),
            old(self).phase() == LayerState::Ticketing,
            bits_fit((old(self).size() + ceil8(bit_size as nat)) * 8),
        ensures
            final(self).wf(),
            final(self).size() == old(self).size() + ceil8(bit_size as nat),
            final(self).phase() == old(self).phase(),
            final(self).is_const() == old(self).is_const(),
            final(self).num() == old(self).num(),
            final(self).ops() == old(self).ops(),
            r.layer() == old(self).num(),
            r.st() == old(self).size() * 8,
            r.end() == old(self).size() * 8 + bit_size,
            r.wf(),
    {
        proof {
            lemma_ceil8(bit_size as nat);
        }
        let st_bit = self.current_size * 8;
        let end_bit = st_bit + bit_size;
        let byte_size = bit_size / 8 + if bit_size % 8 != 0 {
            1
        } else {
            0
        };
        self.current_size = self.current_size + byte_size;
        Ticket { layer_num: self.layer_num, st_bit, end_bit }
    }

    /// Adds an operation to run when the layer executes.
    pub fn add_operation(&mut self, op: MpcOperation)
        requires
            old(self).wf(),
            old(self).phase() == LayerState::Ticketing,
        ensures
            final(self).wf(),
            final(self).size() == old(self).size(),
            final(self).phase() == old(self).phase(),
            final(self).is_const() == old(self).is_const(),
            final(self).num() == old(self).num(),
            final(self).ops() == old(self).ops().push(op),
    {
        self.operations.push(op);
    }

    /// Checks a ticket before it is used: its layer is this one, the layer has its data and
    /// the ticket's bytes lie within the layer's gates. The checks are the precondition, so
    /// nothing is left to do at run time.
    pub fn check_ticket(&self, ticket: &Ticket)
        requires
            self.ticket_ok(*ticket),
    {
    }

    /// Whether the ticket can be used on this layer now.
    pub fn ticket_accepted(&self, ticket: &Ticket) -> (r: bool)
        ensures
            r == self.ticket_ok(*ticket),
    {
        if (self.state != LayerState::DataInitialized) && (self.state != LayerState::Finished) {
            return false;
        }
        if ticket.layer_num != self.layer_num {
            return false;
        }
        if ticket.end_byte() > self.current_size {
            return false;
        }
        true
    }

    /// The Z stream of the ticket's gates, as a new array of the ticket's size.
    pub fn read_output(&self, ticket: &Ticket) -> (r: BitArray)
        requires
            self.wf(),
            self.phase() == LayerState::Finished,
            self.ticket_ok(*ticket),
            ticket.wf(),
        ensures
            r.wf(),
            r.nbits() == ticket.end() - ticket.st(),
            r.zero_padded(),
            r.bytes() == self.and_rows()[2].bytes().subrange((ticket.st() / 8) as int, ceil8(ticket.end()) as int),
            forall|j: int|
                0 <= j < ticket.end() - ticket.st() ==> #[trigger] r.bit(j) == seq_bit(
                    self.and_rows()[2].buf(),
                    ticket.st() + j,
                ),
    {
        let d = self.and_data.as_ref().unwrap();
        let z = d.get_array(2);
        let st = ticket.st_byte();
        let end = ticket.end_byte();
        proof {
            z.lemma_wf();
            lemma_ceil8(ticket.end());
            lemma_ceil8((ticket.end() - ticket.st()) as nat);
            assert(ceil8((ticket.end() - ticket.st()) as nat) == end - st);
        }
        let mut out = z.to_slice(st, end);
        let ghost sliced = out.buf();
        proof {
            out.lemma_wf();
        }
        out.shrink_to_partial_last_byte(ticket.end_bit - ticket.st_bit);
        proof {
            assert forall|j: int| 0 <= j < ticket.end() - ticket.st() implies #[trigger] out.bit(j) == seq_bit(
                z.buf(),
                ticket.st() + j,
            ) by {
                assert(j / 8 < end - st);
                assert(out.bytes()[j / 8] == z.bytes()[st + j / 8]);
                assert((ticket.st() + j) / 8 == st + j / 8);
                assert((ticket.st() + j) % 8 == j % 8);
            }
        }
        out
    }
}


/// The ticket is of layer `num` and within its `size` bytes of gates.
pub open spec fn ticket_fits(num: nat, size: nat, ticket: Ticket) -> bool {
    &&& ticket.layer() == num
    &&& ceil8(ticket.end()) <= size
}

/// What holds of every array and layer the library builds: an input array, or the previous
/// layer, is well formed.
pub open spec fn src_wf(inp: &LayerSource, prev: Option<&Layer>) -> bool {
    match inp {
        LayerSource::Input(d) => d.wf(),
        LayerSource::TakeZ(t) => prev matches Some(p) ==> p.wf(),
    }
}

/// The ticket of an input names the output of the finished previous layer.
pub open spec fn src_fits(inp: &LayerSource, prev: Option<&Layer>) -> bool {
    match inp {
        LayerSource::Input(d) => true,
        LayerSource::TakeZ(t) => prev matches Some(p) && p.phase() == LayerState::Finished && p.ticket_ok(*t)
            && t.wf(),
    }
}

/// The input of an operation can be read: a well formed array, or a valid ticket of a
/// finished previous layer.
pub open spec fn src_ok(inp: &LayerSource, prev: Option<&Layer>) -> bool {
    src_wf(inp, prev) && src_fits(inp, prev)
}

/// Number of bits of the input of an operation.
pub open spec fn src_len(inp: &LayerSource, prev: Option<&Layer>) -> nat {
    match inp {
        LayerSource::Input(d) => d.nbits(),
        LayerSource::TakeZ(t) => (t.end() - t.st()) as nat,
    }
}

/// Bit `j` of the input of an operation.
pub open spec fn src_bit(inp: &LayerSource, prev: Option<&Layer>, j: int) -> bool {
    match inp {
        LayerSource::Input(d) => d.bit(j),
        LayerSource::TakeZ(t) => seq_bit(prev.unwrap().and_rows()[2].buf(), t.st() + j),
    }
}

/// The storage of the array that reading the input of an operation gives: an input array
/// as it is; for a ticket, the bytes of the Z stream under its gates, then zero bytes up to
/// whole chunks.
pub open spec fn src_buf(inp: &LayerSource, prev: Option<&Layer>) -> Seq<u8> {
    match inp {
        LayerSource::Input(d) => d.buf(),
        LayerSource::TakeZ(t) => {
            let b = prev.unwrap().and_rows()[2].bytes().subrange((t.st() / 8) as int, ceil8(t.end()) as int);
            b + zeros((align32(b.len()) - b.len()) as nat)
        },
    }
}

/// The destination is stream X or Y of a ticket of layer `num` of `size` bytes.
pub open spec fn dest_fits(num: nat, size: nat, dest: &LayerDest) -> bool {
    match dest {
        LayerDest::Relay { ticket, stream } => *stream < 2 && ticket_fits(num, size, *ticket),
        LayerDest::Nowhere() => false,
    }
}

/// The destination is a stream of a usable ticket of the layer.
pub open spec fn dest_ok(layer: &Layer, dest: &LayerDest) -> bool {
    &&& (layer.phase() == LayerState::DataInitialized || layer.phase() == LayerState::Finished)
    &&& dest_fits(layer.num(), layer.size(), dest)
}

/// The first gate written by an operation.
pub open spec fn dest_start(dest: &LayerDest) -> nat {
    match dest {
        LayerDest::Relay { ticket, stream } => ticket.st(),
        LayerDest::Nowhere() => 0,
    }
}

/// The stream written by an operation.
pub open spec fn dest_stream(dest: &LayerDest) -> int {
    match dest {
        LayerDest::Relay { ticket, stream } => *stream as int,
        LayerDest::Nowhere() => 0,
    }
}

/// The input of an operation.
pub open spec fn op_src(op: &MpcOperation) -> &LayerSource {
    match op {
        MpcOperation::Copy { inp, out } => inp,
        MpcOperation::Replicate { n, inp, out } => inp,
        MpcOperation::BitExpand { n, inp, out } => inp,
    }
}

/// The destination of an operation.
pub open spec fn op_dest(op: &MpcOperation) -> &LayerDest {
    match op {
        MpcOperation::Copy { inp, out } => out,
        MpcOperation::Replicate { n, inp, out } => out,
        MpcOperation::BitExpand { n, inp, out } => out,
    }
}

/// Number of bits an operation writes.
pub open spec fn op_extent(op: &MpcOperation, prev: Option<&Layer>) -> nat {
    match op {
        MpcOperation::Copy { inp, out } => src_len(inp, prev),
        MpcOperation::Replicate { n, inp, out } => (*n as nat) * src_len(inp, prev),
        MpcOperation::BitExpand { n, inp, out } => src_len(inp, prev) * (*n as nat),
    }
}

/// The bit an operation writes at offset `q` from its first gate.
pub open spec fn op_value(op: &MpcOperation, prev: Option<&Layer>, q: int) -> bool {
    match op {
        MpcOperation::Copy { inp, out } => src_bit(inp, prev, q),
        MpcOperation::Replicate { n, inp, out } => src_bit(inp, prev, q % (src_len(inp, prev) as int)),
        MpcOperation::BitExpand { n, inp, out } => src_bit(inp, prev, q / (*n as int)),
    }
}

/// The operation can run on the layer: its input can be read, its destination is usable
/// and what it writes stays within the reserved gates.
pub open spec fn op_ok(layer: &Layer, op: &MpcOperation, prev: Option<&Layer>) -> bool {
    &&& src_wf(op_src(op), prev)
    &&& (layer.phase() == LayerState::DataInitialized || layer.phase() == LayerState::Finished)
    &&& op_fits(layer.num(), layer.size(), op, prev)
}

/// The part of `op_ok` that does not depend on the phase or on well formedness: the input
/// can be read, the destination is a stream of a ticket of layer `num` of `size` bytes and
/// what the operation writes stays within those gates.
pub open spec fn op_fits(num: nat, size: nat, op: &MpcOperation, prev: Option<&Layer>) -> bool {
    &&& src_fits(op_src(op), prev)
    &&& dest_fits(num, size, op_dest(op))
    &&& dest_start(op_dest(op)) + op_extent(op, prev) <= size * 8
    &&& op matches MpcOperation::BitExpand { n, inp, out } ==> *n > 0 && bits_fit(*n as nat)
}

/// `new` is `old` after the operation: the destination stream holds the written bits in
/// the operation's range and keeps its other bits; the other streams are unchanged.
pub open spec fn op_applied(old: Seq<BitArray>, new: Seq<BitArray>, op: &MpcOperation, prev: Option<&Layer>) -> bool {
    let s = dest_stream(op_dest(op));
    let st = dest_start(op_dest(op)) as int;
    let ext = op_extent(op, prev) as int;
    &&& new.len() == old.len()
    &&& forall|r: int| 0 <= r < old.len() && r != s ==> #[trigger] new[r] == old[r]
    &&& new[s].wf()
    &&& new[s].nbits() == old[s].nbits()
    &&& new[s].buf().len() == old[s].buf().len()
    &&& forall|j: int|
        0 <= j < old[s].buf().len() * 8 ==> #[trigger] seq_bit(new[s].buf(), j) == if st <= j < st + ext {
            op_value(op, prev, j - st)
        } else {
            seq_bit(old[s].buf(), j)
        }
}

/// `states[i]` is `states[i + 1]` after `ops[i]`, for every operation.
pub open spec fn op_chain(states: Seq<Seq<BitArray>>, ops: Seq<MpcOperation>, prev: Option<&Layer>) -> bool {
    &&& states.len() == ops.len() + 1
    &&& forall|i: int| 0 <= i < ops.len() ==> op_applied(states[i + 1], states[i], #[trigger] &ops[i], prev)
}

/// `new` is `old` after running all of `ops`, the last one first.
pub open spec fn ops_applied(old: Seq<BitArray>, new: Seq<BitArray>, ops: Seq<MpcOperation>, prev: Option<&Layer>) -> bool {
    exists|states: Seq<Seq<BitArray>>|
        #[trigger] op_chain(states, ops, prev) && states[0] == new && states[ops.len() as int] == old
}

/// Writes `data` `n` times in a row from bit `start` on.
fn replicate_into(dest: &mut BitArray, start: usize, n: usize, data: &BitArray)
    requires
        old(dest).wf(),
        data.wf(),
        start + n * data.nbits() <= old(dest).nbits(),
    ensures
        final(dest).wf(),
        final(dest).nbits() == old(dest).nbits(),
        final(dest).buf().len() == old(dest).buf().len(),
        forall|j: int|
            0 <= j < old(dest).buf().len() * 8 ==> #[trigger] seq_bit(final(dest).buf(), j) == if start <= j < start + n * data.nbits() {
                data.bit((j - start) % (data.nbits() as int))
            } else {
                seq_bit(old(dest).buf(), j)
            },
{
    let len = data.bit_size();
    let ghost old_buf = dest.buf();
    let mut i: usize = 0;
    while i < n
        invariant
            dest.wf(),
            data.wf(),
            len == data.nbits(),
            dest.nbits() == old(dest).nbits(),
            dest.buf().len() == old_buf.len(),
            old_buf == old(dest).buf(),
            start + n * len <= dest.nbits(),
            i <= n,
            forall|j: int|
                0 <= j < old_buf.len() * 8 ==> #[trigger] seq_bit(dest.buf(), j) == if start <= j < start + i * len {
                    data.bit((j - start) % (len as int))
                } else {
                    seq_bit(old_buf, j)
                },
        decreases n - i,
    {
        proof {
            assert(i * len + len <= n * len) by (nonlinear_arith)
                requires
                    i < n,
            ;
            dest.lemma_wf();
            lemma_ceil8(dest.nbits());
        }
        let at = start + i * len;
        let ghost before = dest.buf();
        dest.copy_from(at, data);
        proof {
            assert forall|j: int| 0 <= j < old_buf.len() * 8 implies #[trigger] seq_bit(dest.buf(), j) == if start <= j < start + (i + 1) * len {
                data.bit((j - start) % (len as int))
            } else {
                seq_bit(old_buf, j)
            } by {
                assert(dest.bit(j) == seq_bit(dest.buf(), j));
                if at <= j < at + len {
                    let q = j - at;
                    assert(j - start == i * len + q);
                    assert((i * len + q) % (len as int) == q) by {
                        vstd::arithmetic::div_mod::lemma_fundamental_div_mod_converse(i * len + q, len as int, i as int, q);
                    }
                }
                assert(start + (i + 1) * len == start + i * len + len) by (nonlinear_arith);
            }
        }
        i += 1;
    }
}

/// Writes each bit of `data` `n` times from bit `start` on, copying `ones` or `zeroes`.
fn expand_into(dest: &mut BitArray, start: usize, data: &BitArray, zeroes: &BitArray, ones: &BitArray)
    requires
        old(dest).wf(),
        data.wf(),
        zeroes.wf(),
        ones.wf(),
        zeroes.nbits() == ones.nbits(),
        zeroes.nbits() > 0,
        forall|j: int| 0 <= j < zeroes.nbits() ==> !(#[trigger] zeroes.bit(j)),
        forall|j: int| 0 <= j < ones.nbits() ==> #[trigger] ones.bit(j),
        start + data.nbits() * zeroes.nbits() <= old(dest).nbits(),
    ensures
        final(dest).wf(),
        final(dest).nbits() == old(dest).nbits(),
        final(dest).buf().len() == old(dest).buf().len(),
        forall|j: int|
            0 <= j < old(dest).buf().len() * 8 ==> #[trigger] seq_bit(final(dest).buf(), j) == if start <= j < start + data.nbits() * zeroes.nbits() {
                data.bit((j - start) / (zeroes.nbits() as int))
            } else {
                seq_bit(old(dest).buf(), j)
            },
{
    let n = zeroes.bit_size();
    let len = data.bit_size();
    let ghost old_buf = dest.buf();
    let mut i: usize = 0;
    while i < len
        invariant
            dest.wf(),
            data.wf(),
            zeroes.wf(),
            ones.wf(),
            n == zeroes.nbits(),
            n == ones.nbits(),
            n > 0,
            forall|j: int| 0 <= j < zeroes.nbits() ==> !(#[trigger] zeroes.bit(j)),
            forall|j: int| 0 <= j < ones.nbits() ==> #[trigger] ones.bit(j),
            len == data.nbits(),
            dest.nbits() == old(dest).nbits(),
            dest.buf().len() == old_buf.len(),
            old_buf == old(dest).buf(),
            start + len * n <= dest.nbits(),
            i <= len,
            forall|j: int|
                0 <= j < old_buf.len() * 8 ==> #[trigger] seq_bit(dest.buf(), j) == if start <= j < start + i * n {
                    data.bit((j - start) / (n as int))
                } else {
                    seq_bit(old_buf, j)
                },
        decreases len - i,
    {
        proof {
            assert(i * n + n <= len * n) by (nonlinear_arith)
                requires
                    i < len,
            ;
            dest.lemma_wf();
            lemma_ceil8(dest.nbits());
        }
        let at = start + i * n;
        let v = data.get(i);
        let ghost before = dest.buf();
        if v {
            dest.copy_from(at, ones);
        } else {
            dest.copy_from(at, zeroes);
        }
        proof {
            assert forall|j: int| 0 <= j < old_buf.len() * 8 implies #[trigger] seq_bit(dest.buf(), j) == if start <= j < start + (i + 1) * n {
                data.bit((j - start) / (n as int))
            } else {
                seq_bit(old_buf, j)
            } by {
                assert(dest.bit(j) == seq_bit(dest.buf(), j));
                if at <= j < at + n {
                    let q = j - at;
                    assert(j - start == i * n + q);
                    assert((i * n + q) / (n as int) == i) by {
                        vstd::arithmetic::div_mod::lemma_fundamental_div_mod_converse(i * n + q, n as int, i as int, q);
                    }
                    if v {
                        assert(ones.bit(q));
                    } else {
                        assert(!zeroes.bit(q));
                    }
                }
                assert(start + (i + 1) * n == start + i * n + n) by (nonlinear_arith);
            }
        }
        i += 1;
    }
}

impl Layer {
    /// Only the data sets differ between the two layers.
    pub open spec fn same_but_data(&self, other: &Layer) -> bool {
        &&& self.is_const() == other.is_const()
        &&& self.num() == other.num()
        &&& self.size() == other.size()
        &&& self.phase() == other.phase()
        &&& self.ops() == other.ops()
    }

    /// The input of an operation as an array: the array itself, or the output of the
    /// ticket in the previous layer.
    pub fn extract_src_data(inp: LayerSource, prev_layer: Option<&Layer>) -> (r: BitArray)
        requires
            src_ok(&inp, prev_layer),
        ensures
            r.wf(),
            r.nbits() == src_len(&inp, prev_layer),
            forall|j: int| 0 <= j < r.nbits() ==> #[trigger] r.bit(j) == src_bit(&inp, prev_layer, j),
            r.buf() == src_buf(&inp, prev_layer),
            inp matches LayerSource::Input(d) ==> r == d,
    {
        match inp {
            LayerSource::Input(data) => data,
            LayerSource::TakeZ(ticket) => {
                let p = prev_layer.unwrap();
                let out = p.read_output(&ticket);
                proof {
                    out.lemma_zero_padded_buf();
                    out.lemma_wf();
                    let b = p.and_rows()[2].bytes().subrange((ticket.st() / 8) as int, ceil8(ticket.end()) as int);
                    assert(out.bytes() == b);
                    assert(out.bytes().len() == out.nbytes());
                    assert(out.buf() == src_buf(&LayerSource::TakeZ(ticket), prev_layer));
                }
                out
            },
        }
    }

    /// The first gate of the destination and its stream, mutably.
    pub fn get_mut_array_from_destination(&mut self, dest: LayerDest) -> (r: (usize, &mut BitArray))
        requires
            old(self).wf(),
            dest_ok(old(self), &dest),
        ensures
            r.0 == dest_start(&dest),
            *r.1 == old(self).and_rows()[dest_stream(&dest)],
            final(self).same_but_data(old(self)),
            final(self).beaver_rows() == old(self).beaver_rows(),
            final(self).and_rows() == old(self).and_rows().update(dest_stream(&dest), *final(r.1)),
            final(r.1).wf() && final(r.1).nbits() == old(self).and_rows()[dest_stream(&dest)].nbits() ==> final(self).wf(),
    {
        let (ticket, stream) = match dest {
            LayerDest::Relay { ticket, stream } => (ticket, stream),
            LayerDest::Nowhere() => {
                proof {
                    assert(false);
                }
                vstd::pervasive::unreached()
            },
        };
        let d = self.and_data.as_mut().unwrap();
        let arr = d.get_mut_array(stream as usize);
        (ticket.st_bit, arr)
    }
}

proof fn lemma_const_bytes(k: int)
    requires
        0 <= k < 8,
    ensures
        crate::simd_array::bit_spec::byte_bit(0xFFu8, k),
        !crate::simd_array::bit_spec::byte_bit(0u8, k),
{
    let kk = k as u8;
    assert(((0xFFu8 >> kk) & 1u8) == 1u8) by (bit_vector)
        requires
            kk < 8,
    ;
    assert(((0u8 >> kk) & 1u8) == 0u8) by (bit_vector);
}

/// Byte `i` of the storages of `s`, one per array.
pub open spec fn byte_column(s: Seq<BitArray>, i: int) -> Seq<u8> {
    Seq::new(s.len(), |p: int| s[p].buf()[i])
}

/// Byte `i` of a fold is the start's byte xored with the bytes `i` of the arrays.
proof fn lemma_fold_byte(acc: Seq<u8>, s: Seq<BitArray>, i: int)
    requires
        0 <= i < acc.len(),
        forall|p: int| 0 <= p < s.len() ==> (#[trigger] s[p]).buf().len() == acc.len(),
    ensures
        xor_fold_arrays(acc, s)[i] == acc[i] ^ fold_xor(byte_column(s, i)),
    decreases s.len(),
{
    if s.len() == 0 {
        let a = acc[i];
        lemma_xor_laws(a, 0u8, 0u8);
    } else {
        let t = s.drop_last();
        lemma_fold_byte(acc, t, i);
        lemma_fold_len(acc, t);
        assert(byte_column(s, i).drop_last() =~= byte_column(t, i));
        let (a, b, c) = (acc[i], fold_xor(byte_column(t, i)), s.last().buf()[i]);
        lemma_xor_laws(a, b, c);
    }
}

/// Xor-folding is the same with one byte taken out and xored in first.
proof fn lemma_fold_xor_remove(t: Seq<u8>, p: int)
    requires
        0 <= p < t.len(),
    ensures
        fold_xor(t) == t[p] ^ fold_xor(t.remove(p)),
    decreases t.len(),
{
    let d = t.drop_last();
    if p == t.len() - 1 {
        assert(t.remove(p) =~= d);
        let (a, b) = (fold_xor(d), t.last());
        lemma_xor_laws(a, b, 0u8);
    } else {
        lemma_fold_xor_remove(d, p);
        assert(t.remove(p) =~= d.remove(p).push(t.last()));
        assert(t.remove(p).drop_last() =~= d.remove(p));
        let (a, b, c) = (t[p], fold_xor(d.remove(p)), t.last());
        lemma_xor_laws(a, b, c);
    }
}

/// Anding every byte with `c` ands the xor-fold with `c`.
proof fn lemma_fold_xor_and(c: u8, t: Seq<u8>)
    ensures
        fold_xor(Seq::new(t.len(), |q: int| c & t[q])) == c & fold_xor(t),
    decreases t.len(),
{
    let ct = Seq::new(t.len(), |q: int| c & t[q]);
    if t.len() == 0 {
        lemma_xor_laws(c, 0u8, 0u8);
    } else {
        let d = t.drop_last();
        lemma_fold_xor_and(c, d);
        assert(ct.drop_last() =~= Seq::new(d.len(), |q: int| c & d[q]));
        let (a, b) = (fold_xor(d), t.last());
        lemma_xor_laws(a, b, c);
    }
}

/// Byte `i` of stream `st` of the gates, xored over the layers of all parties.
pub open spec fn xor_stream_byte(layers: Seq<Layer>, st: int, i: int) -> u8 {
    fold_xor(Seq::new(layers.len(), |p: int| layers[p].and_rows()[st].buf()[i]))
}

/// One AND exchange of a layer over all parties. Parties `0..n` hold layers of the same size
/// as `prepare_exchange` leaves them, their Beaver rows taken at the same offset `used` from
/// triplets that satisfy the Beaver relation over all parties, and no Z gate written before
/// the exchange; party `p` sent `sent[p]` and completes the exchange with the shares of the
/// others, in order, only party `k` adding the constants. Then on every byte of gates the Z
/// shares xor to the and of the xors of the X shares and of the Y shares.
pub proof fn lemma_layer_exchange(
    prepared: Seq<Layer>,
    finished: Seq<Layer>,
    sent: Seq<D2BitArray>,
    stores: Seq<D2BitArray>,
    used: nat,
    k: int,
)
    requires
        prepared.len() > 0,
        finished.len() == prepared.len(),
        sent.len() == prepared.len(),
        stores.len() == prepared.len(),
        0 <= k < prepared.len(),
        forall|p: int|
            0 <= p < prepared.len() ==> (#[trigger] prepared[p]).wf() && prepared[p].phase() == LayerState::SendingBeaverShares
                && prepared[p].size() == prepared[0].size() && prepared[p].is_const() == (p == k),
        forall|p: int|
            0 <= p < prepared.len() ==> #[trigger] prepared[p].and_rows()[2].buf() == zeros(prepared[p].and_rows()[2].buf().len()),
        forall|p: int|
            0 <= p < stores.len() ==> (#[trigger] stores[p]).wf() && triplet_shaped(stores[p]) && stores[p]@[0].nbits()
                == stores[0]@[0].nbits(),
        used + prepared[0].size() <= stores[0]@[0].nbytes(),
        beaver_relation(stores[0], stores.drop_first()),
        forall|p: int, j: int|
            0 <= p < prepared.len() && 0 <= j < 3 ==> #[trigger] prepared[p].beaver_rows()[j].bytes() == if j < 2 {
                bytes_xor(
                    stores[p]@[j].bytes().subrange(used as int, (used + prepared[0].size()) as int),
                    prepared[p].and_rows()[j].bytes(),
                )
            } else {
                stores[p]@[j].bytes().subrange(used as int, (used + prepared[0].size()) as int)
            },
        forall|p: int|
            0 <= p < sent.len() ==> (#[trigger] sent[p])@.len() == 2 && sent[p]@[0].buf() == prepared[p].beaver_rows()[0].buf()
                && sent[p]@[1].buf() == prepared[p].beaver_rows()[1].buf(),
        forall|p: int|
            0 <= p < finished.len() ==> #[trigger] finished[p].and_rows()[2].buf() == gmw_z_share(
                prepared[p].is_const(),
                prepared[p].and_rows()[2].buf(),
                xor_fold_arrays(prepared[p].beaver_rows()[0].buf(), column(sent.remove(p), 0)),
                xor_fold_arrays(prepared[p].beaver_rows()[1].buf(), column(sent.remove(p), 1)),
                prepared[p].and_rows()[0].buf(),
                prepared[p].and_rows()[1].buf(),
                prepared[p].beaver_rows()[2].buf(),
            ),
    ensures
        forall|i: int|
            0 <= i < prepared[0].size() ==> #[trigger] xor_stream_byte(finished, 2, i) == xor_stream_byte(prepared, 0, i)
                & xor_stream_byte(prepared, 1, i),
{
    let n = prepared.len() as int;
    let size = prepared[0].size() as int;
    assert forall|i: int| 0 <= i < size implies #[trigger] xor_stream_byte(finished, 2, i) == xor_stream_byte(prepared, 0, i)
        & xor_stream_byte(prepared, 1, i) by {
        lemma_exchange_byte(prepared, finished, sent, stores, used, k, i);
    }
}

/// The exchange law on byte `i`.
proof fn lemma_exchange_byte(
    prepared: Seq<Layer>,
    finished: Seq<Layer>,
    sent: Seq<D2BitArray>,
    stores: Seq<D2BitArray>,
    used: nat,
    k: int,
    i: int,
)
    requires
        prepared.len() > 0,
        finished.len() == prepared.len(),
        sent.len() == prepared.len(),
        stores.len() == prepared.len(),
        0 <= k < prepared.len(),
        0 <= i < prepared[0].size(),
        forall|p: int|
            0 <= p < prepared.len() ==> (#[trigger] prepared[p]).wf() && prepared[p].phase() == LayerState::SendingBeaverShares
                && prepared[p].size() == prepared[0].size() && prepared[p].is_const() == (p == k),
        forall|p: int|
            0 <= p < prepared.len() ==> #[trigger] prepared[p].and_rows()[2].buf() == zeros(prepared[p].and_rows()[2].buf().len()),
        forall|p: int|
            0 <= p < stores.len() ==> (#[trigger] stores[p]).wf() && triplet_shaped(stores[p]) && stores[p]@[0].nbits()
                == stores[0]@[0].nbits(),
        used + prepared[0].size() <= stores[0]@[0].nbytes(),
        beaver_relation(stores[0], stores.drop_first()),
        forall|p: int, j: int|
            0 <= p < prepared.len() && 0 <= j < 3 ==> #[trigger] prepared[p].beaver_rows()[j].bytes() == if j < 2 {
                bytes_xor(
                    stores[p]@[j].bytes().subrange(used as int, (used + prepared[0].size()) as int),
                    prepared[p].and_rows()[j].bytes(),
                )
            } else {
                stores[p]@[j].bytes().subrange(used as int, (used + prepared[0].size()) as int)
            },
        forall|p: int|
            0 <= p < sent.len() ==> (#[trigger] sent[p])@.len() == 2 && sent[p]@[0].buf() == prepared[p].beaver_rows()[0].buf()
                && sent[p]@[1].buf() == prepared[p].beaver_rows()[1].buf(),
        forall|p: int|
            0 <= p < finished.len() ==> #[trigger] finished[p].and_rows()[2].buf() == gmw_z_share(
                prepared[p].is_const(),
                prepared[p].and_rows()[2].buf(),
                xor_fold_arrays(prepared[p].beaver_rows()[0].buf(), column(sent.remove(p), 0)),
                xor_fold_arrays(prepared[p].beaver_rows()[1].buf(), column(sent.remove(p), 1)),
                prepared[p].and_rows()[0].buf(),
                prepared[p].and_rows()[1].buf(),
                prepared[p].beaver_rows()[2].buf(),
            ),
    ensures
        xor_stream_byte(finished, 2, i) == xor_stream_byte(prepared, 0, i) & xor_stream_byte(prepared, 1, i),
{
    let n = prepared.len() as int;
    let size = prepared[0].size();
    let m = used + i;
    // Layouts.
    assert forall|p: int| 0 <= p < n implies {
        &&& (#[trigger] prepared[p]).and_rows().len() == 3
        &&& prepared[p].beaver_rows().len() == 3
        &&& forall|j: int| 0 <= j < 3 ==> prepared[p].and_rows()[j].buf().len() == prepared[0].and_rows()[0].buf().len()
            && prepared[p].beaver_rows()[j].buf().len() == prepared[0].and_rows()[0].buf().len()
            && prepared[p].and_rows()[j].nbytes() == size && prepared[p].beaver_rows()[j].nbytes() == size
    } by {
        prepared[p].lemma_wf();
        prepared[0].lemma_wf();
        lemma_ceil8(size * 8);
        assert forall|j: int| 0 <= j < 3 implies prepared[p].and_rows()[j].buf().len() == prepared[0].and_rows()[0].buf().len()
            && prepared[p].beaver_rows()[j].buf().len() == prepared[0].and_rows()[0].buf().len()
            && prepared[p].and_rows()[j].nbytes() == size && prepared[p].beaver_rows()[j].nbytes() == size by {
            BitArray::lemma_same_layout(&prepared[p].and_rows()[j], &prepared[0].and_rows()[0]);
            BitArray::lemma_same_layout(&prepared[p].beaver_rows()[j], &prepared[0].and_rows()[0]);
            prepared[0].and_rows()[0].lemma_wf();
        }
    }
    let len = prepared[0].and_rows()[0].buf().len();
    assert(i < len) by {
        prepared[0].and_rows()[0].lemma_wf();
    }
    assert forall|p: int, j: int| 0 <= p < n && 0 <= j < 3 implies (#[trigger] stores[p]@[j]).buf().len() == stores[0]@[0].buf().len()
        && stores[p]@[j].nbytes() == stores[0]@[0].nbytes() by {
        BitArray::lemma_same_layout(&stores[p]@[j], &stores[0]@[0]);
    }
    assert(m < stores[0]@[0].buf().len()) by {
        stores[0]@[0].lemma_wf();
    }
    // The bytes of each party.
    let xs = Seq::new(n as nat, |p: int| prepared[p].and_rows()[0].buf()[i]);
    let ys = Seq::new(n as nat, |p: int| prepared[p].and_rows()[1].buf()[i]);
    let as_ = Seq::new(n as nat, |p: int| stores[p]@[0].buf()[m]);
    let bs = Seq::new(n as nat, |p: int| stores[p]@[1].buf()[m]);
    let cs = Seq::new(n as nat, |p: int| stores[p]@[2].buf()[m]);
    let ubs = Seq::new(n as nat, |p: int| prepared[p].beaver_rows()[0].buf()[i]);
    let vbs = Seq::new(n as nat, |p: int| prepared[p].beaver_rows()[1].buf()[i]);
    assert forall|p: int| 0 <= p < n implies #[trigger] ubs[p] == as_[p] ^ xs[p] && vbs[p] == bs[p] ^ ys[p]
        && prepared[p].beaver_rows()[2].buf()[i] == cs[p] && prepared[p].and_rows()[2].buf()[i] == 0u8 by {
        assert(prepared[p].and_rows().len() == 3);
        prepared[p].lemma_wf();
        prepared[p].beaver_rows()[0].lemma_wf();
        prepared[p].beaver_rows()[1].lemma_wf();
        prepared[p].beaver_rows()[2].lemma_wf();
        assert(prepared[p].beaver_rows()[0].nbytes() == size);
        assert(prepared[p].beaver_rows()[1].nbytes() == size);
        assert(prepared[p].beaver_rows()[2].nbytes() == size);
        assert(prepared[p].and_rows()[0].nbytes() == size);
        assert(prepared[p].and_rows()[1].nbytes() == size);
        assert(prepared[p].and_rows()[2].nbytes() == size);
        stores[p]@[0].lemma_wf();
        stores[p]@[1].lemma_wf();
        stores[p]@[2].lemma_wf();
        assert(stores[p]@[0].nbytes() == stores[0]@[0].nbytes());
        assert(stores[p]@[1].nbytes() == stores[0]@[0].nbytes());
        assert(stores[p]@[2].nbytes() == stores[0]@[0].nbytes());
        assert(prepared[p].beaver_rows()[0].bytes()[i] == prepared[p].beaver_rows()[0].buf()[i]);
        assert(prepared[p].beaver_rows()[1].bytes()[i] == prepared[p].beaver_rows()[1].buf()[i]);
        assert(prepared[p].beaver_rows()[2].bytes()[i] == prepared[p].beaver_rows()[2].buf()[i]);
        assert(prepared[p].and_rows()[0].bytes()[i] == prepared[p].and_rows()[0].buf()[i]);
        assert(prepared[p].and_rows()[1].bytes()[i] == prepared[p].and_rows()[1].buf()[i]);
        assert(stores[p]@[0].bytes()[m] == stores[p]@[0].buf()[m]);
        assert(stores[p]@[1].bytes()[m] == stores[p]@[1].buf()[m]);
        assert(stores[p]@[2].bytes()[m] == stores[p]@[2].buf()[m]);
        assert(prepared[p].beaver_rows()[0].bytes() == bytes_xor(
            stores[p]@[0].bytes().subrange(used as int, (used + size) as int),
            prepared[p].and_rows()[0].bytes(),
        ));
        assert(prepared[p].beaver_rows()[1].bytes() == bytes_xor(
            stores[p]@[1].bytes().subrange(used as int, (used + size) as int),
            prepared[p].and_rows()[1].bytes(),
        ));
        assert(prepared[p].beaver_rows()[2].bytes() == stores[p]@[2].bytes().subrange(used as int, (used + size) as int));
    }
    assert forall|p: int| 0 <= p < n implies #[trigger] vbs[p] == bs[p] ^ ys[p] by {
        assert(ubs[p] == as_[p] ^ xs[p]);
    }
    assert(ubs =~= bytes_xor(as_, xs));
    assert(vbs =~= bytes_xor(bs, ys));
    lemma_fold_xor_xor(as_, xs);
    lemma_fold_xor_xor(bs, ys);
    let u = fold_xor(ubs);
    let v = fold_xor(vbs);
    // The Beaver relation on byte `m`.
    let rest = stores.drop_first();
    assert forall|j: int| 0 <= j < 3 implies #[trigger] reconstructed_row(stores[0], rest, j)[m] == fold_xor(
        Seq::new(n as nat, |p: int| stores[p]@[j].buf()[m]),
    ) by {
        let col = column(rest, j);
        assert forall|q: int| 0 <= q < col.len() implies (#[trigger] col[q]).buf().len() == stores[0]@[j].buf().len() by {
            assert(col[q] == stores[q + 1]@[j]);
        }
        lemma_fold_byte(stores[0]@[j].buf(), col, m);
        let full = Seq::new(n as nat, |p: int| stores[p]@[j].buf()[m]);
        assert(byte_column(col, m) =~= full.remove(0));
        lemma_fold_xor_remove(full, 0);
    }
    lemma_fold_len(stores[0]@[0].buf(), column(rest, 0));
    assert(column(rest, 0).len() >= 0);
    assert forall|q: int| 0 <= q < column(rest, 0).len() implies (#[trigger] column(rest, 0)[q]).buf().len() == stores[0]@[0].buf().len() by {
        assert(column(rest, 0)[q] == stores[q + 1]@[0]);
    }
    assert(reconstructed_row(stores[0], rest, 0).len() == stores[0]@[0].buf().len());
    assert(reconstructed_row(stores[0], rest, 2)[m] == bytes_and(
        reconstructed_row(stores[0], rest, 0),
        reconstructed_row(stores[0], rest, 1),
    )[m]);
    assert(Seq::new(n as nat, |p: int| stores[p]@[0].buf()[m]) =~= as_);
    assert(Seq::new(n as nat, |p: int| stores[p]@[1].buf()[m]) =~= bs);
    assert(Seq::new(n as nat, |p: int| stores[p]@[2].buf()[m]) =~= cs);
    let (fa, fb, fc, fx, fy) = (fold_xor(as_), fold_xor(bs), fold_xor(cs), fold_xor(xs), fold_xor(ys));
    assert(fc == fa & fb);
    // The Z bytes of the parties.
    let starts = Seq::new(n as nat, |p: int| if p == k { u & v } else { 0u8 });
    let uys = Seq::new(n as nat, |p: int| u & ys[p]);
    let vxs = Seq::new(n as nat, |p: int| v & xs[p]);
    let zs = Seq::new(n as nat, |p: int| finished[p].and_rows()[2].buf()[i]);
    assert forall|p: int| 0 <= p < n implies #[trigger] zs[p] == bytes_xor(bytes_xor(bytes_xor(starts, uys), vxs), cs)[p] by {
        let uu = xor_fold_arrays(prepared[p].beaver_rows()[0].buf(), column(sent.remove(p), 0));
        let vv = xor_fold_arrays(prepared[p].beaver_rows()[1].buf(), column(sent.remove(p), 1));
        let c0 = column(sent.remove(p), 0);
        let c1 = column(sent.remove(p), 1);
        assert forall|q: int| 0 <= q < c0.len() implies (#[trigger] c0[q]).buf().len() == len && c0[q].buf()[i] == ubs.remove(p)[q] by {
            let r = if q < p { q } else { q + 1 };
            assert(c0[q] == sent[r]@[0]);
        }
        assert forall|q: int| 0 <= q < c1.len() implies (#[trigger] c1[q]).buf().len() == len && c1[q].buf()[i] == vbs.remove(p)[q] by {
            let r = if q < p { q } else { q + 1 };
            assert(c1[q] == sent[r]@[1]);
        }
        lemma_fold_byte(prepared[p].beaver_rows()[0].buf(), c0, i);
        lemma_fold_byte(prepared[p].beaver_rows()[1].buf(), c1, i);
        assert(byte_column(c0, i) =~= ubs.remove(p));
        assert(byte_column(c1, i) =~= vbs.remove(p));
        lemma_fold_xor_remove(ubs, p);
        lemma_fold_xor_remove(vbs, p);
        assert(uu[i] == u && vv[i] == v);
        lemma_fold_len(prepared[p].beaver_rows()[0].buf(), column(sent.remove(p), 0));
        lemma_fold_len(prepared[p].beaver_rows()[1].buf(), column(sent.remove(p), 1));
        assert(prepared[p].and_rows()[0].buf().len() == len);
        assert(prepared[p].and_rows()[1].buf().len() == len);
        assert(prepared[p].and_rows()[2].buf().len() == len);
        assert(prepared[p].beaver_rows()[0].buf().len() == len);
        assert(prepared[p].beaver_rows()[2].buf().len() == len);
        assert(ubs[p] == as_[p] ^ xs[p]);
        assert(finished[p].and_rows()[2].buf() == gmw_z_share(
            prepared[p].is_const(),
            prepared[p].and_rows()[2].buf(),
            xor_fold_arrays(prepared[p].beaver_rows()[0].buf(), column(sent.remove(p), 0)),
            xor_fold_arrays(prepared[p].beaver_rows()[1].buf(), column(sent.remove(p), 1)),
            prepared[p].and_rows()[0].buf(),
            prepared[p].and_rows()[1].buf(),
            prepared[p].beaver_rows()[2].buf(),
        ));
    }
    assert(zs =~= bytes_xor(bytes_xor(bytes_xor(starts, uys), vxs), cs));
    lemma_fold_xor_xor(bytes_xor(bytes_xor(starts, uys), vxs), cs);
    lemma_fold_xor_xor(bytes_xor(starts, uys), vxs);
    lemma_fold_xor_xor(starts, uys);
    lemma_fold_xor_single(starts, k);
    lemma_fold_xor_and(u, ys);
    lemma_fold_xor_and(v, xs);
    assert(uys =~= Seq::new(ys.len(), |q: int| u & ys[q]));
    assert(vxs =~= Seq::new(xs.len(), |q: int| v & xs[q]));
    let t = fold_xor(zs);
    assert(t == (((u & v) ^ (u & fy)) ^ (v & fx)) ^ fc);
    assert(u == fa ^ fx);
    assert(v == fb ^ fy);
    assert(t == fx & fy) by (bit_vector)
        requires
            t == (((u & v) ^ (u & fy)) ^ (v & fx)) ^ fc,
            u == fa ^ fx,
            v == fb ^ fy,
            fc == fa & fb,
    ;
    assert(zs =~= Seq::new(finished.len(), |p: int| finished[p].and_rows()[2].buf()[i]));
    assert(xs =~= Seq::new(prepared.len(), |p: int| prepared[p].and_rows()[0].buf()[i]));
    assert(ys =~= Seq::new(prepared.len(), |p: int| prepared[p].and_rows()[1].buf()[i]));
}

/// The operations that request the AND of `a` and `b` on the gates of ticket `t`: `a` copied
/// into their X stream, then `b` into their Y stream.
pub open spec fn and_ops(a: LayerSource, b: LayerSource, t: Ticket) -> Seq<MpcOperation> {
    Seq::<MpcOperation>::empty().push(MpcOperation::Copy { inp: a, out: LayerDest::Relay { ticket: t, stream: 0u8 } }).push(
        MpcOperation::Copy { inp: b, out: LayerDest::Relay { ticket: t, stream: 1u8 } },
    )
}

/// The operations of an AND request feed its gates: once a layer ran them, its X and Y
/// streams hold the two inputs on the ticket's gates.
pub proof fn lemma_and_ops_feed(init: Seq<BitArray>, rows: Seq<BitArray>, x: BitArray, y: BitArray, t: Ticket, prev: Option<&Layer>)
    requires
        ops_applied(init, rows, and_ops(LayerSource::Input(x), LayerSource::Input(y), t), prev),
        init.len() == 3,
        t.st() + x.nbits() <= init[0].buf().len() * 8,
        t.st() + y.nbits() <= init[1].buf().len() * 8,
    ensures
        forall|q: int| 0 <= q < x.nbits() ==> #[trigger] rows[0].bit(t.st() + q) == x.bit(q),
        forall|q: int| 0 <= q < y.nbits() ==> #[trigger] rows[1].bit(t.st() + q) == y.bit(q),
{
    let ops = and_ops(LayerSource::Input(x), LayerSource::Input(y), t);
    let states = choose|states: Seq<Seq<BitArray>>|
        #[trigger] op_chain(states, ops, prev) && states[0] == rows && states[ops.len() as int] == init;
    assert(op_applied(states[2], states[1], &ops[1], prev));
    assert(op_applied(states[1], states[0], &ops[0], prev));
    assert forall|q: int| 0 <= q < x.nbits() implies #[trigger] rows[0].bit(t.st() + q) == x.bit(q) by {
        assert(seq_bit(states[0][0].buf(), t.st() + q) == op_value(&ops[0], prev, q));
    }
    assert forall|q: int| 0 <= q < y.nbits() implies #[trigger] rows[1].bit(t.st() + q) == y.bit(q) by {
        assert(seq_bit(states[1][1].buf(), t.st() + q) == op_value(&ops[1], prev, q));
    }
}

/// Bit `j` of stream `st` of the gates of each layer.
pub open spec fn stream_bits(layers: Seq<Layer>, st: int, j: int) -> Seq<bool> {
    Seq::new(layers.len(), |p: int| layers[p].and_rows()[st].bit(j))
}

/// Bit `j` of each array.
pub open spec fn array_bits(s: Seq<BitArray>, j: int) -> Seq<bool> {
    Seq::new(s.len(), |p: int| s[p].bit(j))
}

/// GMW AND over all parties, from the inputs to the outputs: party `p` requested the AND of
/// its shares `xs[p]` and `ys[p]` of `bits` bits on the gates of ticket `t` of a layer whose
/// only operations are that request's, ran them, and prepared and completed the exchange as
/// `lemma_layer_exchange` describes. Then on each gate of the ticket the parties' Z bits xor
/// to the and of the xors of their input bits.
pub proof fn lemma_and_gates(
    prepared: Seq<Layer>,
    finished: Seq<Layer>,
    sent: Seq<D2BitArray>,
    stores: Seq<D2BitArray>,
    used: nat,
    k: int,
    inits: Seq<Seq<BitArray>>,
    xs: Seq<BitArray>,
    ys: Seq<BitArray>,
    t: Ticket,
    bits: nat,
)
    requires
        prepared.len() > 0,
        finished.len() == prepared.len(),
        sent.len() == prepared.len(),
        stores.len() == prepared.len(),
        inits.len() == prepared.len(),
        xs.len() == prepared.len(),
        ys.len() == prepared.len(),
        0 <= k < prepared.len(),
        forall|p: int|
            0 <= p < prepared.len() ==> (#[trigger] prepared[p]).wf() && prepared[p].phase() == LayerState::SendingBeaverShares
                && prepared[p].size() == prepared[0].size() && prepared[p].is_const() == (p == k),
        forall|p: int|
            0 <= p < prepared.len() ==> #[trigger] prepared[p].and_rows()[2].buf() == zeros(prepared[p].and_rows()[2].buf().len()),
        forall|p: int|
            0 <= p < stores.len() ==> (#[trigger] stores[p]).wf() && triplet_shaped(stores[p]) && stores[p]@[0].nbits()
                == stores[0]@[0].nbits(),
        used + prepared[0].size() <= stores[0]@[0].nbytes(),
        beaver_relation(stores[0], stores.drop_first()),
        forall|p: int, j: int|
            0 <= p < prepared.len() && 0 <= j < 3 ==> #[trigger] prepared[p].beaver_rows()[j].bytes() == if j < 2 {
                bytes_xor(
                    stores[p]@[j].bytes().subrange(used as int, (used + prepared[0].size()) as int),
                    prepared[p].and_rows()[j].bytes(),
                )
            } else {
                stores[p]@[j].bytes().subrange(used as int, (used + prepared[0].size()) as int)
            },
        forall|p: int|
            0 <= p < sent.len() ==> (#[trigger] sent[p])@.len() == 2 && sent[p]@[0].buf() == prepared[p].beaver_rows()[0].buf()
                && sent[p]@[1].buf() == prepared[p].beaver_rows()[1].buf(),
        forall|p: int|
            0 <= p < finished.len() ==> #[trigger] finished[p].and_rows()[2].buf() == gmw_z_share(
                prepared[p].is_const(),
                prepared[p].and_rows()[2].buf(),
                xor_fold_arrays(prepared[p].beaver_rows()[0].buf(), column(sent.remove(p), 0)),
                xor_fold_arrays(prepared[p].beaver_rows()[1].buf(), column(sent.remove(p), 1)),
                prepared[p].and_rows()[0].buf(),
                prepared[p].and_rows()[1].buf(),
                prepared[p].beaver_rows()[2].buf(),
            ),
        forall|p: int|
            0 <= p < prepared.len() ==> #[trigger] ops_applied(
                inits[p],
                prepared[p].and_rows(),
                and_ops(LayerSource::Input(xs[p]), LayerSource::Input(ys[p]), t),
                None,
            ) && inits[p].len() == 3 && inits[p][0].buf().len() == prepared[p].and_rows()[0].buf().len()
                && inits[p][1].buf().len() == prepared[p].and_rows()[1].buf().len(),
        forall|p: int| 0 <= p < prepared.len() ==> (#[trigger] xs[p]).nbits() == bits && ys[p].nbits() == bits,
        t.st() + bits <= prepared[0].size() * 8,
    ensures
        forall|q: int|
            0 <= q < bits ==> xor_bools(stream_bits(finished, 2, t.st() + q)) == (xor_bools(#[trigger] array_bits(xs, q))
                && xor_bools(array_bits(ys, q))),
{
    let n = prepared.len();
    let size = prepared[0].size();
    lemma_layer_exchange(prepared, finished, sent, stores, used, k);
    assert forall|p: int, q: int| 0 <= p < n && 0 <= q < bits implies prepared[p].and_rows()[0].bit(t.st() + q) == #[trigger] xs[p].bit(q)
        && prepared[p].and_rows()[1].bit(t.st() + q) == ys[p].bit(q) by {
        prepared[p].lemma_wf();
        prepared[p].and_rows()[0].lemma_wf();
        prepared[p].and_rows()[1].lemma_wf();
        lemma_ceil8(size * 8);
        assert(ops_applied(inits[p], prepared[p].and_rows(), and_ops(LayerSource::Input(xs[p]), LayerSource::Input(ys[p]), t), None));
        lemma_and_ops_feed(inits[p], prepared[p].and_rows(), xs[p], ys[p], t, None);
    }
    assert forall|q: int| 0 <= q < bits implies xor_bools(stream_bits(finished, 2, t.st() + q)) == (xor_bools(
        #[trigger] array_bits(xs, q),
    ) && xor_bools(array_bits(ys, q))) by {
        let j = t.st() + q;
        let i = j / 8;
        let b = (j % 8) as u8;
        assert(0 <= i < size);
        let zc = Seq::new(n, |p: int| finished[p].and_rows()[2].buf()[i]);
        let xc = Seq::new(n, |p: int| prepared[p].and_rows()[0].buf()[i]);
        let yc = Seq::new(n, |p: int| prepared[p].and_rows()[1].buf()[i]);
        assert(xor_stream_byte(finished, 2, i) == xor_stream_byte(prepared, 0, i) & xor_stream_byte(prepared, 1, i));
        assert(zc =~= Seq::new(finished.len(), |p: int| finished[p].and_rows()[2].buf()[i]));
        assert(xc =~= Seq::new(prepared.len(), |p: int| prepared[p].and_rows()[0].buf()[i]));
        assert(yc =~= Seq::new(prepared.len(), |p: int| prepared[p].and_rows()[1].buf()[i]));
        assert(fold_xor(zc) == fold_xor(xc) & fold_xor(yc));
        lemma_fold_xor_bit(zc, b);
        lemma_fold_xor_bit(xc, b);
        lemma_fold_xor_bit(yc, b);
        lemma_byte_ops(fold_xor(xc), fold_xor(yc), b);
        assert(Seq::new(n, |p: int| byte_bit(zc[p], b as int)) =~= stream_bits(finished, 2, j));
        assert(Seq::new(n, |p: int| byte_bit(xc[p], b as int)) =~= array_bits(xs, q));
        assert forall|p: int| 0 <= p < n implies #[trigger] byte_bit(yc[p], b as int) == ys[p].bit(q) by {
            assert(prepared[p].and_rows()[0].bit(j) == xs[p].bit(q));
        }
        assert(Seq::new(n, |p: int| byte_bit(yc[p], b as int)) =~= array_bits(ys, q));
    }
}

/// GMW AND over all parties on every gate of a layer: after the exchange that
/// `lemma_layer_exchange` describes, with the X and Y streams kept by the exchange, each gate's
/// Z bits xor to the and of the xors of its X bits and of its Y bits.
pub proof fn lemma_exchange_gates(
    prepared: Seq<Layer>,
    finished: Seq<Layer>,
    sent: Seq<D2BitArray>,
    stores: Seq<D2BitArray>,
    used: nat,
    k: int,
)
    requires
        prepared.len() > 0,
        finished.len() == prepared.len(),
        sent.len() == prepared.len(),
        stores.len() == prepared.len(),
        0 <= k < prepared.len(),
        forall|p: int|
            0 <= p < prepared.len() ==> (#[trigger] prepared[p]).wf() && prepared[p].phase() == LayerState::SendingBeaverShares
                && prepared[p].size() == prepared[0].size() && prepared[p].is_const() == (p == k),
        forall|p: int|
            0 <= p < prepared.len() ==> #[trigger] prepared[p].and_rows()[2].buf() == zeros(prepared[p].and_rows()[2].buf().len()),
        forall|p: int|
            0 <= p < stores.len() ==> (#[trigger] stores[p]).wf() && triplet_shaped(stores[p]) && stores[p]@[0].nbits()
                == stores[0]@[0].nbits(),
        used + prepared[0].size() <= stores[0]@[0].nbytes(),
        beaver_relation(stores[0], stores.drop_first()),
        forall|p: int, j: int|
            0 <= p < prepared.len() && 0 <= j < 3 ==> #[trigger] prepared[p].beaver_rows()[j].bytes() == if j < 2 {
                bytes_xor(
                    stores[p]@[j].bytes().subrange(used as int, (used + prepared[0].size()) as int),
                    prepared[p].and_rows()[j].bytes(),
                )
            } else {
                stores[p]@[j].bytes().subrange(used as int, (used + prepared[0].size()) as int)
            },
        forall|p: int|
            0 <= p < sent.len() ==> (#[trigger] sent[p])@.len() == 2 && sent[p]@[0].buf() == prepared[p].beaver_rows()[0].buf()
                && sent[p]@[1].buf() == prepared[p].beaver_rows()[1].buf(),
        forall|p: int|
            0 <= p < finished.len() ==> #[trigger] finished[p].and_rows()[2].buf() == gmw_z_share(
                prepared[p].is_const(),
                prepared[p].and_rows()[2].buf(),
                xor_fold_arrays(prepared[p].beaver_rows()[0].buf(), column(sent.remove(p), 0)),
                xor_fold_arrays(prepared[p].beaver_rows()[1].buf(), column(sent.remove(p), 1)),
                prepared[p].and_rows()[0].buf(),
                prepared[p].and_rows()[1].buf(),
                prepared[p].beaver_rows()[2].buf(),
            ),
        forall|p: int|
            0 <= p < finished.len() ==> (#[trigger] finished[p]).and_rows()[0] == prepared[p].and_rows()[0]
                && finished[p].and_rows()[1] == prepared[p].and_rows()[1],
    ensures
        forall|g: int|
            0 <= g < prepared[0].size() * 8 ==> #[trigger] xor_bools(stream_bits(finished, 2, g)) == (xor_bools(
                stream_bits(finished, 0, g),
            ) && xor_bools(stream_bits(finished, 1, g))),
{
    let n = prepared.len();
    let size = prepared[0].size();
    lemma_layer_exchange(prepared, finished, sent, stores, used, k);
    assert forall|g: int| 0 <= g < size * 8 implies #[trigger] xor_bools(stream_bits(finished, 2, g)) == (xor_bools(
        stream_bits(finished, 0, g),
    ) && xor_bools(stream_bits(finished, 1, g))) by {
        let i = g / 8;
        let b = (g % 8) as u8;
        assert(0 <= i < size);
        let zc = Seq::new(n, |p: int| finished[p].and_rows()[2].buf()[i]);
        let xc = Seq::new(n, |p: int| prepared[p].and_rows()[0].buf()[i]);
        let yc = Seq::new(n, |p: int| prepared[p].and_rows()[1].buf()[i]);
        assert(xor_stream_byte(finished, 2, i) == xor_stream_byte(prepared, 0, i) & xor_stream_byte(prepared, 1, i));
        assert(zc =~= Seq::new(finished.len(), |p: int| finished[p].and_rows()[2].buf()[i]));
        assert(xc =~= Seq::new(prepared.len(), |p: int| prepared[p].and_rows()[0].buf()[i]));
        assert(yc =~= Seq::new(prepared.len(), |p: int| prepared[p].and_rows()[1].buf()[i]));
        assert(fold_xor(zc) == fold_xor(xc) & fold_xor(yc));
        lemma_fold_xor_bit(zc, b);
        lemma_fold_xor_bit(xc, b);
        lemma_fold_xor_bit(yc, b);
        lemma_byte_ops(fold_xor(xc), fold_xor(yc), b);
        assert(Seq::new(n, |p: int| byte_bit(zc[p], b as int)) =~= stream_bits(finished, 2, g));
        assert forall|p: int| 0 <= p < n implies #[trigger] byte_bit(xc[p], b as int) == stream_bits(finished, 0, g)[p] by {
            assert(finished[p].and_rows()[0] == prepared[p].and_rows()[0]);
        }
        assert forall|p: int| 0 <= p < n implies #[trigger] byte_bit(yc[p], b as int) == stream_bits(finished, 1, g)[p] by {
            assert(finished[p].and_rows()[1] == prepared[p].and_rows()[1]);
        }
        assert(Seq::new(n, |p: int| byte_bit(xc[p], b as int)) =~= stream_bits(finished, 0, g));
        assert(Seq::new(n, |p: int| byte_bit(yc[p], b as int)) =~= stream_bits(finished, 1, g));
    }
}

/// A chain of operations none of which writes stream `r` keeps that stream.
proof fn lemma_chain_keeps(states: Seq<Seq<BitArray>>, ops: Seq<MpcOperation>, prev: Option<&Layer>, r: int, m: int)
    requires
        op_chain(states, ops, prev),
        forall|i: int| 0 <= i < ops.len() ==> dest_stream(op_dest(#[trigger] &ops[i])) != r,
        0 <= r < states[ops.len() as int].len(),
        0 <= m <= ops.len(),
    ensures
        states[m].len() == states[ops.len() as int].len(),
        states[m][r] == states[ops.len() as int][r],
    decreases ops.len() - m,
{
    if m < ops.len() {
        lemma_chain_keeps(states, ops, prev, r, m + 1);
        assert(op_applied(states[m + 1], states[m], &ops[m], prev));
    }
}

/// The bits of the Z stream are `x & y` over all parties: the GMW evaluation of an AND
/// gate from the shares of one party, given the opened `u = x ^ a` and `v = y ^ b`.
pub open spec fn gmw_z_share(is_const: bool, z0: Seq<u8>, u: Seq<u8>, v: Seq<u8>, x: Seq<u8>, y: Seq<u8>, c: Seq<u8>) -> Seq<u8> {
    let start = if is_const {
        bytes_and(u, v)
    } else {
        z0
    };
    bytes_xor(bytes_xor(bytes_xor(start, bytes_and(u, y)), bytes_and(v, x)), c)
}

/// Every array of `s` has a storage of `len` bytes.
pub open spec fn bufs_sized(s: Seq<BitArray>, len: nat) -> bool {
    forall|p: int| 0 <= p < s.len() ==> #[trigger] s[p].buf().len() == len
}

proof fn lemma_fold_len(acc: Seq<u8>, s: Seq<BitArray>)
    ensures
        xor_fold_arrays(acc, s).len() == acc.len(),
    decreases s.len(),
{
    if s.len() > 0 {
        lemma_fold_len(acc, s.drop_last());
    }
}

proof fn lemma_fold_step(acc: Seq<u8>, s: Seq<BitArray>, m: int)
    requires
        0 <= m < s.len(),
    ensures
        xor_fold_arrays(acc, s.take(m + 1)) == bytes_xor(xor_fold_arrays(acc, s.take(m)), s[m].buf()),
{
    assert(s.take(m + 1).drop_last() =~= s.take(m));
}

proof fn lemma_fold_empty(len: nat, s: Seq<BitArray>)
    ensures
        xor_fold_arrays(zeros(len), s.take(0)) == zeros(len),
{
    assert(s.take(0).len() == 0);
}

/// Over the first `m` parties, the blinded shares xor to the xor of the shares and the
/// xor of the blinds.
proof fn lemma_blind_prefix(len: nat, a: Seq<BitArray>, x: Seq<BitArray>, ab: Seq<BitArray>, m: int)
    requires
        0 <= m <= ab.len(),
        a.len() == ab.len(),
        x.len() == ab.len(),
        bufs_sized(a, len),
        bufs_sized(x, len),
        forall|p: int| 0 <= p < ab.len() ==> #[trigger] ab[p].buf() == bytes_xor(a[p].buf(), x[p].buf()),
    ensures
        forall|i: int| 0 <= i < len ==> #[trigger] xor_fold_arrays(zeros(len), ab.take(m))[i]
            == xor_fold_arrays(zeros(len), a.take(m))[i] ^ xor_fold_arrays(zeros(len), x.take(m))[i],
    decreases m,
{
    if m == 0 {
        lemma_fold_empty(len, ab);
        lemma_fold_empty(len, a);
        lemma_fold_empty(len, x);
        assert forall|i: int| 0 <= i < len implies #[trigger] xor_fold_arrays(zeros(len), ab.take(m))[i]
            == xor_fold_arrays(zeros(len), a.take(m))[i] ^ xor_fold_arrays(zeros(len), x.take(m))[i] by {
            lemma_xor_laws(0u8, 0u8, 0u8);
        }
    } else {
        let q = m - 1;
        lemma_blind_prefix(len, a, x, ab, q);
        lemma_fold_step(zeros(len), ab, q);
        lemma_fold_step(zeros(len), a, q);
        lemma_fold_step(zeros(len), x, q);
        lemma_fold_len(zeros(len), ab.take(q));
        lemma_fold_len(zeros(len), a.take(q));
        lemma_fold_len(zeros(len), x.take(q));
        assert(ab[q].buf() == bytes_xor(a[q].buf(), x[q].buf()));
        assert forall|i: int| 0 <= i < len implies #[trigger] xor_fold_arrays(zeros(len), ab.take(m))[i]
            == xor_fold_arrays(zeros(len), a.take(m))[i] ^ xor_fold_arrays(zeros(len), x.take(m))[i] by {
            let t = xor_fold_arrays(zeros(len), ab.take(q))[i];
            let ta = xor_fold_arrays(zeros(len), a.take(q))[i];
            let tx = xor_fold_arrays(zeros(len), x.take(q))[i];
            let (aa, xx) = (a[q].buf()[i], x[q].buf()[i]);
            assert(t ^ (aa ^ xx) == (ta ^ aa) ^ (tx ^ xx)) by (bit_vector)
                requires
                    t == ta ^ tx,
            ;
        }
    }
}

/// Over the first `m` parties, the Z shares xor to the constant term (once the constant
/// party is among them) xored with `u & Y`, `v & X` and `C` of those parties.
proof fn lemma_gmw_prefix(
    len: nat,
    k: int,
    x: Seq<BitArray>,
    y: Seq<BitArray>,
    c: Seq<BitArray>,
    z: Seq<BitArray>,
    u: Seq<u8>,
    v: Seq<u8>,
    m: int,
)
    requires
        0 <= m <= z.len(),
        x.len() == z.len(),
        y.len() == z.len(),
        c.len() == z.len(),
        u.len() == len,
        v.len() == len,
        bufs_sized(x, len),
        bufs_sized(y, len),
        bufs_sized(c, len),
        forall|p: int| 0 <= p < z.len() ==> #[trigger] z[p].buf() == gmw_z_share(
                p == k,
                zeros(len),
                u,
                v,
                x[p].buf(),
                y[p].buf(),
                c[p].buf(),
            ),
    ensures
        forall|i: int| 0 <= i < len ==> #[trigger] xor_fold_arrays(zeros(len), z.take(m))[i] == (if 0 <= k < m {
            u[i] & v[i]
        } else {
            0u8
        }) ^ (u[i] & xor_fold_arrays(zeros(len), y.take(m))[i]) ^ (v[i] & xor_fold_arrays(zeros(len), x.take(m))[i])
            ^ xor_fold_arrays(zeros(len), c.take(m))[i],
    decreases m,
{
    if m == 0 {
        lemma_fold_empty(len, z);
        lemma_fold_empty(len, x);
        lemma_fold_empty(len, y);
        lemma_fold_empty(len, c);
        assert forall|i: int| 0 <= i < len implies #[trigger] xor_fold_arrays(zeros(len), z.take(m))[i] == (if 0 <= k < m {
            u[i] & v[i]
        } else {
            0u8
        }) ^ (u[i] & xor_fold_arrays(zeros(len), y.take(m))[i]) ^ (v[i] & xor_fold_arrays(zeros(len), x.take(m))[i])
            ^ xor_fold_arrays(zeros(len), c.take(m))[i] by {
            let (uu, vv) = (u[i], v[i]);
            assert(0u8 == 0u8 ^ (uu & 0u8) ^ (vv & 0u8) ^ 0u8) by (bit_vector);
        }
    } else {
        let q = m - 1;
        lemma_gmw_prefix(len, k, x, y, c, z, u, v, q);
        lemma_fold_step(zeros(len), z, q);
        lemma_fold_step(zeros(len), x, q);
        lemma_fold_step(zeros(len), y, q);
        lemma_fold_step(zeros(len), c, q);
        lemma_fold_len(zeros(len), z.take(q));
        lemma_fold_len(zeros(len), x.take(q));
        lemma_fold_len(zeros(len), y.take(q));
        lemma_fold_len(zeros(len), c.take(q));
        assert(z[q].buf() == gmw_z_share(q == k, zeros(len), u, v, x[q].buf(), y[q].buf(), c[q].buf()));
        assert forall|i: int| 0 <= i < len implies #[trigger] xor_fold_arrays(zeros(len), z.take(m))[i] == (if 0 <= k < m {
            u[i] & v[i]
        } else {
            0u8
        }) ^ (u[i] & xor_fold_arrays(zeros(len), y.take(m))[i]) ^ (v[i] & xor_fold_arrays(zeros(len), x.take(m))[i])
            ^ xor_fold_arrays(zeros(len), c.take(m))[i] by {
            let t = xor_fold_arrays(zeros(len), z.take(q))[i];
            let tx = xor_fold_arrays(zeros(len), x.take(q))[i];
            let ty = xor_fold_arrays(zeros(len), y.take(q))[i];
            let tc = xor_fold_arrays(zeros(len), c.take(q))[i];
            let k0: u8 = if 0 <= k < q {
                u[i] & v[i]
            } else {
                0u8
            };
            let k1: u8 = if q == k {
                u[i] & v[i]
            } else {
                0u8
            };
            let k2: u8 = if 0 <= k < m {
                u[i] & v[i]
            } else {
                0u8
            };
            assert(k2 == k0 ^ k1) by {
                let w = u[i] & v[i];
                lemma_xor_laws(w, 0u8, 0u8);
                lemma_xor_laws(0u8, 0u8, 0u8);
            }
            let (uu, vv, xx, yy, cc) = (u[i], v[i], x[q].buf()[i], y[q].buf()[i], c[q].buf()[i]);
            assert(t ^ (((k1 ^ (uu & yy)) ^ (vv & xx)) ^ cc) == (k0 ^ k1) ^ (uu & (ty ^ yy)) ^ (vv & (tx ^ xx)) ^ (tc ^ cc))
                by (bit_vector)
                requires
                    t == k0 ^ (uu & ty) ^ (vv & tx) ^ tc,
            ;
        }
    }
}

/// GMW evaluation of AND gates. Parties `0..n` hold xor shares `x`, `y` of the inputs and
/// `a`, `b`, `c` of Beaver triplets with `C = A & B` over all parties; each broadcasts its
/// blinded shares `a ^ x`, `b ^ y`, which open to `u` and `v`; party `k` alone adds the
/// constant term. Then the Z shares that each party computes xor to `X & Y`.
pub proof fn lemma_gmw_and(
    len: nat,
    k: int,
    x: Seq<BitArray>,
    y: Seq<BitArray>,
    a: Seq<BitArray>,
    b: Seq<BitArray>,
    c: Seq<BitArray>,
    ub: Seq<BitArray>,
    vb: Seq<BitArray>,
    z: Seq<BitArray>,
    u: Seq<u8>,
    v: Seq<u8>,
)
    requires
        0 <= k < z.len(),
        x.len() == z.len(),
        y.len() == z.len(),
        a.len() == z.len(),
        b.len() == z.len(),
        c.len() == z.len(),
        ub.len() == z.len(),
        vb.len() == z.len(),
        bufs_sized(x, len),
        bufs_sized(y, len),
        bufs_sized(a, len),
        bufs_sized(b, len),
        bufs_sized(c, len),
        forall|p: int| 0 <= p < z.len() ==> #[trigger] ub[p].buf() == bytes_xor(a[p].buf(), x[p].buf()),
        forall|p: int| 0 <= p < z.len() ==> #[trigger] vb[p].buf() == bytes_xor(b[p].buf(), y[p].buf()),
        u == xor_fold_arrays(zeros(len), ub),
        v == xor_fold_arrays(zeros(len), vb),
        xor_fold_arrays(zeros(len), c) == bytes_and(xor_fold_arrays(zeros(len), a), xor_fold_arrays(zeros(len), b)),
        forall|p: int| 0 <= p < z.len() ==> #[trigger] z[p].buf() == gmw_z_share(
            p == k,
            zeros(len),
            u,
            v,
            x[p].buf(),
            y[p].buf(),
            c[p].buf(),
        ),
    ensures
        xor_fold_arrays(zeros(len), z) == bytes_and(xor_fold_arrays(zeros(len), x), xor_fold_arrays(zeros(len), y)),
{
    let n = z.len() as int;
    assert(z.take(n) =~= z);
    assert(x.take(n) =~= x);
    assert(y.take(n) =~= y);
    assert(a.take(n) =~= a);
    assert(b.take(n) =~= b);
    assert(c.take(n) =~= c);
    assert(ub.take(n) =~= ub);
    assert(vb.take(n) =~= vb);
    lemma_fold_len(zeros(len), ub);
    lemma_fold_len(zeros(len), vb);
    lemma_fold_len(zeros(len), z);
    lemma_fold_len(zeros(len), x);
    lemma_fold_len(zeros(len), y);
    lemma_fold_len(zeros(len), a);
    lemma_fold_len(zeros(len), b);
    lemma_fold_len(zeros(len), c);
    lemma_blind_prefix(len, a, x, ub, n);
    lemma_blind_prefix(len, b, y, vb, n);
    lemma_gmw_prefix(len, k, x, y, c, z, u, v, n);
    let xs = xor_fold_arrays(zeros(len), x);
    let ys = xor_fold_arrays(zeros(len), y);
    let as_ = xor_fold_arrays(zeros(len), a);
    let bs = xor_fold_arrays(zeros(len), b);
    let cs = xor_fold_arrays(zeros(len), c);
    let zs = xor_fold_arrays(zeros(len), z);
    assert forall|i: int| 0 <= i < len implies #[trigger] zs[i] == bytes_and(xs, ys)[i] by {
        let (uu, vv, xx, yy, aa, bb, cc, t) = (u[i], v[i], xs[i], ys[i], as_[i], bs[i], cs[i], zs[i]);
        assert(cc == bytes_and(as_, bs)[i]);
        assert(t == xx & yy) by (bit_vector)
            requires
                t == (uu & vv) ^ (uu & yy) ^ (vv & xx) ^ cc,
                uu == aa ^ xx,
                vv == bb ^ yy,
                cc == aa & bb,
        ;
    }
    assert(zs =~= bytes_and(xs, ys));
}

impl Layer {
    /// Bits of the input of an operation, when it can be read.
    fn src_len_checked(inp: &LayerSource, prev_layer: Option<&Layer>) -> (r: Option<usize>)
        requires
            src_wf(inp, prev_layer),
        ensures
            r is Some <==> src_fits(inp, prev_layer),
            r matches Some(n) ==> n == src_len(inp, prev_layer),
    {
        match inp {
            LayerSource::Input(d) => Some(d.bit_size()),
            LayerSource::TakeZ(t) => match prev_layer {
                Some(p) => {
                    if p.state == LayerState::Finished && p.ticket_accepted(t) && t.st_bit % 8 == 0
                        && t.st_bit <= t.end_bit {
                        Some(t.end_bit - t.st_bit)
                    } else {
                        None
                    }
                },
                None => None,
            },
        }
    }

    /// Whether the operation fits this layer's gates (`op_fits`).
    fn op_fits_checked(&self, op: &MpcOperation, prev_layer: Option<&Layer>) -> (r: bool)
        requires
            self.wf(),
            src_wf(op_src(op), prev_layer),
        ensures
            r == op_fits(self.num(), self.size(), op, prev_layer),
    {
        proof {
            self.lemma_wf();
            lemma_ceil8(self.size() * 8);
        }
        let (inp, out) = match op {
            MpcOperation::Copy { inp, out } => (inp, out),
            MpcOperation::Replicate { n, inp, out } => (inp, out),
            MpcOperation::BitExpand { n, inp, out } => (inp, out),
        };
        let len = match Self::src_len_checked(inp, prev_layer) {
            Some(len) => len,
            None => {
                return false;
            },
        };
        let (ticket, stream) = match out {
            LayerDest::Relay { ticket, stream } => (ticket, *stream),
            LayerDest::Nowhere() => {
                return false;
            },
        };
        if stream >= 2 || ticket.layer_num != self.layer_num || ticket.end_byte() > self.current_size {
            return false;
        }
        let extent = match op {
            MpcOperation::Copy { inp, out } => Some(len),
            MpcOperation::Replicate { n, inp, out } => n.checked_mul(len),
            MpcOperation::BitExpand { n, inp, out } => {
                if *n == 0 || !BitArray::size_fits(*n) {
                    return false;
                }
                len.checked_mul(*n)
            },
        };
        match extent {
            Some(e) => {
                match ticket.st_bit.checked_add(e) {
                    Some(last) => last <= self.current_size * 8,
                    None => false,
                }
            },
            None => false,
        }
    }
}

impl Layer {
    /// Whether every operation fits this layer's gates.
    pub fn ops_fit(&self, prev_layer: Option<&Layer>) -> (r: bool)
        requires
            self.wf(),
            forall|i: int| 0 <= i < self.ops().len() ==> src_wf(op_src(#[trigger] &self.ops()[i]), prev_layer),
        ensures
            r == forall|i: int| 0 <= i < self.ops().len() ==> op_fits(self.num(), self.size(), #[trigger] &self.ops()[i], prev_layer),
    {
        let mut i: usize = 0;
        while i < self.operations.len()
            invariant
                self.wf(),
                i <= self.ops().len(),
                forall|k: int| 0 <= k < self.ops().len() ==> src_wf(op_src(#[trigger] &self.ops()[k]), prev_layer),
                forall|k: int| 0 <= k < i ==> op_fits(self.num(), self.size(), #[trigger] &self.ops()[k], prev_layer),
            decreases self.ops().len() - i,
        {
            if !self.op_fits_checked(&self.operations[i], prev_layer) {
                return false;
            }
            i += 1;
        }
        true
    }

    /// Opens the AND exchange: ends ticketing with the next triplets of the provider, runs the
    /// operations, blinds the inputs and returns the blinded shares (u, v) to broadcast.
    /// `None`, with nothing changed, when the layer has no gates, the provider has too few
    /// triplets left or an operation does not fit the layer.
    pub fn prepare_exchange(&mut self, prev_layer: Option<&Layer>, beaver_provider: &mut BeaverProvider) -> (r: Option<D2BitArray>)
        requires
            old(self).wf(),
            old(self).phase() == LayerState::Ticketing,
            old(beaver_provider).wf(),
            forall|i: int| 0 <= i < old(self).ops().len() ==> src_wf(op_src(#[trigger] &old(self).ops()[i]), prev_layer),
        ensures
            r is Some <==> (old(self).size() > 0 && old(beaver_provider).storage() is Some
                && old(beaver_provider).used_bytes() + old(self).size() <= old(beaver_provider).storage()->0@[0].nbytes()
                && forall|i: int| 0 <= i < old(self).ops().len() ==> op_fits(old(self).num(), old(self).size(), #[trigger] &old(self).ops()[i], prev_layer)),
            r is None ==> *final(self) == *old(self) && *final(beaver_provider) == *old(beaver_provider),
            r is Some ==> final(self).wf() && final(self).phase() == LayerState::SendingBeaverShares
                && final(self).is_const() == old(self).is_const() && final(self).num() == old(self).num()
                && final(self).size() == old(self).size() && final(self).ops() == Seq::<MpcOperation>::empty(),
            r is Some ==> final(beaver_provider).wf() && final(beaver_provider).storage() == old(beaver_provider).storage()
                && final(beaver_provider).used_bytes() == old(beaver_provider).used_bytes() + old(self).size()
                && final(beaver_provider).reported_bytes() == old(beaver_provider).reported_bytes(),
            r is Some ==> exists|init: Seq<BitArray>|
                #[trigger] ops_applied(init, final(self).and_rows(), old(self).ops(), prev_layer) && init.len() == 3
                    && forall|j: int| 0 <= j < 3 ==> #[trigger] init[j].buf() == zeros(init[j].buf().len()),
            r is Some ==> final(self).and_rows()[2].buf() == zeros(final(self).and_rows()[2].buf().len()),
            r is Some ==> forall|j: int|
                0 <= j < 3 ==> #[trigger] final(self).beaver_rows()[j].bytes() == if j < 2 {
                    bytes_xor(
                        old(beaver_provider).storage()->0@[j].bytes().subrange(
                            old(beaver_provider).used_bytes() as int,
                            (old(beaver_provider).used_bytes() + old(self).size()) as int,
                        ),
                        final(self).and_rows()[j].bytes(),
                    )
                } else {
                    old(beaver_provider).storage()->0@[j].bytes().subrange(
                        old(beaver_provider).used_bytes() as int,
                        (old(beaver_provider).used_bytes() + old(self).size()) as int,
                    )
                },
            r matches Some(d) ==> d.wf() && d@.len() == 2 && d@[0].nbits() == old(self).size() * 8
                && d@[1].nbits() == old(self).size() * 8 && d@[0].buf() == final(self).beaver_rows()[0].buf()
                && d@[1].buf() == final(self).beaver_rows()[1].buf(),
    {
        if self.current_size == 0 || !beaver_provider.can_take(self.current_size) {
            return None;
        }
        if !self.ops_fit(prev_layer) {
            return None;
        }
        let ghost used = beaver_provider.used_bytes();
        let ghost store = beaver_provider.storage()->0;
        self.end_ticketing_phase(beaver_provider);
        let ghost init = self.and_rows();
        let ghost taken = self.beaver_rows();
        proof {
            assert forall|i: int| 0 <= i < self.ops().len() implies op_ok(&*self, #[trigger] &self.ops()[i], prev_layer) by {
                assert(src_wf(op_src(&self.ops()[i]), prev_layer));
                assert(op_fits(self.num(), self.size(), &self.ops()[i], prev_layer));
            }
        }
        self.execute_operations(prev_layer);
        let ghost ran = self.and_rows();
        self.blind_and_with_beaver();
        proof {
            self.lemma_wf();
            assert(ops_applied(init, self.and_rows(), old(self).ops(), prev_layer));
            let states = choose|states: Seq<Seq<BitArray>>|
                #[trigger] op_chain(states, old(self).ops(), prev_layer) && states[0] == self.and_rows()
                    && states[old(self).ops().len() as int] == init;
            assert forall|i: int| 0 <= i < old(self).ops().len() implies dest_stream(op_dest(#[trigger] &old(self).ops()[i])) != 2 by {
                assert(op_fits(old(self).num(), old(self).size(), &old(self).ops()[i], prev_layer));
            }
            lemma_chain_keeps(states, old(self).ops(), prev_layer, 2, 0);
            assert(self.and_rows()[2] == init[2]);
            assert forall|j: int| 0 <= j < 2 implies #[trigger] self.beaver_rows()[j].bytes() == bytes_xor(
                store@[j].bytes().subrange(used as int, (used + self.size()) as int),
                self.and_rows()[j].bytes(),
            ) by {
                let n = self.size() as int;
                lemma_ceil8(self.size() * 8);
                BitArray::lemma_same_layout(&store@[j], &store@[0]);
                taken[j].lemma_wf();
                self.and_rows()[j].lemma_wf();
                self.beaver_rows()[j].lemma_wf();
                store@[j].lemma_wf();
                store@[0].lemma_wf();
                let t = taken[j];
                let sub = store@[j].bytes().subrange(used as int, (used + self.size()) as int);
                assert(t.bytes() == sub);
                assert(self.beaver_rows()[j].buf() == bytes_xor(t.buf(), self.and_rows()[j].buf())) by {
                    if j == 0 {
                    } else {
                    }
                }
                assert forall|i: int| 0 <= i < n implies #[trigger] self.beaver_rows()[j].bytes()[i] == bytes_xor(sub, self.and_rows()[j].bytes())[i] by {
                    assert(t.bytes()[i] == t.buf()[i]);
                }
                assert(self.beaver_rows()[j].bytes() =~= bytes_xor(
                    store@[j].bytes().subrange(used as int, (used + self.size()) as int),
                    self.and_rows()[j].bytes(),
                ));
            }
        }
        let out = self.get_beaver_out_shares();
        Some(out)
    }

    /// Completes the AND exchange with the blinded shares (u, v) of the other parties: opens u
    /// and v and computes the Z shares. `false`, with nothing changed, when a share is not
    /// two rows of the layer's gates.
    pub fn complete_exchange(&mut self, beaver_shares: Vec<D2BitArray>) -> (r: bool)
        requires
            old(self).wf(),
            old(self).phase() == LayerState::SendingBeaverShares,
            forall|k: int| 0 <= k < beaver_shares@.len() ==> (#[trigger] beaver_shares@[k]).wf(),
        ensures
            r == forall|k: int|
                0 <= k < beaver_shares@.len() ==> (#[trigger] beaver_shares@[k])@.len() == 2
                    && beaver_shares@[k]@[0].nbits() == old(self).size() * 8 && beaver_shares@[k]@[1].nbits() == old(self).size() * 8,
            !r ==> *final(self) == *old(self),
            r ==> final(self).wf() && final(self).phase() == LayerState::Finished
                && final(self).is_const() == old(self).is_const() && final(self).num() == old(self).num()
                && final(self).size() == old(self).size() && final(self).ops() == old(self).ops()
                && final(self).and_rows()[0] == old(self).and_rows()[0]
                && final(self).and_rows()[1] == old(self).and_rows()[1]
                && final(self).and_rows()[2].buf() == gmw_z_share(
                    old(self).is_const(),
                    old(self).and_rows()[2].buf(),
                    xor_fold_arrays(old(self).beaver_rows()[0].buf(), column(beaver_shares@, 0)),
                    xor_fold_arrays(old(self).beaver_rows()[1].buf(), column(beaver_shares@, 1)),
                    old(self).and_rows()[0].buf(),
                    old(self).and_rows()[1].buf(),
                    old(self).beaver_rows()[2].buf(),
                ),
    {
        let n = self.current_size * 8;
        proof {
            self.lemma_wf();
            lemma_ceil8(self.size() * 8);
        }
        let mut k: usize = 0;
        while k < beaver_shares.len()
            invariant
                k <= beaver_shares@.len(),
                n == old(self).size() * 8,
                forall|m: int|
                    0 <= m < k ==> (#[trigger] beaver_shares@[m])@.len() == 2 && beaver_shares@[m]@[0].nbits() == n
                        && beaver_shares@[m]@[1].nbits() == n,
            decreases beaver_shares@.len() - k,
        {
            let d = &beaver_shares[k];
            if d.array_num() != 2 || d.get_array(0).bit_size() != n || d.get_array(1).bit_size() != n {
                return false;
            }
            k += 1;
        }
        let ghost pre = *self;
        self.recons_beaver_uv(beaver_shares);
        self.finish_and_exchange();
        true
    }
}

impl Layer {
    /// Runs one operation: reads its input and writes it into the destination stream.
    pub fn exec_operation(&mut self, op: MpcOperation, prev_layer: Option<&Layer>)
        requires
            old(self).wf(),
            op_ok(old(self), &op, prev_layer),
        ensures
            final(self).wf(),
            final(self).same_but_data(old(self)),
            final(self).beaver_rows() == old(self).beaver_rows(),
            op_applied(old(self).and_rows(), final(self).and_rows(), &op, prev_layer),
    {
        proof {
            self.lemma_wf();
        }
        match op {
            MpcOperation::Copy { inp, out } => {
                let data = Self::extract_src_data(inp, prev_layer);
                let (start_bit, dest_array) = self.get_mut_array_from_destination(out);
                dest_array.copy_from(start_bit, &data);
            },
            MpcOperation::Replicate { n, inp, out } => {
                let data = Self::extract_src_data(inp, prev_layer);
                let (start_bit, dest_array) = self.get_mut_array_from_destination(out);
                replicate_into(dest_array, start_bit, n, &data);
            },
            MpcOperation::BitExpand { n, inp, out } => {
                let zeroes = BitArray::new(n);
                let ones = BitArray::ones(n);
                proof {
                    zeroes.lemma_wf();
                    ones.lemma_wf();
                    assert forall|j: int| 0 <= j < zeroes.nbits() implies !(#[trigger] zeroes.bit(j)) by {
                        lemma_const_bytes(j % 8);
                    }
                    assert forall|j: int| 0 <= j < ones.nbits() implies #[trigger] ones.bit(j) by {
                        lemma_const_bytes(j % 8);
                    }
                }
                let ghost src = inp;
                let ghost s = dest_stream(&out);
                let data = Self::extract_src_data(inp, prev_layer);
                let (start_bit, dest_array) = self.get_mut_array_from_destination(out);
                expand_into(dest_array, start_bit, &data, &zeroes, &ones);
                proof {
                    let before = old(self).and_rows()[s];
                    let after = self.and_rows()[s];
                    let len = data.nbits() as int;
                    assert forall|j: int| 0 <= j < before.buf().len() * 8 implies #[trigger] seq_bit(after.buf(), j) == if start_bit <= j < start_bit + src_len(&src, prev_layer) * (n as nat) {
                        src_bit(&src, prev_layer, (j - start_bit) / (n as int))
                    } else {
                        seq_bit(before.buf(), j)
                    } by {
                        if start_bit <= j < start_bit + len * n {
                            let q = j - start_bit;
                            assert(len * n == n * len) by (nonlinear_arith);
                            lemma_div_pos_is_pos(q, n as int);
                            lemma_multiply_divide_lt(q, n as int, len);
                            assert(data.bit(q / (n as int)) == src_bit(&src, prev_layer, q / (n as int)));
                        }
                    }
                }
            },
        }
    }

    /// Ends the ticketing phase: zero X, Y, Z streams for the reserved gates and as many
    /// Beaver triplets taken from the provider.
    pub fn end_ticketing_phase(&mut self, beaver_provider: &mut BeaverProvider)
        requires
            old(self).wf(),
            old(self).phase() == LayerState::Ticketing,
            old(self).size() > 0,
            old(beaver_provider).wf(),
            old(beaver_provider).storage() is Some,
            old(beaver_provider).used_bytes() + old(self).size() <= old(beaver_provider).storage()->0@[0].nbytes(),
        ensures
            final(self).wf(),
            final(self).phase() == LayerState::DataInitialized,
            final(self).is_const() == old(self).is_const(),
            final(self).num() == old(self).num(),
            final(self).size() == old(self).size(),
            final(self).ops() == old(self).ops(),
            forall|j: int| 0 <= j < 3 ==> #[trigger] final(self).and_rows()[j].buf()
                == crate::simd_array::bit_array::zeros(final(self).and_rows()[j].buf().len()),
            forall|j: int|
                0 <= j < 3 ==> #[trigger] final(self).beaver_rows()[j].bytes() == old(beaver_provider).storage()->0@[j].bytes().subrange(
                    old(beaver_provider).used_bytes() as int,
                    (old(beaver_provider).used_bytes() + old(self).size()) as int,
                ) && final(self).beaver_rows()[j].zero_padded(),
            final(beaver_provider).wf(),
            final(beaver_provider).storage() == old(beaver_provider).storage(),
            final(beaver_provider).used_bytes() == old(beaver_provider).used_bytes() + old(self).size(),
            final(beaver_provider).reported_bytes() == old(beaver_provider).reported_bytes(),
    {
        proof {
            lemma_ceil8(self.size() * 8);
        }
        self.and_data = Some(D2BitArray::zeros(3, self.current_size * 8));
        self.beaver_data = Some(beaver_provider.take(self.current_size));
        self.state = LayerState::DataInitialized;
    }

    /// Runs all operations, the last added first, and ends the data phase.
    pub fn execute_operations(&mut self, prev_layer: Option<&Layer>)
        requires
            old(self).wf(),
            old(self).phase() == LayerState::DataInitialized,
            forall|i: int| 0 <= i < old(self).ops().len() ==> op_ok(old(self), #[trigger] &old(self).ops()[i], prev_layer),
        ensures
            final(self).wf(),
            final(self).phase() == LayerState::OperationsExecuted,
            final(self).is_const() == old(self).is_const(),
            final(self).num() == old(self).num(),
            final(self).size() == old(self).size(),
            final(self).ops() == Seq::<MpcOperation>::empty(),
            final(self).beaver_rows() == old(self).beaver_rows(),
            ops_applied(old(self).and_rows(), final(self).and_rows(), old(self).ops(), prev_layer),
    {
        let ghost old_ops = self.ops();
        let ghost old_rows = self.and_rows();
        let ghost mut states: Seq<Seq<BitArray>> = Seq::new((old_ops.len() + 1) as nat, |i: int| old_rows);
        while self.operations.len() > 0
            invariant
                self.wf(),
                self.phase() == LayerState::DataInitialized,
                self.is_const() == old(self).is_const(),
                self.num() == old(self).num(),
                self.size() == old(self).size(),
                self.beaver_rows() == old(self).beaver_rows(),
                old_ops == old(self).ops(),
                old_rows == old(self).and_rows(),
                self.ops().len() <= old_ops.len(),
                self.ops() == old_ops.take(self.ops().len() as int),
                forall|i: int| 0 <= i < old_ops.len() ==> op_ok(old(self), #[trigger] &old_ops[i], prev_layer),
                states.len() == old_ops.len() + 1,
                states[old_ops.len() as int] == old_rows,
                states[self.ops().len() as int] == self.and_rows(),
                forall|i: int|
                    self.ops().len() <= i < old_ops.len() ==> op_applied(states[i + 1], states[i], #[trigger] &old_ops[i], prev_layer),
            decreases self.ops().len(),
        {
            let ghost k = self.ops().len() - 1;
            let op = self.operations.pop().unwrap();
            proof {
                assert(op == old_ops[k]);
                assert(op_ok(old(self), &old_ops[k], prev_layer));
                assert(self.ops() =~= old_ops.take(k));
            }
            self.exec_operation(op, prev_layer);
            proof {
                states = states.update(k, self.and_rows());
            }
        }
        proof {
            assert(op_chain(states, old_ops, prev_layer));
        }
        self.state = LayerState::OperationsExecuted;
    }

    /// Blinds the inputs with the Beaver triplet: a ^= x, b ^= y.
    pub fn blind_and_with_beaver(&mut self)
        requires
            old(self).wf(),
            old(self).phase() == LayerState::OperationsExecuted,
        ensures
            final(self).wf(),
            final(self).phase() == LayerState::SendingBeaverShares,
            final(self).is_const() == old(self).is_const(),
            final(self).num() == old(self).num(),
            final(self).size() == old(self).size(),
            final(self).ops() == old(self).ops(),
            final(self).and_rows() == old(self).and_rows(),
            final(self).beaver_rows().len() == 3,
            final(self).beaver_rows()[0].buf() == bytes_xor(old(self).beaver_rows()[0].buf(), old(self).and_rows()[0].buf()),
            final(self).beaver_rows()[1].buf() == bytes_xor(old(self).beaver_rows()[1].buf(), old(self).and_rows()[1].buf()),
            final(self).beaver_rows()[2] == old(self).beaver_rows()[2],
    {
        let xy = self.and_data.as_ref().unwrap();
        let bd = self.beaver_data.as_mut().unwrap();
        let a = bd.get_mut_array(0);
        a.inplace_xor(xy.get_array(0));
        let b = bd.get_mut_array(1);
        b.inplace_xor(xy.get_array(1));
        self.state = LayerState::SendingBeaverShares;
    }

    /// The blinded shares (u, v) to send to the other parties.
    pub fn get_beaver_out_shares(&mut self) -> (r: D2BitArray)
        requires
            old(self).wf(),
            old(self).phase() != LayerState::Ticketing,
        ensures
            *final(self) == *old(self),
            r.wf(),
            r@.len() == 2,
            r@[0].nbits() == old(self).size() * 8,
            r@[1].nbits() == old(self).size() * 8,
            r@[0].buf() == old(self).beaver_rows()[0].buf(),
            r@[1].buf() == old(self).beaver_rows()[1].buf(),
    {
        let bd = self.beaver_data.as_ref().unwrap();
        let (u, v, _) = bd.unpack_as_beaver();
        D2BitArray::new(vec![u.clone(), v.clone()])
    }

    /// Opens u and v: xors in the blinded shares received from the other parties.
    pub fn recons_beaver_uv(&mut self, beaver_shares: Vec<D2BitArray>)
        requires
            old(self).wf(),
            old(self).phase() == LayerState::SendingBeaverShares,
            forall|k: int|
                0 <= k < beaver_shares@.len() ==> (#[trigger] beaver_shares@[k]).wf() && beaver_shares@[k]@.len() == 2
                    && beaver_shares@[k]@[0].nbits() == old(self).size() * 8 && beaver_shares@[k]@[1].nbits() == old(self).size() * 8,
        ensures
            final(self).wf(),
            final(self).phase() == LayerState::BeaverSharesReceived,
            final(self).is_const() == old(self).is_const(),
            final(self).num() == old(self).num(),
            final(self).size() == old(self).size(),
            final(self).ops() == old(self).ops(),
            final(self).and_rows() == old(self).and_rows(),
            final(self).beaver_rows()[0].buf() == crate::simd_array::bit_array::xor_fold_arrays(
                old(self).beaver_rows()[0].buf(),
                crate::simd_array::d2_bit_array::column(beaver_shares@, 0),
            ),
            final(self).beaver_rows()[1].buf() == crate::simd_array::bit_array::xor_fold_arrays(
                old(self).beaver_rows()[1].buf(),
                crate::simd_array::d2_bit_array::column(beaver_shares@, 1),
            ),
            final(self).beaver_rows()[2] == old(self).beaver_rows()[2],
    {
        let ghost old_rows = self.beaver_rows();
        let ghost shares = beaver_shares@;
        let mut k: usize = 0;
        while k < beaver_shares.len()
            invariant
                self.wf(),
                self.phase() == LayerState::SendingBeaverShares,
                self.is_const() == old(self).is_const(),
                self.num() == old(self).num(),
                self.size() == old(self).size(),
                self.ops() == old(self).ops(),
                self.and_rows() == old(self).and_rows(),
                old_rows == old(self).beaver_rows(),
                shares == beaver_shares@,
                forall|m: int|
                    0 <= m < shares.len() ==> (#[trigger] shares[m]).wf() && shares[m]@.len() == 2
                        && shares[m]@[0].nbits() == old(self).size() * 8 && shares[m]@[1].nbits() == old(self).size() * 8,
                k <= shares.len(),
                self.beaver_rows()[0].buf() == crate::simd_array::bit_array::xor_fold_arrays(
                    old_rows[0].buf(),
                    crate::simd_array::d2_bit_array::column(shares.take(k as int), 0),
                ),
                self.beaver_rows()[1].buf() == crate::simd_array::bit_array::xor_fold_arrays(
                    old_rows[1].buf(),
                    crate::simd_array::d2_bit_array::column(shares.take(k as int), 1),
                ),
                self.beaver_rows()[2] == old_rows[2],
            decreases shares.len() - k,
        {
            proof {
                assert(crate::simd_array::d2_bit_array::column(shares.take(k + 1), 0).drop_last() =~= crate::simd_array::d2_bit_array::column(shares.take(k as int), 0));
                assert(crate::simd_array::d2_bit_array::column(shares.take(k + 1), 1).drop_last() =~= crate::simd_array::d2_bit_array::column(shares.take(k as int), 1));
                self.lemma_wf();
            }
            let bd = self.beaver_data.as_mut().unwrap();
            bd.beaver_xor_d2(&beaver_shares[k]);
            k += 1;
        }
        proof {
            assert(shares.take(shares.len() as int) =~= shares);
        }
        self.state = LayerState::BeaverSharesReceived;
    }

    /// Computes the Z share of every gate: the constant party starts from u & v; every
    /// party then xors in u & y, v & x and c.
    pub fn finish_and_exchange(&mut self)
        requires
            old(self).wf(),
            old(self).phase() == LayerState::BeaverSharesReceived,
        ensures
            final(self).wf(),
            final(self).phase() == LayerState::Finished,
            final(self).is_const() == old(self).is_const(),
            final(self).num() == old(self).num(),
            final(self).size() == old(self).size(),
            final(self).ops() == old(self).ops(),
            final(self).and_rows()[0] == old(self).and_rows()[0],
            final(self).and_rows()[1] == old(self).and_rows()[1],
            final(self).and_rows()[2].buf() == gmw_z_share(
                old(self).is_const(),
                old(self).and_rows()[2].buf(),
                old(self).beaver_rows()[0].buf(),
                old(self).beaver_rows()[1].buf(),
                old(self).and_rows()[0].buf(),
                old(self).and_rows()[1].buf(),
                old(self).beaver_rows()[2].buf(),
            ),
    {
        proof {
            self.lemma_wf();
        }
        let is_const = self.party_const;
        let ad = self.and_data.as_mut().unwrap();
        let bd = self.beaver_data.as_mut().unwrap();
        if is_const {
            let z = ad.get_mut_array(2);
            z.mut_and(bd.get_array(0), bd.get_array(1));
        }
        let u = bd.get_mut_array(0);
        u.inplace_and(ad.get_array(1));
        let v = bd.get_mut_array(1);
        v.inplace_and(ad.get_array(0));
        let z = ad.get_mut_array(2);
        z.inplace_xor(bd.get_array(0));
        z.inplace_xor(bd.get_array(1));
        z.inplace_xor(bd.get_array(2));
        self.state = LayerState::Finished;
    }
}
} // verus!
